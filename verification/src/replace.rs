//! Swapping the library symbol of a placed component.

use crate::names::{
    lemma_less_irreflexive, lemma_less_total, lemma_less_transitive, precedes, text_less,
};
use crate::placement::{check_unit, unit_refusal};
use crate::scan::{advance, node_text, outside, run, step, Lex};
use crate::sexp::{
    borrowed_trees, characters, document, lemma_trees, parse_sexp, tagged_item, tagged_items,
    tagged_value, SexpNode, Tree,
};
use crate::structure::{
    is_flat, lemma_pass_flat, lemma_run_front, lemma_run_same, lemma_run_split, passes,
};
use crate::symbols::{answering_block, find_symbol_block_by_any_reference, lemma_answering_block};
use crate::text::{
    append_range, append_str, decimal, decimal_text, find, find_char, first_char, first_match,
    join3, lemma_first_char, lemma_first_match, matches_at, occurs_at, same_text, slice_text,
    to_chars, to_text,
};
use vstd::prelude::*;

verus! {

// ─── The references of a symbol ──────────────────────────────────────────────

/// A reference that a symbol answers to, with the position of the sheet hierarchy
/// at which it does.
#[derive(Debug)]
pub struct InstanceRef {
    pub project: String,
    pub path: String,
    pub reference: String,
}

/// A reference, as plain values.
pub ghost struct RefEntry {
    pub project: Seq<char>,
    pub path: Seq<char>,
    pub reference: Seq<char>,
}

impl View for InstanceRef {
    type V = RefEntry;

    open spec fn view(&self) -> RefEntry {
        RefEntry { project: self.project@, path: self.path@, reference: self.reference@ }
    }
}

/// References, as plain values.
pub open spec fn entry_views(list: Seq<InstanceRef>) -> Seq<RefEntry> {
    list.map_values(|r: InstanceRef| r@)
}

/// What stands behind the tag of a list.
pub open spec fn list_name(t: Tree) -> Option<Seq<char>> {
    match t {
        Tree::List(items) => if items.len() > 1 {
            characters(items[1])
        } else {
            None
        },
        _ => None,
    }
}

/// The references under the `(path …)` lists `paths` of a project.
pub open spec fn path_entries(project: Seq<char>, paths: Seq<Tree>) -> Seq<RefEntry>
    decreases paths.len(),
{
    if paths.len() == 0 {
        Seq::empty()
    } else {
        let front = path_entries(project, paths.drop_last());
        match (list_name(paths.last()), tagged_value(paths.last(), "reference"@)) {
            (Some(path), Some(reference)) => front.push(RefEntry { project, path, reference }),
            _ => front,
        }
    }
}

/// The references under the `(project …)` lists `projects`.
pub open spec fn project_entries(projects: Seq<Tree>) -> Seq<RefEntry>
    decreases projects.len(),
{
    if projects.len() == 0 {
        Seq::empty()
    } else {
        let front = project_entries(projects.drop_last());
        match list_name(projects.last()) {
            Some(project) => front + path_entries(project, tagged_items(projects.last(), "path"@)),
            None => front,
        }
    }
}

/// The references that a symbol block's `(instances …)` gives it.
pub open spec fn block_entries(b: Seq<char>) -> Seq<RefEntry> {
    match document(b) {
        None => Seq::empty(),
        Some(tree) => match tagged_item(tree, "instances"@) {
            None => Seq::empty(),
            Some(instances) => project_entries(tagged_items(instances, "project"@)),
        },
    }
}

fn name_of(node: &SexpNode) -> (res: Option<String>)
    ensures
        match res {
            Some(text) => list_name(node@) == Some(text@),
            None => list_name(node@) is None,
        },
{
    match node {
        SexpNode::List(items) => {
            proof {
                lemma_trees(items@);
            }
            if items.len() > 1 {
                match items[1].as_str() {
                    Some(text) => Some(text.to_string()),
                    None => None,
                }
            } else {
                None
            }
        },
        _ => None,
    }
}

fn add_paths(out: &mut Vec<InstanceRef>, node: &SexpNode, project: &str)
    ensures
        entry_views(final(out)@) == entry_views(old(out)@) + path_entries(
            project@,
            tagged_items(node@, "path"@),
        ),
{
    let paths = node.find_all("path");
    let ghost all = tagged_items(node@, "path"@);
    let mut i: usize = 0;
    proof {
        assert(all.take(0) =~= Seq::<Tree>::empty());
        assert(entry_views(out@) + path_entries(project@, all.take(0)) =~= entry_views(out@));
    }
    while i < paths.len()
        invariant
            i <= paths@.len(),
            all == borrowed_trees(paths@),
            entry_views(out@) == entry_views(old(out)@) + path_entries(
                project@,
                all.take(i as int),
            ),
        decreases paths@.len() - i,
    {
        let path = paths[i];
        proof {
            assert(all.take(i + 1).drop_last() =~= all.take(i as int));
            assert(all.take(i + 1).last() == path@);
        }
        if let Some(name) = name_of(path) {
            if let Some(reference) = path.find_str("reference") {
                let ghost before = entry_views(out@);
                let entry = InstanceRef {
                    project: project.to_string(),
                    path: name,
                    reference: reference.to_string(),
                };
                out.push(entry);
                proof {
                    assert(entry_views(out@) =~= before.push(entry@));
                    assert(entry_views(out@) =~= entry_views(old(out)@) + path_entries(
                        project@,
                        all.take(i + 1),
                    ));
                }
            }
        }
        i = i + 1;
    }
    assert(all.take(all.len() as int) =~= all);
}

/// The references that a symbol block's `(instances …)` gives it, in file order.
pub fn symbol_instance_refs(block: &str) -> (res: Vec<InstanceRef>)
    ensures
        entry_views(res@) == block_entries(block@),
{
    let mut out: Vec<InstanceRef> = Vec::new();
    assert(entry_views(out@) =~= Seq::<RefEntry>::empty());
    if let Ok(tree) = parse_sexp(block) {
        if let Some(instances) = tree.find("instances") {
            let projects = instances.find_all("project");
            let ghost all = tagged_items(instances@, "project"@);
            let mut i: usize = 0;
            assert(all.take(0) =~= Seq::<Tree>::empty());
            while i < projects.len()
                invariant
                    i <= projects@.len(),
                    all == borrowed_trees(projects@),
                    entry_views(out@) == project_entries(all.take(i as int)),
                decreases projects@.len() - i,
            {
                let project = projects[i];
                proof {
                    assert(all.take(i + 1).drop_last() =~= all.take(i as int));
                    assert(all.take(i + 1).last() == project@);
                }
                if let Some(name) = name_of(project) {
                    add_paths(&mut out, project, name.as_str());
                }
                i = i + 1;
            }
            assert(all.take(all.len() as int) =~= all);
        }
    }
    out
}

// ─── The others that change ──────────────────────────────────────────────────

/// Whether `a` comes before `b`: by project, then by reference.
pub open spec fn entry_less(a: RefEntry, b: RefEntry) -> bool {
    text_less(a.project, b.project) || (a.project == b.project && text_less(
        a.reference,
        b.reference,
    ))
}

/// Whether two entries name the same reference of the same project.
pub open spec fn same_entry(a: RefEntry, b: RefEntry) -> bool {
    a.project == b.project && a.reference == b.reference
}

/// How many entries at the front of `list` come before `entry`.
pub open spec fn place_of(list: Seq<RefEntry>, entry: RefEntry, from: int) -> int
    decreases list.len() - from,
{
    if 0 <= from < list.len() && entry_less(list[from], entry) {
        place_of(list, entry, from + 1)
    } else {
        from
    }
}

/// `list` with `entry` in its place, unless it names what `list` has already.
pub open spec fn entry_added(list: Seq<RefEntry>, entry: RefEntry) -> Seq<RefEntry> {
    let at = place_of(list, entry, 0);
    if at < list.len() && same_entry(list[at], entry) {
        list
    } else {
        list.insert(at, entry)
    }
}

/// Every other reference that `entries` name: in order, each once.
pub open spec fn others(entries: Seq<RefEntry>, reference: Seq<char>) -> Seq<RefEntry>
    decreases entries.len(),
{
    if entries.len() == 0 {
        Seq::empty()
    } else {
        let front = others(entries.drop_last(), reference);
        if entries.last().reference == reference {
            front
        } else {
            entry_added(front, entries.last())
        }
    }
}

fn entry_precedes(a: &InstanceRef, b: &InstanceRef) -> (res: bool)
    ensures
        res == entry_less(a@, b@),
{
    precedes(a.project.as_str(), b.project.as_str()) || (same_text(
        a.project.as_str(),
        b.project.as_str(),
    ) && precedes(a.reference.as_str(), b.reference.as_str()))
}

fn add_entry(list: &mut Vec<InstanceRef>, entry: InstanceRef)
    ensures
        entry_views(final(list)@) == entry_added(entry_views(old(list)@), entry@),
{
    let ghost before = entry_views(list@);
    let mut at: usize = 0;
    while at < list.len() && entry_precedes(&list[at], &entry)
        invariant
            at <= list@.len(),
            before == entry_views(list@),
            place_of(before, entry@, 0) == place_of(before, entry@, at as int),
        decreases list@.len() - at,
    {
        assert(before[at as int] == list@[at as int]@);
        at = at + 1;
    }
    if at < list.len() {
        assert(before[at as int] == list@[at as int]@);
        if same_text(list[at].project.as_str(), entry.project.as_str()) && same_text(
            list[at].reference.as_str(),
            entry.reference.as_str(),
        ) {
            return;
        }
    }
    list.insert(at, entry);
    assert(entry_views(list@) =~= before.insert(at as int, entry@));
}

/// Every other reference that `entries` name: in order, each once.
pub fn other_references(entries: Vec<InstanceRef>, reference: &str) -> (res: Vec<InstanceRef>)
    ensures
        entry_views(res@) == others(entry_views(entries@), reference@),
{
    let ghost all = entry_views(entries@);
    let mut out: Vec<InstanceRef> = Vec::new();
    let mut i: usize = 0;
    proof {
        assert(all.take(0) =~= Seq::<RefEntry>::empty());
        assert(entry_views(out@) =~= Seq::<RefEntry>::empty());
    }
    while i < entries.len()
        invariant
            i <= entries@.len(),
            all == entry_views(entries@),
            entry_views(out@) == others(all.take(i as int), reference@),
        decreases entries@.len() - i,
    {
        proof {
            assert(all.take(i + 1).drop_last() =~= all.take(i as int));
            assert(all.take(i + 1).last() == entries@[i as int]@);
        }
        if !same_text(entries[i].reference.as_str(), reference) {
            let entry = InstanceRef {
                project: entries[i].project.clone(),
                path: entries[i].path.clone(),
                reference: entries[i].reference.clone(),
            };
            assert(entry@ == entries@[i as int]@);
            add_entry(&mut out, entry);
        }
        i = i + 1;
    }
    assert(all.take(all.len() as int) =~= all);
    out
}

// ─── Units ───────────────────────────────────────────────────────────────────

/// Whether a `(unit N)` opens at `k`, where `l` is the state: text in a string is
/// none.
pub open spec fn opens_unit(s: Seq<char>, l: Lex, k: int, hi: int) -> bool {
    !l.quoted && k + 6 <= hi && occurs_at(s, k, "(unit "@)
}

/// What stands in `from..hi`, with `unit` for every `(unit N)`, where `l` is the
/// state at `from`.
pub open spec fn units_set(s: Seq<char>, l: Lex, from: int, hi: int, unit: Seq<char>) -> Seq<char>
    decreases hi - from,
{
    if from >= hi {
        Seq::empty()
    } else if opens_unit(s, l, from, hi) {
        match first_char(s, from + 6, hi, ')') {
            Some(close) if from < close <= hi => s.subrange(from, from + 6) + unit + units_set(
                s,
                step(l, '('),
                close,
                hi,
                unit,
            ),
            _ => s.subrange(from, hi),
        }
    } else {
        seq![s[from]] + units_set(s, step(l, s[from]), from + 1, hi, unit)
    }
}

fn append_units(out: &mut Vec<char>, s: &[char], from: usize, hi: usize, unit: &str)
    requires
        from <= hi <= s@.len(),
    ensures
        final(out)@ == old(out)@ + units_set(s@, outside(), from as int, hi as int, unit@),
{
    let pattern = to_chars("(unit ");
    proof {
        reveal_strlit("(unit ");
    }
    let ghost whole = units_set(s@, outside(), from as int, hi as int, unit@);
    let mut depth: usize = 0;
    let mut quoted = false;
    let mut escaped = false;
    let mut i: usize = from;
    while i < hi
        invariant
            from <= i <= hi <= s@.len(),
            depth <= i,
            pattern@ == "(unit "@,
            pattern@.len() == 6,
            whole == units_set(s@, outside(), from as int, hi as int, unit@),
            old(out)@ + whole == out@ + units_set(
                s@,
                Lex { depth: depth as nat, quoted, escaped },
                i as int,
                hi as int,
                unit@,
            ),
        decreases hi - i,
    {
        let ghost before = out@;
        let ghost l = Lex { depth: depth as nat, quoted, escaped };
        if !quoted && hi - i >= 6 && matches_at(s, i, pattern.as_slice()) {
            match find_char(s, i + 6, hi, ')') {
                None => {
                    append_range(out, s, i, hi);
                    return;
                },
                Some(close) => {
                    append_range(out, s, i, i + 6);
                    append_str(out, unit);
                    proof {
                        let rest = units_set(s@, step(l, '('), close as int, hi as int, unit@);
                        assert(before + (s@.subrange(i as int, i + 6) + unit@ + rest) =~= out@
                            + rest);
                    }
                    depth = depth + 1;
                    i = close;
                },
            }
        } else {
            let c = s[i];
            out.push(c);
            let (d, q, e) = advance(c, depth, quoted, escaped);
            depth = d;
            quoted = q;
            escaped = e;
            i = i + 1;
            proof {
                let rest = units_set(s@, step(l, c), i as int, hi as int, unit@);
                assert(before + (seq![c] + rest) =~= out@ + rest);
            }
        }
    }
    assert(out@ + Seq::<char>::empty() =~= out@);
}

// ─── The swap ────────────────────────────────────────────────────────────────

/// What a swap gives.
pub ghost struct Swap {
    pub content: Seq<char>,
    pub old_lib_id: Seq<char>,
    pub also_affects: Seq<RefEntry>,
}

/// `s`, with `unit` for every `(unit N)` of the symbol that answers to
/// `reference`.
pub open spec fn with_unit(s: Seq<char>, reference: Seq<char>, unit: u32) -> Seq<char> {
    match answering_block(s, reference) {
        None => s,
        Some(n) => s.take(n.start) + units_set(
            s,
            outside(),
            n.start,
            n.end + 1,
            decimal(unit as nat),
        )
            + s.skip(n.end + 1),
    }
}

/// The schematic `s` with another library symbol for the symbol that answers to
/// `reference`, or why not.
pub open spec fn swapped(
    s: Seq<char>,
    reference: Seq<char>,
    new_lib_id: Seq<char>,
    new_unit: Option<u32>,
    unit_count: Option<u32>,
) -> Result<Swap, Seq<char>> {
    match answering_block(s, reference) {
        None => Err("Component '"@ + reference + "' not found"@),
        Some(n) => match first_match(s, n.start, n.end + 1, "(lib_id \""@) {
            None => Err("Could not find lib_id in symbol block"@),
            Some(m) => match first_char(s, m + 9, n.end + 1, '"') {
                None => Err("Malformed lib_id"@),
                Some(end) => {
                    let content = s.take(m + 9) + new_lib_id + s.skip(end);
                    let done = Swap {
                        content,
                        old_lib_id: s.subrange(m + 9, end),
                        also_affects: others(block_entries(node_text(s, n)), reference),
                    };
                    match new_unit {
                        None => Ok(done),
                        Some(unit) => match unit_refusal(unit, new_lib_id, unit_count) {
                            Some(why) => Err(why),
                            None => Ok(
                                Swap { content: with_unit(content, reference, unit), ..done },
                            ),
                        },
                    }
                },
            },
        },
    }
}

/// A component whose library symbol was swapped.
#[derive(Debug)]
pub struct Replaced {
    /// The schematic with the new library symbol.
    pub content: String,
    /// What it was before.
    pub old_lib_id: String,
    /// Every other reference that the symbol answers to. They are one placement
    /// in a shared sheet, so the swap changes all of them at once.
    pub also_affects: Vec<InstanceRef>,
}

impl View for Replaced {
    type V = Swap;

    open spec fn view(&self) -> Swap {
        Swap {
            content: self.content@,
            old_lib_id: self.old_lib_id@,
            also_affects: entry_views(self.also_affects@),
        }
    }
}

fn set_units(content: &[char], reference: &str, unit: u32) -> (res: Vec<char>)
    ensures
        res@ == with_unit(content@, reference@, unit),
{
    let len = content.len();
    let mut out: Vec<char> = Vec::new();
    match find_symbol_block_by_any_reference(content, reference) {
        None => {
            append_range(&mut out, content, 0, len);
            assert(out@ =~= content@);
        },
        Some(span) => {
            assert(span.end < len);
            append_range(&mut out, content, 0, span.start);
            assert(out@ =~= content@.take(span.start as int));
            let number = decimal_text(unit as u64);
            append_units(&mut out, content, span.start, span.end + 1, number.as_str());
            append_range(&mut out, content, span.end + 1, len);
            assert(content@.subrange(span.end + 1, len as int) =~= content@.skip(span.end + 1));
        },
    }
    out
}

/// Replace a component's `lib_id` with a new library symbol, and its unit where
/// one is given.
///
/// The reference is resolved through the symbol's `(instances)` block as well as
/// its cached `Reference` property. The unit is validated against the new
/// symbol's unit count, and reaches every `(unit N)` of the placement: its own and
/// the one in each of its instance entries.
pub fn replace_component(
    content: &str,
    reference: &str,
    new_lib_id: &str,
    new_unit: Option<u32>,
    unit_count: Option<u32>,
) -> (res: Result<Replaced, String>)
    ensures
        match (res, swapped(content@, reference@, new_lib_id@, new_unit, unit_count)) {
            (Ok(done), Ok(swap)) => done@ == swap,
            (Err(why), Err(w)) => why@ == w,
            _ => false,
        },
{
    let chars = to_chars(content);
    let s = chars.as_slice();
    let len = s.len();
    let span = match find_symbol_block_by_any_reference(s, reference) {
        Some(span) => span,
        None => {
            return Err(join3("Component '", reference, "' not found"));
        },
    };
    assert(span.end < len);
    let block = slice_text(s, span.start, span.end + 1);
    let also_affects = other_references(symbol_instance_refs(block.as_str()), reference);
    let pattern = to_chars("(lib_id \"");
    proof {
        reveal_strlit("(lib_id \"");
    }
    let at = match find(s, span.start, span.end + 1, pattern.as_slice()) {
        Some(m) => m + 9,
        None => {
            return Err("Could not find lib_id in symbol block".to_string());
        },
    };
    let end = match find_char(s, at, span.end + 1, '"') {
        Some(end) => end,
        None => {
            return Err("Malformed lib_id".to_string());
        },
    };
    let old_lib_id = slice_text(s, at, end);
    let mut out: Vec<char> = Vec::new();
    append_range(&mut out, s, 0, at);
    append_str(&mut out, new_lib_id);
    append_range(&mut out, s, end, len);
    assert(out@ =~= s@.take(at as int) + new_lib_id@ + s@.skip(end as int));
    match new_unit {
        None => Ok(Replaced { content: to_text(out.as_slice()), old_lib_id, also_affects }),
        Some(unit) => match check_unit(unit, new_lib_id, unit_count) {
            Some(why) => Err(why),
            None => {
                let done = set_units(out.as_slice(), reference, unit);
                Ok(Replaced { content: to_text(done.as_slice()), old_lib_id, also_affects })
            },
        },
    }
}

// ─── Laws ────────────────────────────────────────────────────────────────────

proof fn lemma_entry_less(a: RefEntry, b: RefEntry, c: RefEntry)
    ensures
        entry_less(a, b) && entry_less(b, c) ==> entry_less(a, c),
        entry_less(a, b) ==> !same_entry(a, b) && !entry_less(b, a),
        entry_less(a, b) || entry_less(b, a) || same_entry(a, b),
        entry_less(a, b) && same_entry(b, c) ==> entry_less(a, c),
        same_entry(a, b) && entry_less(b, c) ==> entry_less(a, c),
{
    lemma_less_total(a.project, b.project);
    lemma_less_total(a.reference, b.reference);
    lemma_less_irreflexive(a.project);
    lemma_less_irreflexive(a.reference);
    if text_less(a.project, b.project) && text_less(b.project, a.project) {
        lemma_less_transitive(a.project, b.project, a.project);
    }
    if text_less(a.reference, b.reference) && text_less(b.reference, a.reference) {
        lemma_less_transitive(a.reference, b.reference, a.reference);
    }
    if text_less(a.project, b.project) && text_less(b.project, c.project) {
        lemma_less_transitive(a.project, b.project, c.project);
    }
    if text_less(a.reference, b.reference) && text_less(b.reference, c.reference) {
        lemma_less_transitive(a.reference, b.reference, c.reference);
    }
}

/// Whether entries come in order, none named twice.
pub open spec fn entries_ascend(list: Seq<RefEntry>) -> bool {
    forall|i: int, j: int| 0 <= i < j < list.len() ==> entry_less(list[i], list[j])
}

proof fn lemma_place(list: Seq<RefEntry>, entry: RefEntry, from: int)
    requires
        0 <= from <= list.len(),
        forall|i: int| 0 <= i < from ==> entry_less(#[trigger] list[i], entry),
    ensures
        from <= place_of(list, entry, from) <= list.len(),
        forall|i: int|
            0 <= i < place_of(list, entry, from) ==> entry_less(#[trigger] list[i], entry),
        place_of(list, entry, from) < list.len() ==> !entry_less(
            list[place_of(list, entry, from)],
            entry,
        ),
    decreases list.len() - from,
{
    if from < list.len() && entry_less(list[from], entry) {
        lemma_place(list, entry, from + 1);
    }
}

proof fn lemma_entry_added(list: Seq<RefEntry>, entry: RefEntry)
    requires
        entries_ascend(list),
    ensures
        entries_ascend(entry_added(list, entry)),
        forall|e: RefEntry| #[trigger]
            entry_added(list, entry).contains(e) ==> list.contains(e) || e == entry,
        exists|e: RefEntry| #[trigger] entry_added(list, entry).contains(e) && same_entry(e, entry),
        forall|e: RefEntry| list.contains(e) ==> #[trigger] entry_added(list, entry).contains(e),
{
    let at = place_of(list, entry, 0);
    lemma_place(list, entry, 0);
    let after = entry_added(list, entry);
    if at < list.len() && same_entry(list[at], entry) {
        assert(after.contains(list[at]));
    } else {
        assert forall|i: int, j: int| 0 <= i < j < after.len() implies entry_less(
            after[i],
            after[j],
        ) by {
            if i == at {
                assert(after[j] == list[j - 1]);
                lemma_entry_less(entry, list[at], list[j - 1]);
                lemma_entry_less(list[at], entry, entry);
            } else if j == at {
                assert(after[i] == list[i]);
            } else {
                let p = if i < at {
                    i
                } else {
                    i - 1
                };
                let q = if j < at {
                    j
                } else {
                    j - 1
                };
                assert(after[i] == list[p]);
                assert(after[j] == list[q]);
            }
        }
        assert forall|e: RefEntry| #[trigger] after.contains(e) implies list.contains(e) || e
            == entry by {
            let k = choose|k: int| 0 <= k < after.len() && after[k] == e;
            if k < at {
                assert(list[k] == e);
            } else if k > at {
                assert(list[k - 1] == e);
            }
        }
        assert forall|e: RefEntry| list.contains(e) implies #[trigger] after.contains(e) by {
            let k = choose|k: int| 0 <= k < list.len() && list[k] == e;
            if k < at {
                assert(after[k] == e);
            } else {
                assert(after[k + 1] == e);
            }
        }
        assert(after[at] == entry);
        assert(after.contains(entry));
    }
}

/// The other references of a swapped symbol come in order, each once, and are
/// exactly those that its instances name besides the one that was asked for.
pub proof fn law_also_affects_lists_every_other_reference(
    entries: Seq<RefEntry>,
    reference: Seq<char>,
)
    ensures
        entries_ascend(others(entries, reference)),
        forall|e: RefEntry| #[trigger]
            others(entries, reference).contains(e) ==> entries.contains(e) && e.reference
                != reference,
        forall|k: int|
            0 <= k < entries.len() && entries[k].reference != reference ==> exists|e: RefEntry|
                #[trigger]
                others(entries, reference).contains(e) && same_entry(e, #[trigger] entries[k]),
    decreases entries.len(),
{
    let all = others(entries, reference);
    if entries.len() > 0 {
        let front = entries.drop_last();
        let last = entries.last();
        let kept = others(front, reference);
        law_also_affects_lists_every_other_reference(front, reference);
        lemma_entry_added(kept, last);
        assert forall|e: RefEntry| #[trigger] all.contains(e) implies entries.contains(e)
            && e.reference != reference by {
            if kept.contains(e) {
                let k = choose|k: int| 0 <= k < front.len() && front[k] == e;
                assert(entries[k] == e);
            } else {
                assert(entries[entries.len() - 1] == e);
            }
        }
        assert forall|k: int|
            0 <= k < entries.len() && entries[k].reference != reference implies exists|e: RefEntry|
            #[trigger]
            all.contains(e) && same_entry(e, #[trigger] entries[k]) by {
            if k < front.len() {
                assert(front[k] == entries[k]);
                let e = choose|e: RefEntry| #[trigger]
                    kept.contains(e) && same_entry(e, front[k]);
                assert(all.contains(e));
            }
        }
    }
}

/// Without a new unit, a swap changes the library symbol and nothing else: all
/// text before and after it, the `(instances …)` block with it, is preserved
/// untouched. It does not reach beyond the symbol's block.
pub proof fn law_swap_keeps_the_rest(
    s: Seq<char>,
    reference: Seq<char>,
    new_lib_id: Seq<char>,
    unit_count: Option<u32>,
) -> (at: int)
    requires
        swapped(s, reference, new_lib_id, None, unit_count) is Ok,
    ensures
        ({
            let swap = swapped(s, reference, new_lib_id, None, unit_count)->Ok_0;
            let end = at + swap.old_lib_id.len();
            &&& answering_block(s, reference) matches Some(n) && n.start < at <= end <= n.end
            &&& s == s.take(at) + swap.old_lib_id + s.skip(end)
            &&& swap.content == s.take(at) + new_lib_id + s.skip(end)
        }),
{
    reveal_strlit("(lib_id \"");
    lemma_answering_block(s, reference);
    let n = answering_block(s, reference)->0;
    let m = first_match(s, n.start, n.end + 1, "(lib_id \""@)->0;
    lemma_first_match(s, n.start, n.end + 1, "(lib_id \""@);
    lemma_first_char(s, m + 9, n.end + 1, '"');
    let end = first_char(s, m + 9, n.end + 1, '"')->0;
    assert(s =~= s.take(m + 9) + s.subrange(m + 9, end) + s.skip(end));
    m + 9
}

/// Up to the first `(`, setting units leaves text as it is.
proof fn lemma_units_plain(
    s: Seq<char>,
    l: Lex,
    from: int,
    hi: int,
    unit: Seq<char>,
    n: int,
)
    requires
        0 <= from <= hi <= s.len(),
        0 <= n <= units_set(s, l, from, hi, unit).len(),
        forall|k: int| 0 <= k < n ==> #[trigger] units_set(s, l, from, hi, unit)[k] != '(',
    ensures
        from + n <= hi,
        units_set(s, l, from, hi, unit).take(n) == s.subrange(from, from + n),
    decreases n,
{
    let t = units_set(s, l, from, hi, unit);
    if n > 0 {
        assert(from < hi);
        assert(t[0] != '(');
        if opens_unit(s, l, from, hi) {
            reveal_strlit("(unit ");
            assert(s.subrange(from, from + 6)[0] == s[from]);
            assert(t[0] == s[from]);
            assert(false);
        }
        let rest = units_set(s, step(l, s[from]), from + 1, hi, unit);
        assert forall|k: int| 0 <= k < n - 1 implies #[trigger] rest[k] != '(' by {
            assert(t[k + 1] == rest[k]);
        }
        lemma_units_plain(s, step(l, s[from]), from + 1, hi, unit, n - 1);
        assert forall|k: int| 0 <= k < n implies #[trigger] t.take(n)[k] == s[from + k] by {
            if k > 0 {
                assert(t[k] == rest[k - 1]);
                assert(rest.take(n - 1)[k - 1] == s.subrange(from + 1, from + n)[k - 1]);
            }
        }
        assert(t.take(n) =~= s.subrange(from, from + n));
    } else {
        assert(t.take(0) =~= s.subrange(from, from));
    }
}

/// Behind text that the scanner passes over from `l` to `m`, the state is the one
/// of what follows.
proof fn lemma_run_behind(l: Lex, u: Seq<char>, m: Lex, v: Seq<char>, k: int)
    requires
        run(l, u, 0, u.len() as int) == m,
        0 <= k <= v.len(),
    ensures
        run(l, u + v, 0, u.len() + k) == run(m, v, 0, k),
{
    let t = u + v;
    let n = u.len() as int;
    assert(u.subrange(0, n) =~= t.subrange(0, n));
    lemma_run_same(l, u, 0, n, t, 0);
    assert(v.subrange(0, k) =~= t.subrange(n, n + k));
    lemma_run_same(m, v, 0, k, t, n);
    lemma_run_split(l, t, 0, n, n + k);
}

/// Once the unit is set, no other unit remains: every `(unit ` of the block that
/// does not stand in a string is followed by the new unit.
pub proof fn law_every_unit_is_set(s: Seq<char>, l: Lex, from: int, hi: int, unit: Seq<char>)
    requires
        0 <= from <= hi <= s.len(),
        from < hi ==> s[hi - 1] == ')',
        l.escaped ==> l.quoted,
        is_flat(unit),
    ensures
        forall|k: int|
            #![trigger occurs_at(units_set(s, l, from, hi, unit), k, "(unit "@)]
            occurs_at(units_set(s, l, from, hi, unit), k, "(unit "@) && !run(
                l,
                units_set(s, l, from, hi, unit),
                0,
                k,
            ).quoted ==> occurs_at(
                units_set(s, l, from, hi, unit),
                k,
                "(unit "@ + unit + ")"@,
            ),
    decreases hi - from,
{
    let pat = "(unit "@;
    let goal = pat + unit + ")"@;
    let t = units_set(s, l, from, hi, unit);
    reveal_strlit("(unit ");
    reveal_strlit(")");
    if from < hi && opens_unit(s, l, from, hi) {
        lemma_first_char(s, from + 6, hi, ')');
        assert(s.subrange(from, from + 6)[5] == s[from + 5]);
        let close = first_char(s, from + 6, hi, ')')->0;
        let opened = step(l, '(');
        let rest = units_set(s, opened, close, hi, unit);
        let head = pat + unit;
        law_every_unit_is_set(s, opened, close, hi, unit);
        assert(t == head + rest);
        assert(rest[0] == ')') by {
            assert(!opens_unit(s, opened, close, hi)) by {
                if opens_unit(s, opened, close, hi) {
                    assert(s.subrange(close, close + 6)[0] == s[close]);
                }
            }
        }
        assert(run(l, head, 0, head.len() as int) == opened) by {
            let tail = head.skip(1);
            lemma_run_front(l, head, 0, head.len() as int);
            assert(is_flat(tail)) by {
                assert forall|k: int| 0 <= k < tail.len() implies #[trigger] tail[k] != '"'
                    && tail[k] != '(' && tail[k] != ')' by {
                    if k >= 5 {
                        assert(tail[k] == unit[k - 5]);
                    }
                }
            }
            lemma_pass_flat(opened, tail);
            reveal(passes);
            assert(tail.subrange(0, tail.len() as int) =~= head.subrange(1, head.len() as int));
            lemma_run_same(opened, tail, 0, tail.len() as int, head, 1);
        }
        let n = head.len() as int;
        assert forall|k: int| #[trigger] occurs_at(t, k, pat) && !run(l, t, 0, k).quoted implies
            occurs_at(t, k, goal) by {
            let here = t.subrange(k, k + 6);
            assert(here == pat);
            assert(here[0] == t[k]);
            if k == 0 {
                assert(t.subrange(0, goal.len() as int) =~= goal);
            } else if k < n {
                if k >= 6 {
                    assert(t[k] == unit[k - 6]);
                }
                assert(false);
            } else {
                lemma_run_behind(l, head, opened, rest, k - n);
                assert(rest.subrange(k - n, k - n + 6) =~= here);
                assert(occurs_at(rest, k - n, pat));
                assert(rest.subrange(k - n, k - n + goal.len()) =~= t.subrange(
                    k,
                    k + goal.len(),
                ));
            }
        }
    } else if from < hi {
        let c = s[from];
        let next = step(l, c);
        let rest = units_set(s, next, from + 1, hi, unit);
        law_every_unit_is_set(s, next, from + 1, hi, unit);
        assert(t == seq![c] + rest);
        assert forall|k: int| #[trigger] occurs_at(t, k, pat) && !run(l, t, 0, k).quoted implies
            occurs_at(t, k, goal) by {
            let here = t.subrange(k, k + 6);
            assert(here == pat);
            if k == 0 {
                assert forall|i: int| 0 <= i < 5 implies #[trigger] rest[i] != '(' by {
                    assert(here[i + 1] == t[i + 1]);
                }
                lemma_units_plain(s, next, from + 1, hi, unit, 5);
                let there = s.subrange(from, from + 6);
                assert forall|i: int| 0 <= i < 6 implies here[i] == #[trigger] there[i] by {
                    assert(here[i] == t[i]);
                    if i > 0 {
                        assert(t[i] == rest[i - 1]);
                        assert(rest.take(5)[i - 1] == s.subrange(from + 1, from + 6)[i - 1]);
                    }
                }
                assert(there =~= pat);
                assert(occurs_at(s, from, pat));
                assert(false);
            } else {
                assert(run(l, seq![c], 0, 1) == next) by {
                    assert(run(l, seq![c], 0, 0) == l);
                }
                lemma_run_behind(l, seq![c], next, rest, k - 1);
                assert(rest.subrange(k - 1, k + 5) =~= here);
                assert(occurs_at(rest, k - 1, pat));
                assert(rest.subrange(k - 1, k - 1 + goal.len()) =~= t.subrange(
                    k,
                    k + goal.len(),
                ));
            }
        }
    }
}

} // verus!
