//! Editing the properties of a symbol instance.

use crate::scan::{child_tagged, find_child, node_text, span_nodes, Node};
use crate::structure::{is_node, laid_out, patch};
use crate::symbols::{
    entry_of, find_all_symbol_instance_blocks, find_symbol_instance_block, instance_block,
    instance_blocks, instance_entry, lemma_instance_blocks, marker_of, property_marker,
};
use crate::text::{
    append_range, append_replaced, append_str, contains_text, count_from, decimal, decimal_text,
    find, find_char, first_char, first_match, has_text, indent, indent_at, is_white_space, join3,
    join5, join_texts, joined_texts, replaced_from, same_text, skip_white, slice_text, to_chars,
    to_text, views, white_end, whitespace,
};
use vstd::prelude::*;
use vstd::slice::slice_subrange;

verus! {

/// Whether what came out is what should have come out: the text, or the reason
/// why there is none.
pub open spec fn same_outcome(
    res: Result<String, String>,
    expected: Result<Seq<char>, Seq<char>>,
) -> bool {
    match (res, expected) {
        (Ok(text), Ok(t)) => text@ == t,
        (Err(why), Err(w)) => why@ == w,
        _ => false,
    }
}

/// What is said of a reference that no symbol shows.
pub open spec fn not_found(reference: Seq<char>) -> Seq<char> {
    "symbol '"@ + reference + "' not found in this schematic"@
}

// ─── Updating a property ─────────────────────────────────────────────────────

/// `s`, with `new_val` for the value of the property `field` of the first
/// placement of `reference`.
pub open spec fn updated_field(
    s: Seq<char>,
    reference: Seq<char>,
    field: Seq<char>,
    new_val: Seq<char>,
) -> Result<Seq<char>, Seq<char>> {
    match instance_block(s, reference) {
        None => Err(not_found(reference)),
        Some(n) => match first_match(s, n.start, n.end + 1, property_marker(field)) {
            None => Err("'"@ + reference + "' has no '"@ + field + "' property"@),
            Some(m) => {
                let at = m + property_marker(field).len();
                match first_char(s, at, s.len() as int, '"') {
                    None => Err("'"@ + field + "' property on '"@ + reference + "' is malformed"@),
                    Some(end) => Ok(s.take(at) + new_val + s.skip(end)),
                }
            },
        },
    }
}

/// Update a property's value in place within the symbol block. Says why where it
/// cannot.
pub fn update_field(content: &str, reference: &str, field: &str, new_val: &str) -> (res: Result<
    String,
    String,
>)
    ensures
        same_outcome(res, updated_field(content@, reference@, field@, new_val@)),
{
    let chars = to_chars(content);
    let s = chars.as_slice();
    let len = s.len();
    match find_symbol_instance_block(s, reference) {
        None => Err(join3("symbol '", reference, "' not found in this schematic")),
        Some(span) => {
            let marker = marker_of(field);
            assert(span.end < len);
            match find(s, span.start, span.end + 1, marker.as_slice()) {
                None => Err(join5("'", reference, "' has no '", field, "' property")),
                Some(m) => {
                    let at = m + marker.len();
                    match find_char(s, at, len, '"') {
                        None => Err(
                            join5("'", field, "' property on '", reference, "' is malformed"),
                        ),
                        Some(end) => {
                            let mut out: Vec<char> = Vec::new();
                            append_range(&mut out, s, 0, at);
                            append_str(&mut out, new_val);
                            append_range(&mut out, s, end, len);
                            assert(out@ =~= s@.take(at as int) + new_val@ + s@.skip(end as int));
                            Ok(to_text(out.as_slice()))
                        },
                    }
                },
            }
        },
    }
}

// ─── Renaming ────────────────────────────────────────────────────────────────

/// The block `b`, with `new_val` for the value of its property `field`.
pub open spec fn with_value(b: Seq<char>, field: Seq<char>, new_val: Seq<char>) -> Seq<char> {
    match first_match(b, 0, b.len() as int, property_marker(field)) {
        None => b,
        Some(m) => {
            let at = m + property_marker(field).len();
            match first_char(b, at, b.len() as int, '"') {
                None => b,
                Some(end) => b.take(at) + new_val + b.skip(end),
            }
        },
    }
}

/// Each placement, with the `Reference` property `new_ref`.
pub open spec fn reference_set(s: Seq<char>, new_ref: Seq<char>) -> spec_fn(Node) -> Seq<char> {
    |n: Node| with_value(node_text(s, n), "Reference"@, new_ref)
}

/// `s`, with `new_ref` for the `Reference` property of every placement of
/// `old_ref`.
pub open spec fn renamed(s: Seq<char>, old_ref: Seq<char>, new_ref: Seq<char>) -> Result<
    Seq<char>,
    Seq<char>,
> {
    let blocks = instance_blocks(s, old_ref);
    if blocks.len() == 0 {
        Err(not_found(old_ref))
    } else {
        Ok(patch(s, 0, s.len() as int, blocks, reference_set(s, new_ref)))
    }
}

fn append_with_value(out: &mut Vec<char>, b: &[char], field: &str, new_val: &str)
    ensures
        final(out)@ == old(out)@ + with_value(b@, field@, new_val@),
{
    let len = b.len();
    let marker = marker_of(field);
    if let Some(m) = find(b, 0, len, marker.as_slice()) {
        let at = m + marker.len();
        if let Some(end) = find_char(b, at, len, '"') {
            append_range(out, b, 0, at);
            append_str(out, new_val);
            append_range(out, b, end, len);
            assert(out@ =~= old(out)@ + (b@.take(at as int) + new_val@ + b@.skip(end as int)));
            return;
        }
    }
    append_range(out, b, 0, len);
    assert(b@.subrange(0, len as int) =~= b@);
}

/// Rename every placement of `old_ref`: a multi-unit part is placed once per
/// unit, and a rename has to reach all of them or the units disagree about their
/// own designator.
pub fn rename_placements(content: &str, old_ref: &str, new_ref: &str) -> (res: Result<
    String,
    String,
>)
    ensures
        same_outcome(res, renamed(content@, old_ref@, new_ref@)),
{
    let chars = to_chars(content);
    let text = chars.as_slice();
    let len = text.len();
    let blocks = find_all_symbol_instance_blocks(text, old_ref);
    if blocks.len() == 0 {
        return Err(join3("symbol '", old_ref, "' not found in this schematic"));
    }
    let ghost s = text@;
    let ghost nodes = instance_blocks(s, old_ref@);
    let ghost f = reference_set(s, new_ref@);
    let ghost goal = patch(s, 0, len as int, nodes, f);
    let mut out: Vec<char> = Vec::new();
    let mut pos: usize = 0;
    let mut i: usize = 0;
    proof {
        lemma_instance_blocks(s, old_ref@);
        assert(nodes.skip(0) =~= nodes);
        assert(out@ + goal =~= goal);
    }
    while i < blocks.len()
        invariant
            i <= blocks@.len(),
            s == text@,
            len == s.len(),
            nodes == span_nodes(blocks@),
            forall|k: int| 0 <= k < nodes.len() ==> is_node(s, #[trigger] nodes[k]),
            f == reference_set(s, new_ref@),
            goal == patch(s, 0, len as int, nodes, f),
            pos <= len,
            laid_out(nodes.skip(i as int), pos as int, len as int),
            out@ + patch(s, pos as int, len as int, nodes.skip(i as int), f) == goal,
        decreases blocks@.len() - i,
    {
        let span = blocks[i];
        let ghost written = out@;
        let ghost start = pos as int;
        proof {
            assert(nodes.skip(i as int)[0] == span@);
            assert(nodes[i as int] == span@);
            assert(nodes.skip(i as int).skip(1) =~= nodes.skip(i + 1));
        }
        append_range(&mut out, text, pos, span.start);
        let block = slice_subrange(text, span.start, span.end + 1);
        append_with_value(&mut out, block, "Reference", new_ref);
        pos = span.end + 1;
        i = i + 1;
        proof {
            let rest = patch(s, pos as int, len as int, nodes.skip(i as int), f);
            assert(out@ + rest =~= written + (s.subrange(start, span.start as int) + f(span@)
                + rest));
        }
    }
    append_range(&mut out, text, pos, len);
    assert(nodes.skip(i as int) =~= Seq::<Node>::empty());
    Ok(to_text(out.as_slice()))
}

/// Each placement, with `new_ref` for `old_ref` in its instances path.
pub open spec fn entries_set(s: Seq<char>, old_ref: Seq<char>, new_ref: Seq<char>) -> spec_fn(
    Node,
) -> Seq<char> {
    |n: Node|
        replaced_from(s, n.start, n.end + 1, instance_entry(old_ref), instance_entry(new_ref))
}

/// How many entries for `reference` the blocks `ns` hold.
pub open spec fn entry_count(s: Seq<char>, ns: Seq<Node>, reference: Seq<char>) -> nat
    decreases ns.len(),
{
    if ns.len() == 0 {
        0
    } else {
        entry_count(s, ns.drop_last(), reference) + count_from(
            s,
            ns.last().start,
            ns.last().end + 1,
            instance_entry(reference),
        )
    }
}

/// `s`, with `new_ref` for `old_ref` in the instances path of every placement of
/// `new_ref`, and how many entries that were.
pub open spec fn rewritten(s: Seq<char>, old_ref: Seq<char>, new_ref: Seq<char>) -> Result<
    (Seq<char>, nat),
    Seq<char>,
> {
    let blocks = instance_blocks(s, new_ref);
    let count = entry_count(s, blocks, old_ref);
    if blocks.len() == 0 {
        Err("symbol '"@ + old_ref + "' not found after the rename"@)
    } else if count == 0 {
        Err(
            "'"@ + new_ref + "' has no (reference \""@ + old_ref
                + "\") in its instances path — the property was renamed but the netlist still \
                    reads the old designator"@,
        )
    } else {
        Ok((patch(s, 0, s.len() as int, blocks, entries_set(s, old_ref, new_ref)), count))
    }
}

/// Rewrite the `(reference "…")` inside every unit's `(instances …)` block.
///
/// Returns the updated content and how many were rewritten. A multi-unit part
/// is placed once per unit and each placement carries its own instances block,
/// so a rename has to reach all of them or the units disagree about their own
/// designator.
pub fn rewrite_instance_references(content: &str, old_ref: &str, new_ref: &str) -> (res: Result<
    (String, usize),
    String,
>)
    ensures
        match (res, rewritten(content@, old_ref@, new_ref@)) {
            (Ok((text, count)), Ok((t, c))) => text@ == t && count == c,
            (Err(why), Err(w)) => why@ == w,
            _ => false,
        },
{
    let chars = to_chars(content);
    let text = chars.as_slice();
    let len = text.len();
    let blocks = find_all_symbol_instance_blocks(text, new_ref);
    if blocks.len() == 0 {
        return Err(join3("symbol '", old_ref, "' not found after the rename"));
    }
    let search = entry_of(old_ref);
    let replacement = entry_of(new_ref);
    let ghost s = text@;
    let ghost nodes = instance_blocks(s, new_ref@);
    let ghost f = entries_set(s, old_ref@, new_ref@);
    let ghost goal = patch(s, 0, len as int, nodes, f);
    let mut out: Vec<char> = Vec::new();
    let mut count: usize = 0;
    let mut pos: usize = 0;
    let mut i: usize = 0;
    proof {
        lemma_instance_blocks(s, new_ref@);
        assert(nodes.skip(0) =~= nodes);
        assert(nodes.take(0) =~= Seq::<Node>::empty());
        assert(out@ + goal =~= goal);
    }
    while i < blocks.len()
        invariant
            i <= blocks@.len(),
            s == text@,
            len == s.len(),
            nodes == span_nodes(blocks@),
            forall|k: int| 0 <= k < nodes.len() ==> is_node(s, #[trigger] nodes[k]),
            search@ == instance_entry(old_ref@),
            search@.len() > 0,
            replacement@ == instance_entry(new_ref@),
            f == entries_set(s, old_ref@, new_ref@),
            goal == patch(s, 0, len as int, nodes, f),
            pos <= len,
            count <= pos,
            laid_out(nodes.skip(i as int), pos as int, len as int),
            out@ + patch(s, pos as int, len as int, nodes.skip(i as int), f) == goal,
            count == entry_count(s, nodes.take(i as int), old_ref@),
        decreases blocks@.len() - i,
    {
        let span = blocks[i];
        let ghost written = out@;
        let ghost start = pos as int;
        proof {
            assert(nodes.skip(i as int)[0] == span@);
            assert(nodes[i as int] == span@);
            assert(nodes.skip(i as int).skip(1) =~= nodes.skip(i + 1));
            assert(nodes.take(i + 1).drop_last() =~= nodes.take(i as int));
            assert(nodes.take(i + 1).last() == span@);
        }
        append_range(&mut out, text, pos, span.start);
        let found = append_replaced(
            &mut out,
            text,
            span.start,
            span.end + 1,
            search.as_slice(),
            replacement.as_slice(),
        );
        count = count + found;
        pos = span.end + 1;
        i = i + 1;
        proof {
            let rest = patch(s, pos as int, len as int, nodes.skip(i as int), f);
            assert(out@ + rest =~= written + (s.subrange(start, span.start as int) + f(span@)
                + rest));
        }
    }
    append_range(&mut out, text, pos, len);
    proof {
        assert(nodes.skip(i as int) =~= Seq::<Node>::empty());
        assert(nodes.take(i as int) =~= nodes);
    }
    if count == 0 {
        return Err(
            join5(
                "'",
                new_ref,
                "' has no (reference \"",
                old_ref,
                "\") in its instances path — the property was renamed but the netlist still \
                    reads the old designator",
            ),
        );
    }
    Ok((to_text(out.as_slice()), count))
}

// ─── Adding a property ───────────────────────────────────────────────────────

/// Whether a property is set through a parameter of its own.
pub open spec fn reserved(name: Seq<char>) -> bool {
    name == "Reference"@ || name == "Value"@ || name == "Footprint"@ || name == "Datasheet"@
}

/// Properties that are exposed as first-class parameters. Routing one of them
/// through custom fields too would let a single call set the same property twice
/// with different values, and for Reference it would skip the instances-path
/// rewrite entirely: a rename that the netlist ignores.
pub fn is_reserved_property(name: &str) -> (res: bool)
    ensures
        res == reserved(name@),
{
    same_text(name, "Reference") || same_text(name, "Value") || same_text(name, "Footprint")
        || same_text(name, "Datasheet")
}

/// Whether the first placement of `reference` carries the property `name`.
pub open spec fn has_property(s: Seq<char>, reference: Seq<char>, name: Seq<char>) -> bool {
    match instance_block(s, reference) {
        Some(n) => contains_text(node_text(s, n), property_marker(name)),
        None => false,
    }
}

/// Does `reference`'s symbol block already carry a `name` property?
pub fn property_exists(content: &str, reference: &str, name: &str) -> (res: bool)
    ensures
        res == has_property(content@, reference@, name@),
{
    let chars = to_chars(content);
    let s = chars.as_slice();
    match find_symbol_instance_block(s, reference) {
        Some(span) => {
            assert(span.end < s.len());
            let block = slice_subrange(s, span.start, span.end + 1);
            has_text(block, marker_of(name).as_slice())
        },
        None => false,
    }
}

/// The end of the token that starts at `from`, no further than `to`.
pub open spec fn token_end(s: Seq<char>, from: int, to: int) -> int
    decreases to - from,
{
    if from < to && !is_white_space(s[from]) {
        token_end(s, from + 1, to)
    } else {
        from
    }
}

/// The first two tokens of `s` in `from..to`, parted by white space.
pub open spec fn two_tokens(s: Seq<char>, from: int, to: int) -> Option<(Seq<char>, Seq<char>)> {
    let a = white_end(s, from, to);
    let b = token_end(s, a, to);
    let c = white_end(s, b, to);
    let d = token_end(s, c, to);
    if a < b && c < d {
        Some((s.subrange(a, b), s.subrange(c, d)))
    } else {
        None
    }
}

/// The tokens of a symbol block's own placement: what follows its `(at`.
pub open spec fn placement_of(b: Seq<char>) -> Option<(Seq<char>, Seq<char>)> {
    match child_tagged(b, "at"@) {
        None => None,
        Some(at) => two_tokens(b, at.start + 3, at.end),
    }
}

fn skip_token(s: &[char], from: usize, to: usize) -> (res: usize)
    requires
        from <= to <= s@.len(),
    ensures
        res == token_end(s@, from as int, to as int),
        from <= res <= to,
{
    let mut i: usize = from;
    while i < to && !whitespace(s[i])
        invariant
            from <= i <= to <= s@.len(),
            token_end(s@, from as int, to as int) == token_end(s@, i as int, to as int),
        decreases to - i,
    {
        i = i + 1;
    }
    i
}

/// The two coordinates, as they stand in the file, of the first placement of
/// `reference`.
pub fn placement_tokens(content: &str, reference: &str) -> (res: Option<(String, String)>)
    ensures
        match (instance_block(content@, reference@), res) {
            (None, r) => r is None,
            (Some(n), Some((x, y))) => placement_of(node_text(content@, n)) == Some((x@, y@)),
            (Some(n), None) => placement_of(node_text(content@, n)) is None,
        },
{
    let chars = to_chars(content);
    let s = chars.as_slice();
    match find_symbol_instance_block(s, reference) {
        None => None,
        Some(span) => {
            assert(span.end < s.len());
            let block = slice_subrange(s, span.start, span.end + 1);
            match find_child(block, "at") {
                None => None,
                Some(at) => {
                    let close = at.end;
                    if close - at.start < 3 {
                        return None;
                    }
                    let a = skip_white(block, at.start + 3, close);
                    let b = skip_token(block, a, close);
                    let c = skip_white(block, b, close);
                    let d = skip_token(block, c, close);
                    if a < b && c < d {
                        Some((slice_text(block, a, b), slice_text(block, c, d)))
                    } else {
                        None
                    }
                },
            }
        },
    }
}

/// `value`, with backslashes and quotes escaped.
pub open spec fn escaped(value: Seq<char>) -> Seq<char>
    decreases value.len(),
{
    if value.len() == 0 {
        Seq::empty()
    } else {
        let front = escaped(value.drop_last());
        let c = value.last();
        if c == '\\' || c == '"' {
            front.push('\\').push(c)
        } else {
            front.push(c)
        }
    }
}

fn append_escaped(out: &mut Vec<char>, value: &str)
    ensures
        final(out)@ == old(out)@ + escaped(value@),
{
    let chars = to_chars(value);
    let mut i: usize = 0;
    assert(value@.take(0) =~= Seq::<char>::empty());
    assert(out@ + escaped(value@.take(0)) =~= out@);
    while i < chars.len()
        invariant
            i <= chars@.len(),
            chars@ == value@,
            out@ == old(out)@ + escaped(value@.take(i as int)),
        decreases chars@.len() - i,
    {
        let c = chars[i];
        proof {
            assert(value@.take(i + 1).drop_last() =~= value@.take(i as int));
            assert(value@.take(i + 1).last() == c);
        }
        if c == '\\' || c == '"' {
            out.push('\\');
        }
        out.push(c);
        i = i + 1;
        assert(out@ =~= old(out)@ + escaped(value@.take(i as int)));
    }
    assert(value@.take(value@.len() as int) =~= value@);
}

/// The indentation of a symbol block's properties.
pub open spec fn property_indent(b: Seq<char>) -> Seq<char> {
    match first_match(b, 0, b.len() as int, "(property "@) {
        Some(p) => indent(b, p),
        None => "\t\t"@,
    }
}

/// `(at x y 0)`.
pub open spec fn at_clause(anchor: (Seq<char>, Seq<char>)) -> Seq<char> {
    "(at "@ + anchor.0 + " "@ + anchor.1 + " 0)"@
}

/// The text size of a property.
pub open spec fn effects_clause(margin: Seq<char>) -> Seq<char> {
    "(effects\n"@ + margin + "\t\t(font\n"@ + margin + "\t\t\t(size 1.27 1.27)\n"@ + margin
        + "\t\t)\n"@ + margin + "\t)"@
}

/// A hidden property at `anchor`, as KiCad 10 writes it.
pub open spec fn hidden_property(
    margin: Seq<char>,
    name: Seq<char>,
    value: Seq<char>,
    anchor: (Seq<char>, Seq<char>),
) -> Seq<char> {
    "\n"@ + margin + ("(property \""@ + name + "\" \""@ + escaped(value) + "\"\n"@ + margin + "\t"@
        + at_clause(anchor) + "\n"@ + margin + "\t(hide yes)\n"@ + margin + "\t"@ + effects_clause(
        margin,
    ) + "\n"@ + margin + ")"@)
}

/// `s`, with a new property in the first placement of `reference`. `anchor` is
/// the placement's coordinates, if they can be read.
pub open spec fn appended(
    s: Seq<char>,
    reference: Seq<char>,
    name: Seq<char>,
    value: Seq<char>,
    anchor: Option<(Seq<char>, Seq<char>)>,
) -> Result<Seq<char>, Seq<char>> {
    match (instance_block(s, reference), anchor) {
        (None, _) => Err(not_found(reference)),
        (Some(n), None) => Err("'"@ + reference + "' has no readable (at …) placement"@),
        (Some(n), Some(at)) => Ok(
            s.take(n.end) + hidden_property(property_indent(node_text(s, n)), name, value, at)
                + s.skip(n.end),
        ),
    }
}

fn hidden_property_text(margin: &str, name: &str, value: &str, x: &str, y: &str) -> (res: Vec<char>)
    ensures
        res@ == hidden_property(margin@, name@, value@, (x@, y@)),
{
    let at = join5("(at ", x, " ", y, " 0)");
    let mut effects = to_chars("(effects\n");
    append_str(&mut effects, margin);
    append_str(&mut effects, "\t\t(font\n");
    append_str(&mut effects, margin);
    append_str(&mut effects, "\t\t\t(size 1.27 1.27)\n");
    append_str(&mut effects, margin);
    append_str(&mut effects, "\t\t)\n");
    append_str(&mut effects, margin);
    append_str(&mut effects, "\t)");
    let effects_text = to_text(effects.as_slice());
    let mut node = to_chars("(property \"");
    append_str(&mut node, name);
    append_str(&mut node, "\" \"");
    append_escaped(&mut node, value);
    append_str(&mut node, "\"\n");
    append_str(&mut node, margin);
    append_str(&mut node, "\t");
    append_str(&mut node, at.as_str());
    append_str(&mut node, "\n");
    append_str(&mut node, margin);
    append_str(&mut node, "\t(hide yes)\n");
    append_str(&mut node, margin);
    append_str(&mut node, "\t");
    append_str(&mut node, effects_text.as_str());
    append_str(&mut node, "\n");
    append_str(&mut node, margin);
    append_str(&mut node, ")");
    let mut out = to_chars("\n");
    append_str(&mut out, margin);
    append_range(&mut out, node.as_slice(), 0, node.len());
    assert(node@.subrange(0, node@.len() as int) =~= node@);
    out
}

/// Coordinates as plain values.
pub open spec fn anchor_view(anchor: Option<(String, String)>) -> Option<(Seq<char>, Seq<char>)> {
    match anchor {
        Some((x, y)) => Some((x@, y@)),
        None => None,
    }
}

/// Append a new `(property …)` to `reference`'s symbol block.
///
/// Anchored at the symbol's own `(at …)` and written hidden: a custom field is
/// data, not something to draw over the sheet, and KiCad 10's canonical instance
/// form puts `(hide yes)` as a sibling before `(effects …)`. The `(at …)` is
/// mandatory: a property written without one is defaulted to the sheet origin.
pub fn append_property(
    content: &str,
    reference: &str,
    name: &str,
    value: &str,
    anchor: Option<(String, String)>,
) -> (res: Result<String, String>)
    ensures
        same_outcome(
            res,
            appended(content@, reference@, name@, value@, anchor_view(anchor)),
        ),
{
    let chars = to_chars(content);
    let text = chars.as_slice();
    let len = text.len();
    let ghost s = text@;
    match find_symbol_instance_block(text, reference) {
        None => Err(join3("symbol '", reference, "' not found in this schematic")),
        Some(span) => match anchor {
            None => Err(join3("'", reference, "' has no readable (at …) placement")),
            Some((x, y)) => {
                assert(span.end < len);
                let block = slice_subrange(text, span.start, span.end + 1);
                let pattern = to_chars("(property ");
                let margin = match find(block, 0, block.len(), pattern.as_slice()) {
                    Some(p) => indent_at(block, p),
                    None => "\t\t".to_string(),
                };
                let property = hidden_property_text(
                    margin.as_str(),
                    name,
                    value,
                    x.as_str(),
                    y.as_str(),
                );
                let mut out: Vec<char> = Vec::new();
                append_range(&mut out, text, 0, span.end);
                assert(out@ =~= s.take(span.end as int));
                append_range(&mut out, property.as_slice(), 0, property.len());
                assert(property@.subrange(0, property@.len() as int) =~= property@);
                append_range(&mut out, text, span.end, len);
                assert(s.subrange(span.end as int, len as int) =~= s.skip(span.end as int));
                Ok(to_text(out.as_slice()))
            },
        },
    }
}

// ─── A request ───────────────────────────────────────────────────────────────

/// How far a request has come: the content as edited so far, what was changed
/// and what could not be.
pub ghost struct EditState {
    pub reference: Seq<char>,
    pub content: Seq<char>,
    pub changed: Seq<Seq<char>>,
    pub errors: Seq<Seq<char>>,
}

impl EditState {
    /// With a change made.
    pub open spec fn change(self, content: Seq<char>, note: Seq<char>) -> EditState {
        EditState { content, changed: self.changed.push(note), ..self }
    }

    /// With something that could not be done.
    pub open spec fn fail(self, note: Seq<char>) -> EditState {
        EditState { errors: self.errors.push(note), ..self }
    }

    /// After setting a property that exists.
    pub open spec fn set(self, field: Seq<char>, new_val: Seq<char>) -> EditState {
        match updated_field(self.content, self.reference, field, new_val) {
            Ok(content) => self.change(content, field + " → "@ + new_val),
            Err(why) => self.fail(field + ": "@ + why),
        }
    }

    /// After renaming the `Reference` property.
    pub open spec fn rename_property(self, new_ref: Seq<char>) -> EditState {
        match renamed(self.content, self.reference, new_ref) {
            Ok(content) => self.change(content, "Reference"@ + " → "@ + new_ref),
            Err(why) => self.fail("Reference"@ + ": "@ + why),
        }
    }

    /// After rewriting the instances path.
    pub open spec fn rename_entries(self, new_ref: Seq<char>) -> EditState {
        match rewritten(self.content, self.reference, new_ref) {
            Ok((content, count)) => self.change(
                content,
                "instances reference → "@ + new_ref + " ("@ + decimal(count) + ")"@,
            ),
            Err(why) => self.fail("instances reference: "@ + why),
        }
    }

    /// After a rename. Once the symbol shows the new designator, the request goes
    /// on with that.
    pub open spec fn rename(self, new_ref: Seq<char>) -> EditState {
        let after = self.rename_property(new_ref).rename_entries(new_ref);
        if renamed(self.content, self.reference, new_ref) is Ok {
            EditState { reference: new_ref, ..after }
        } else {
            after
        }
    }

    /// After setting a property, where there is a value for it.
    pub open spec fn set_given(self, field: Seq<char>, new_val: Option<String>) -> EditState {
        match new_val {
            Some(text) => self.set(field, text@),
            None => self,
        }
    }

    /// After a rename, where there is a new designator.
    pub open spec fn rename_given(self, new_ref: Option<String>) -> EditState {
        match new_ref {
            Some(text) => self.rename(text@),
            None => self,
        }
    }

    /// After setting the properties that a request names through its first-class
    /// parameters.
    pub open spec fn properties_set(self, request: EditRequest) -> EditState {
        self.set_given("Value"@, request.value).set_given(
            "Footprint"@,
            request.footprint,
        ).set_given("Datasheet"@, request.datasheet)
    }

    /// After all the changes of a request: the properties first and then the custom
    /// fields, while the symbol still shows the designator that the request knows
    /// it by, and the rename last.
    pub open spec fn applied(self, request: EditRequest, fields: Seq<FieldRequest>) -> EditState {
        fields_set(self.properties_set(request), fields).rename_given(request.new_reference)
    }

    /// After setting a custom field: `None` for a value that is not a string, and
    /// for coordinates that cannot be read.
    pub open spec fn set_field(
        self,
        name: Seq<char>,
        value: Option<Seq<char>>,
        anchor: Option<(Seq<char>, Seq<char>)>,
    ) -> EditState {
        match value {
            None => self.fail(name + ": field values must be strings"@),
            Some(value) => if reserved(name) {
                self.fail(
                    name + ": set this through the '"@ + lower_case(name)
                        + "' parameter, not 'fields'"@,
                )
            } else if has_property(self.content, self.reference, name) {
                self.set(name, value)
            } else {
                match appended(self.content, self.reference, name, value, anchor) {
                    Ok(content) => self.change(content, name + " → "@ + value + " (added)"@),
                    Err(why) => self.fail(name + ": "@ + why),
                }
            },
        }
    }
}

/// A custom field as a request gives it: its name, its value where that is a
/// string, and the coordinates to anchor it at where they can be read.
pub ghost struct FieldRequest {
    pub name: Seq<char>,
    pub value: Option<Seq<char>>,
    pub anchor: Option<(Seq<char>, Seq<char>)>,
}

/// After setting `fields`, one by one.
pub open spec fn fields_set(state: EditState, fields: Seq<FieldRequest>) -> EditState
    decreases fields.len(),
{
    if fields.len() == 0 {
        state
    } else {
        let last = fields.last();
        fields_set(state, fields.drop_last()).set_field(last.name, last.value, last.anchor)
    }
}

/// The ASCII lower case of `c`.
pub open spec fn lower(c: char) -> char {
    if 'A' <= c <= 'Z' {
        ((c as u32 + 32) as u32) as char
    } else {
        c
    }
}

/// The ASCII lower case of `text`.
pub open spec fn lower_case(text: Seq<char>) -> Seq<char> {
    text.map_values(|c: char| lower(c))
}

/// What a request names through its first-class parameters.
#[derive(Debug)]
pub struct EditRequest {
    pub new_reference: Option<String>,
    pub value: Option<String>,
    pub footprint: Option<String>,
    pub datasheet: Option<String>,
}

/// A custom field that a request names.
#[derive(Debug)]
pub struct CustomField {
    pub name: String,
    /// `None` where the request gives no string.
    pub value: Option<String>,
}

/// The custom fields `fields`, new ones to be anchored at `anchor`.
pub open spec fn field_requests(
    fields: Seq<CustomField>,
    anchor: Option<(String, String)>,
) -> Seq<FieldRequest> {
    fields.map_values(
        |field: CustomField|
            FieldRequest {
                name: field.name@,
                value: match field.value {
                    Some(text) => Some(text@),
                    None => None,
                },
                anchor: anchor_view(anchor),
            },
    )
}

/// An edit under way.
#[derive(Debug)]
pub struct ComponentEdit {
    /// The reference designator that the symbol is known by: the one that the
    /// request names, and after a rename the new one.
    pub reference: String,
    /// The schematic as edited so far.
    pub content: String,
    /// What was changed.
    pub changed: Vec<String>,
    /// What could not be changed, and why.
    pub errors: Vec<String>,
}

impl View for ComponentEdit {
    type V = EditState;

    open spec fn view(&self) -> EditState {
        EditState {
            reference: self.reference@,
            content: self.content@,
            changed: views(self.changed@),
            errors: views(self.errors@),
        }
    }
}

fn lower_text(text: &str) -> (res: String)
    ensures
        res@ == lower_case(text@),
{
    let chars = to_chars(text);
    let mut out: Vec<char> = Vec::new();
    let mut i: usize = 0;
    while i < chars.len()
        invariant
            i <= chars@.len(),
            chars@ == text@,
            out@ == lower_case(text@.take(i as int)),
        decreases chars@.len() - i,
    {
        let c = chars[i];
        let ghost before = out@;
        let low: char = if 'A' <= c && c <= 'Z' {
            (c as u8 + 32) as char
        } else {
            c
        };
        out.push(low);
        i = i + 1;
        proof {
            assert(text@.take(i as int) =~= text@.take(i - 1).push(c));
            assert(lower_case(text@.take(i as int)) =~= before.push(lower(c)));
        }
    }
    assert(text@.take(text@.len() as int) =~= text@);
    to_text(out.as_slice())
}

impl ComponentEdit {
    /// An edit of the symbol that shows `reference`.
    pub fn new(content: &str, reference: &str) -> (res: ComponentEdit)
        ensures
            res@ == (EditState {
                reference: reference@,
                content: content@,
                changed: Seq::<Seq<char>>::empty(),
                errors: Seq::<Seq<char>>::empty(),
            }),
    {
        let res = ComponentEdit {
            reference: reference.to_string(),
            content: content.to_string(),
            changed: Vec::new(),
            errors: Vec::new(),
        };
        assert(views(res.changed@) =~= Seq::<Seq<char>>::empty());
        assert(views(res.errors@) =~= Seq::<Seq<char>>::empty());
        res
    }

    fn change(&mut self, content: String, note: String)
        ensures
            final(self)@ == old(self)@.change(content@, note@),
    {
        let ghost before = self.changed@;
        self.content = content;
        self.changed.push(note);
        assert(views(self.changed@) =~= views(before).push(note@));
    }

    fn fail(&mut self, note: String)
        ensures
            final(self)@ == old(self)@.fail(note@),
    {
        let ghost before = self.errors@;
        self.errors.push(note);
        assert(views(self.errors@) =~= views(before).push(note@));
    }

    /// Set a property that exists: `Value`, `Footprint` or `Datasheet`, or a
    /// custom one.
    pub fn set_property(&mut self, field: &str, new_val: &str)
        ensures
            final(self)@ == old(self)@.set(field@, new_val@),
    {
        match update_field(self.content.as_str(), self.reference.as_str(), field, new_val) {
            Ok(content) => {
                self.change(content, join3(field, " → ", new_val));
            },
            Err(why) => {
                self.fail(join3(field, ": ", why.as_str()));
            },
        }
    }

    /// Give the symbol another designator.
    ///
    /// A designator lives in two places. The `(property "Reference" …)` is what
    /// renders; the `(reference …)` inside `(instances …)` is what KiCad reads
    /// when it builds the netlist. Rewriting only the property leaves the netlist
    /// on the old designator.
    pub fn rename(&mut self, new_ref: &str)
        ensures
            final(self)@ == old(self)@.rename(new_ref@),
    {
        let mut shown = false;
        match rename_placements(self.content.as_str(), self.reference.as_str(), new_ref) {
            Ok(content) => {
                shown = true;
                self.change(content, join3("Reference", " → ", new_ref));
            },
            Err(why) => {
                self.fail(join3("Reference", ": ", why.as_str()));
            },
        }
        match rewrite_instance_references(self.content.as_str(), self.reference.as_str(), new_ref) {
            Ok((content, count)) => {
                let count_text = decimal_text(count as u64);
                self.change(
                    content,
                    join5("instances reference → ", new_ref, " (", count_text.as_str(), ")"),
                );
            },
            Err(why) => {
                let note = join3("instances reference: ", why.as_str(), "");
                proof {
                    reveal_strlit("");
                    assert(note@ =~= "instances reference: "@ + why@);
                }
                self.fail(note);
            },
        }
        if shown {
            self.reference = new_ref.to_string();
        }
    }

    /// Set the properties that a request names through its first-class
    /// parameters.
    pub fn set_properties(&mut self, request: &EditRequest)
        ensures
            final(self)@ == old(self)@.properties_set(*request),
    {
        if let Some(value) = &request.value {
            self.set_property("Value", value.as_str());
        }
        if let Some(footprint) = &request.footprint {
            self.set_property("Footprint", footprint.as_str());
        }
        if let Some(datasheet) = &request.datasheet {
            self.set_property("Datasheet", datasheet.as_str());
        }
    }

    /// The two coordinates, as they stand in the content, that a new field is to
    /// be anchored at.
    pub fn placement(&self) -> (res: Option<(String, String)>)
        ensures
            match (instance_block(self@.content, self@.reference), res) {
                (None, r) => r is None,
                (Some(n), Some((x, y))) => placement_of(node_text(self@.content, n)) == Some(
                    (x@, y@),
                ),
                (Some(n), None) => placement_of(node_text(self@.content, n)) is None,
            },
    {
        placement_tokens(self.content.as_str(), self.reference.as_str())
    }

    /// Set a custom field. One that exists is updated in place; a new one is
    /// appended to the symbol block, at `anchor`. `value` is `None` where the
    /// request gives no string, `anchor` where the symbol's placement cannot be
    /// read.
    pub fn set_custom_field(
        &mut self,
        name: &str,
        value: Option<&str>,
        anchor: Option<(String, String)>,
    )
        ensures
            final(self)@ == old(self)@.set_field(
                name@,
                match value {
                    Some(text) => Some(text@),
                    None => None,
                },
                anchor_view(anchor),
            ),
    {
        match value {
            None => {
                let note = join3(name, ": field values must be strings", "");
                proof {
                    reveal_strlit("");
                    assert(note@ =~= name@ + ": field values must be strings"@);
                }
                self.fail(note);
            },
            Some(text) => {
                if is_reserved_property(name) {
                    let parameter = lower_text(name);
                    let head = join3(name, ": set this through the '", parameter.as_str());
                    self.fail(join3(head.as_str(), "' parameter, not 'fields'", ""));
                    proof {
                        reveal_strlit("");
                        let note = head@ + "' parameter, not 'fields'"@ + ""@;
                        assert(note =~= name@ + ": set this through the '"@ + lower_case(name@)
                            + "' parameter, not 'fields'"@);
                    }
                } else if property_exists(self.content.as_str(), self.reference.as_str(), name) {
                    self.set_property(name, text);
                } else {
                    match append_property(
                        self.content.as_str(),
                        self.reference.as_str(),
                        name,
                        text,
                        anchor,
                    ) {
                        Ok(content) => {
                            let note = join5(name, " → ", text, " (added)", "");
                            proof {
                                reveal_strlit("");
                                assert(note@ =~= name@ + " → "@ + text@ + " (added)"@);
                            }
                            self.change(content, note);
                        },
                        Err(why) => {
                            self.fail(join3(name, ": ", why.as_str()));
                        },
                    }
                }
            },
        }
    }

    /// Make all the changes of a request: its properties, its custom fields and its
    /// rename. `anchor` is the symbol's placement, read before the first change,
    /// and `None` where it cannot be read.
    ///
    /// The rename comes last, so that the rest reaches the symbol that the request
    /// means even where another one shows the new designator already.
    pub fn apply_all(
        &mut self,
        request: &EditRequest,
        fields: &[CustomField],
        anchor: Option<(String, String)>,
    )
        ensures
            final(self)@ == old(self)@.applied(*request, field_requests(fields@, anchor)),
    {
        self.set_properties(request);
        let ghost set = self@;
        let ghost all = field_requests(fields@, anchor);
        let mut i: usize = 0;
        assert(all.take(0) =~= Seq::<FieldRequest>::empty());
        while i < fields.len()
            invariant
                i <= fields@.len(),
                all == field_requests(fields@, anchor),
                self@ == fields_set(set, all.take(i as int)),
            decreases fields@.len() - i,
        {
            let field = &fields[i];
            let value = match &field.value {
                Some(text) => Some(text.as_str()),
                None => None,
            };
            let at = match &anchor {
                Some((x, y)) => Some((x.clone(), y.clone())),
                None => None,
            };
            proof {
                assert(all.take(i + 1).drop_last() =~= all.take(i as int));
                assert(all.take(i + 1).last() == all[i as int]);
                assert(anchor_view(at) == anchor_view(anchor));
            }
            self.set_custom_field(field.name.as_str(), value, at);
            i = i + 1;
        }
        assert(all.take(all.len() as int) =~= all);
        if let Some(new_ref) = &request.new_reference {
            self.rename(new_ref.as_str());
        }
    }

    /// Why the request failed as a whole, if it did. A request that changed
    /// nothing is a failure, not a success.
    pub fn refusal(&self) -> (res: Option<String>)
        ensures
            match res {
                Some(text) => refused(self@) == Some(text@),
                None => refused(self@) is None,
            },
    {
        assert(views(self.errors@).len() == self.errors@.len());
        assert(views(self.changed@).len() == self.changed@.len());
        if self.changed.len() > 0 {
            return None;
        }
        if self.errors.len() == 0 {
            return Some(join3("No fields were updated on '", self.reference.as_str(), "'"));
        }
        let reasons = join_texts(self.errors.as_slice(), "; ");
        let text = join5(
            "No fields were updated on '",
            self.reference.as_str(),
            "': ",
            reasons.as_str(),
            "",
        );
        proof {
            reveal_strlit("");
            assert(text@ =~= "No fields were updated on '"@ + self.reference@ + "': "@ + reasons@);
        }
        Some(text)
    }
}

/// Why a request failed as a whole: it changed nothing.
pub open spec fn refused(state: EditState) -> Option<Seq<char>> {
    if state.changed.len() > 0 {
        None
    } else if state.errors.len() > 0 {
        Some(
            "No fields were updated on '"@ + state.reference + "': "@ + joined_texts(
                state.errors,
                "; "@,
            ),
        )
    } else {
        Some("No fields were updated on '"@ + state.reference + "'"@)
    }
}

} // verus!
