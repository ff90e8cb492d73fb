//! Update a board's nets from its schematic: the programmatic half of eeschema's
//! *Update PCB from Schematic* (F8).
//!
//! Every pad's net is reassigned from `(reference, pad)` → net name, and a pad's
//! net is dropped when the schematic gives it none. Footprints are never added,
//! deleted or moved; mismatches are reported for a human to act on.
//!
//! The file form is KiCad 10's, in which a pad's net is `(net "name")`, the name
//! alone. A file carrying KiCad 9's `(net <id> "name")` is refused rather than
//! half converted.

use crate::board::{
    block_refs, block_states, board_states, current_names, cut_from, first_quoted, footprint_states,
    footprint_sync, footprint_texts, footprints, gets_net, insert_at, insert_indent, keeps_net,
    last_leader, leads_net, legacy, legacy_at, loses_net, net_child, net_of, net_texts, nets,
    pad_states, pad_sync, pads, place_before, reference_of, stale_names, state_of, synced, tally,
    want, PadState,
};
use crate::names::{lists, NameSet};
use crate::netlist::{contains_name, Netlist, Wiring};
use crate::pcb_laws::lemma_insert_point;
use crate::scan::{
    child_nodes, children, children_of, node_text, nodes_at_depth, nodes_in, outside, span_nodes,
    tag_at, Child, Node, Span,
};
use crate::structure::{
    is_node, laid_out, lemma_child_is_inside, lemma_children_are_nodes, lemma_children_laid_out,
    lemma_laid_out_bounds, lemma_nodes_bounds, lemma_nodes_laid_out, lemma_tagged,
    lemma_tagged_children, lemma_tagged_laid_out, node_texts, patch,
};
use crate::text::{
    append_range, append_str, find, find_char, indent_at, is_white_space, last_char,
    lemma_last_char, lemma_white_end, matches_at, rfind_char, same_text, skip_white,
    skip_white_back, slice_text, to_chars, to_text, views,
};
use vstd::prelude::*;
use vstd::slice::slice_subrange;

verus! {

// ─── Board scanning ──────────────────────────────────────────────────────────

/// The first quoted token in `block`.
fn first_quoted_in(block: &[char]) -> (res: Option<String>)
    ensures
        match res {
            Some(text) => first_quoted(block@) == Some(text@),
            None => first_quoted(block@) is None,
        },
{
    let len = block.len();
    match find_char(block, 0, len, '"') {
        Some(q) => match find_char(block, q + 1, len, '"') {
            Some(end) => Some(slice_text(block, q + 1, end)),
            None => None,
        },
        None => None,
    }
}

/// The `Reference` property of a footprint block.
pub fn footprint_reference(content: &[char], fp: Span) -> (res: Option<String>)
    requires
        fp.start <= fp.end < content@.len(),
    ensures
        match res {
            Some(text) => reference_of(node_text(content@, fp@)) == Some(text@),
            None => reference_of(node_text(content@, fp@)) is None,
        },
{
    assert(fp.end < content.len());
    let block = slice_subrange(content, fp.start, fp.end + 1);
    let marker = to_chars("(property \"Reference\" \"");
    let len = block.len();
    match find(block, 0, len, marker.as_slice()) {
        Some(m) => {
            let at = m + marker.len();
            match find_char(block, at, len, '"') {
                Some(end) => Some(slice_text(block, at, end)),
                None => None,
            }
        },
        None => None,
    }
}

/// A pad's number, i.e. the first quoted token after `(pad`.
pub fn pad_number(content: &[char], pad: Span) -> (res: Option<String>)
    requires
        pad.start <= pad.end < content@.len(),
    ensures
        match res {
            Some(text) => first_quoted(node_text(content@, pad@)) == Some(text@),
            None => first_quoted(node_text(content@, pad@)) is None,
        },
{
    assert(pad.end < content.len());
    first_quoted_in(slice_subrange(content, pad.start, pad.end + 1))
}

/// The name inside a `(net "…")` node.
pub fn net_name(content: &[char], net: Span) -> (res: Option<String>)
    requires
        net.start <= net.end < content@.len(),
    ensures
        match res {
            Some(text) => first_quoted(node_text(content@, net@)) == Some(text@),
            None => first_quoted(node_text(content@, net@)) is None,
        },
{
    assert(net.end < content.len());
    first_quoted_in(slice_subrange(content, net.start, net.end + 1))
}

/// Whether the file uses KiCad 9's `(net <id> "name")` form anywhere.
///
/// Detected rather than converted. The id form is meaningless without the
/// top-level table that gives the ids meaning, and rewriting one without the
/// other produces a board that opens cleanly and is wired wrongly.
pub fn has_legacy_net_ids(content: &[char]) -> (res: bool)
    ensures
        res == legacy(content@),
{
    let pattern = to_chars("(net ");
    proof {
        reveal_strlit("(net ");
    }
    let len = content.len();
    let mut i: usize = 0;
    while i < len
        invariant
            i <= len == content@.len(),
            pattern@ == "(net "@,
            pattern@.len() == 5,
            forall|k: int| 0 <= k < i ==> !#[trigger] legacy_at(content@, k),
        decreases len - i,
    {
        if matches_at(content, i, pattern.as_slice()) && len - i > 5 {
            let c = content[i + 5];
            if '0' <= c && c <= '9' {
                assert(legacy_at(content@, i as int));
                return true;
            }
        }
        i = i + 1;
    }
    assert forall|k: int| !#[trigger] legacy_at(content@, k) by {}
    false
}

/// Whether KiCad's writer emits pad children with this tag *before* `(net …)`.
///
/// From its fixed field order: geometry, then layers, then the shape modifiers,
/// then the net, then `pinfunction`/`pintype`/`uuid`. Listing the leaders rather
/// than the followers is the safer half: a KiCad version that adds a new
/// trailing field still lands the net in the right place.
fn is_leader(tag: &str) -> (res: bool)
    ensures
        res == leads_net(tag@),
{
    same_text(tag, "at") || same_text(tag, "size") || same_text(tag, "drill") || same_text(
        tag,
        "property",
    ) || same_text(tag, "layers") || same_text(tag, "roundrect_rratio") || same_text(
        tag,
        "chamfer_ratio",
    ) || same_text(tag, "chamfer") || same_text(tag, "rect_delta")
}

fn find_leader(Ghost(s): Ghost<Seq<char>>, kids: &Vec<Child>) -> (res: Option<usize>)
    requires
        forall|k: int|
            0 <= k < kids@.len() ==> (#[trigger] kids@[k]).tag@ == tag_at(
                s,
                kids@[k].span.start as int,
            ),
    ensures
        match res {
            Some(k) => k < kids@.len() && last_leader(s, child_nodes(kids@)) == Some(
                kids@[k as int].span@,
            ),
            None => last_leader(s, child_nodes(kids@)) is None,
        },
{
    let ghost nodes = child_nodes(kids@);
    let mut i: usize = kids.len();
    assert(nodes.take(i as int) =~= nodes);
    while i > 0
        invariant
            i <= kids@.len(),
            nodes == child_nodes(kids@),
            forall|k: int|
                0 <= k < kids@.len() ==> (#[trigger] kids@[k]).tag@ == tag_at(
                    s,
                    kids@[k].span.start as int,
                ),
            last_leader(s, nodes) == last_leader(s, nodes.take(i as int)),
        decreases i,
    {
        i = i - 1;
        proof {
            assert(nodes.take(i + 1).drop_last() =~= nodes.take(i as int));
            assert(nodes.take(i + 1).last() == kids@[i as int].span@);
        }
        if is_leader(kids[i].tag.as_str()) {
            return Some(i);
        }
    }
    None
}

fn find_place(content: &[char], floor: usize, at: usize) -> (res: usize)
    requires
        floor <= at <= content@.len(),
    ensures
        res == place_before(content@, floor as int, at as int),
        floor <= res <= at,
{
    let gap = skip_white_back(content, floor, at);
    match find_char(content, gap, at, '\n') {
        Some(p) => p,
        None => at,
    }
}

/// Where a missing `(net …)` child belongs inside `pad`, as `(offset, indent)`.
///
/// KiCad's field order is fixed, so putting the child back where KiCad would
/// have written it makes a repair byte-identical to what F8 produces.
pub fn net_insert_point(content: &[char], pad: Span) -> (res: (usize, String))
    requires
        is_node(content@, pad@),
    ensures
        res.0 == insert_at(content@, pad@),
        res.1@ == insert_indent(content@, pad@),
        pad.start < res.0 <= pad.end,
{
    let kids = children_of(content, pad);
    assert(pad.end < content.len());
    let ghost s = content@;
    proof {
        lemma_insert_point(s, pad@);
        lemma_children_laid_out(s, pad@);
        assert forall|k: int| 0 <= k < kids@.len() implies pad.start <= (
        #[trigger] kids@[k]).span.start <= kids@[k].span.end <= pad.end by {
            lemma_laid_out_bounds(children(s, pad@), pad.start as int, pad.end + 1, k);
            assert(child_nodes(kids@)[k] == kids@[k].span@);
        }
    }
    match find_leader(Ghost(s), &kids) {
        Some(k) => {
            let span = kids[k].span;
            (span.end + 1, indent_at(content, span.start))
        },
        None => {
            if kids.len() > 0 {
                assert(child_nodes(kids@)[0] == kids@[0].span@);
                let first = kids[0].span.start;
                (find_place(content, pad.start, first), indent_at(content, first))
            } else {
                let mut text = indent_at(content, pad.start);
                text.push('\t');
                (find_place(content, pad.start, pad.end), text)
            }
        },
    }
}

/// Where to cut from when the child at `at` goes.
fn cut_point(content: &[char], at: usize) -> (res: usize)
    requires
        at <= content@.len(),
    ensures
        res == cut_from(content@, at as int),
        res <= at,
{
    match rfind_char(content, 0, at, '\n') {
        Some(p) => {
            if skip_white(content, p + 1, at) == at {
                p
            } else {
                at
            }
        },
        None => at,
    }
}

/// A cut does not reach behind text that is not white space.
pub proof fn lemma_cut(s: Seq<char>, at: int, floor: int)
    requires
        0 <= floor < at <= s.len(),
        !is_white_space(s[floor]),
    ensures
        floor < cut_from(s, at) <= at,
        forall|k: int| cut_from(s, at) <= k < at ==> is_white_space(#[trigger] s[k]),
{
    lemma_last_char(s, 0, at, '\n');
    match last_char(s, 0, at, '\n') {
        Some(p) => {
            lemma_white_end(s, p + 1, at);
        },
        None => {},
    }
}

// ─── The update ──────────────────────────────────────────────────────────────

/// Outcome of a sync, reported whether or not it was applied.
#[derive(Debug)]
pub struct SyncReport {
    pub nets_in_schematic: usize,
    /// Distinct net names the board's pads carried before the sync. A board in
    /// step has the same count as the schematic, where every net reaches the
    /// board; more means split or stale names, which is the drift being cleared.
    pub nets_on_board_before: usize,
    pub pads_assigned: usize,
    pub pads_cleared: usize,
    pub pads_unchanged: usize,
    /// On the board but absent from the schematic. F8 would offer to delete
    /// these. Reported only.
    pub extra_footprints: Vec<String>,
    /// In the schematic but absent from the board. F8 would place these.
    /// Reported only.
    pub missing_footprints: Vec<String>,
    /// Pads carrying a net the schematic does not mention. Non-empty here is
    /// exactly the staleness that a sync exists to clear, so it is listed rather
    /// than counted.
    pub stale_nets_removed: Vec<String>,
}

impl Default for SyncReport {
    fn default() -> (res: SyncReport)
        ensures
            res.nets_in_schematic == 0,
            res.nets_on_board_before == 0,
            res.pads_assigned == 0,
            res.pads_cleared == 0,
            res.pads_unchanged == 0,
            res.extra_footprints@.len() == 0,
            res.missing_footprints@.len() == 0,
            res.stale_nets_removed@.len() == 0,
    {
        SyncReport {
            nets_in_schematic: 0,
            nets_on_board_before: 0,
            pads_assigned: 0,
            pads_cleared: 0,
            pads_unchanged: 0,
            extra_footprints: Vec::new(),
            missing_footprints: Vec::new(),
            stale_nets_removed: Vec::new(),
        }
    }
}

/// Whether `report` is what a sync of the board `s` to `w` has to tell.
pub open spec fn reports(report: SyncReport, s: Seq<char>, w: Wiring) -> bool {
    let states = board_states(s);
    let on_board = block_refs(footprint_texts(s));
    &&& report.nets_in_schematic == w.nets.len()
    &&& report.nets_on_board_before == current_names(states).len()
    &&& report.pads_assigned == tally(states, gets_net(w))
    &&& report.pads_cleared == tally(states, loses_net(w))
    &&& report.pads_unchanged == tally(states, keeps_net(w))
    &&& lists(views(report.extra_footprints@), on_board.difference(w.refs))
    &&& lists(views(report.missing_footprints@), w.refs.difference(on_board))
    &&& lists(views(report.stale_nets_removed@), stale_names(states, w))
}

/// Why a board cannot be synced.
#[derive(Debug, Clone, Copy, PartialEq, Eq, Structural)]
pub enum SyncError {
    /// It carries numeric net ids.
    LegacyNetIds,
}

impl SyncError {
    /// The error in words.
    pub fn message(&self) -> (res: String)
        ensures
            res@
                == "this board uses KiCad 9's numeric net form `(net <id> \"name\")`; \
                    update_pcb_from_schematic targets the KiCad 10 name-only form and will not \
                    half-convert it. Open the board in KiCad 10 once to migrate it, then \
                    re-run."@,
    {
        "this board uses KiCad 9's numeric net form `(net <id> \"name\")`; \
            update_pcb_from_schematic targets the KiCad 10 name-only form and will not \
            half-convert it. Open the board in KiCad 10 once to migrate it, then re-run.".to_string()
    }
}

/// A sync under way: the text written so far, and what there is to report of
/// the pads and footprints met so far.
struct Progress {
    out: Vec<char>,
    assigned: usize,
    cleared: usize,
    unchanged: usize,
    seen: NameSet,
    before: NameSet,
    stale: NameSet,
    states: Ghost<Seq<PadState>>,
}

impl Progress {
    /// Whether the counts and names are those of the pads met so far.
    spec fn sound(self, w: Wiring) -> bool {
        &&& self.assigned == tally(self.states@, gets_net(w))
        &&& self.cleared == tally(self.states@, loses_net(w))
        &&& self.unchanged == tally(self.states@, keeps_net(w))
        &&& self.before@ == current_names(self.states@)
        &&& self.stale@ == stale_names(self.states@, w)
    }

    /// How many pads were met so far.
    spec fn total(self) -> int {
        self.assigned + self.cleared + self.unchanged
    }

    /// Write what lies between two nodes.
    fn copy(&mut self, content: &[char], from: usize, to: usize, Ghost(w): Ghost<Wiring>)
        requires
            from <= to <= content@.len(),
            old(self).sound(w),
        ensures
            final(self).out@ == old(self).out@ + content@.subrange(from as int, to as int),
            final(self).sound(w),
            final(self).total() == old(self).total(),
            final(self).states == old(self).states,
            final(self).seen@ == old(self).seen@,
    {
        append_range(&mut self.out, content, from, to);
    }

    /// Write `pad` with the net that it should have.
    fn sync_pad(&mut self, content: &[char], reference: &str, pad: Span, nl: &Netlist)
        requires
            is_node(content@, pad@),
            old(self).sound(nl@),
            old(self).total() < usize::MAX,
        ensures
            final(self).out@ == old(self).out@ + pad_sync(content@, reference@, nl@)(pad@),
            final(self).sound(nl@),
            final(self).total() <= old(self).total() + 1,
            final(self).seen@ == old(self).seen@,
            final(self).states@ == (match state_of(reference@, node_text(content@, pad@)) {
                Some(state) => old(self).states@.push(state),
                None => old(self).states@,
            }),
    {
        let ghost s = content@;
        let ghost w = nl@;
        let ghost p = node_text(s, pad@);
        assert(pad.end < content.len());
        let number = match pad_number(content, pad) {
            Some(number) => number,
            None => {
                append_range(&mut self.out, content, pad.start, pad.end + 1);
                return;
            },
        };
        let have = nodes_at_depth(content, (pad.start, pad.end + 1), "net", 1);
        proof {
            lemma_tagged_children(s, pad@, "net"@);
            lemma_children_laid_out(s, pad@);
            lemma_tagged_laid_out(s, children(s, pad@), "net"@, pad.start as int, pad.end + 1);
            lemma_children_are_nodes(s, pad@);
            lemma_tagged(s, children(s, pad@), "net"@);
            if have@.len() > 0 {
                assert(nets(s, pad@)[0] == have@[0]@);
                lemma_laid_out_bounds(nets(s, pad@), pad.start as int, pad.end + 1, 0);
                assert(children(s, pad@).contains(nets(s, pad@)[0]));
                assert(net_texts(p)[0] == node_text(s, have@[0]@));
                lemma_child_is_inside(s, pad@, have@[0]@);
            }
        }
        let ghost state = PadState { reference: reference@, number: number@, net: net_of(p) };
        let current = if have.len() > 0 {
            net_name(content, have[0])
        } else {
            None
        };
        assert(current is Some == state.current() is Some);
        assert(current is Some ==> state.current() == Some((current->0)@));
        if let Some(c) = &current {
            self.before.insert(c.clone());
        }
        let wanted = nl.pad_nets.get(&(reference.to_string(), number));
        let ghost before = self.states@;
        proof {
            self.states@ = before.push(state);
            assert(self.states@.drop_last() =~= before);
        }
        match wanted {
            Some(name) => {
                let mut new: Vec<char> = Vec::new();
                append_str(&mut new, "(net \"");
                append_str(&mut new, name.as_str());
                append_str(&mut new, "\")");
                assert(new@ =~= net_child(name@));
                assert(want(w, reference@, state.number) == Some(name@));
                if have.len() > 0 {
                    let span = have[0];
                    let old_child = slice_subrange(content, span.start, span.end + 1);
                    append_range(&mut self.out, content, pad.start, span.start);
                    let ghost part = self.out@;
                    append_range(&mut self.out, new.as_slice(), 0, new.len());
                    assert(new@.subrange(0, new@.len() as int) =~= new@);
                    append_range(&mut self.out, content, span.end + 1, pad.end + 1);
                    if new.len() == old_child.len() && matches_at(
                        old_child,
                        0,
                        new.as_slice(),
                    ) {
                        assert(old_child@.subrange(0, new@.len() as int) =~= old_child@);
                        self.unchanged = self.unchanged + 1;
                    } else {
                        assert(old_child@.subrange(0, old_child@.len() as int) =~= old_child@);
                        if let Some(c) = current {
                            if !same_text(c.as_str(), name.as_str()) && !contains_name(
                                &nl.nets,
                                c.as_str(),
                            ) {
                                self.stale.insert(c);
                            }
                        }
                        self.assigned = self.assigned + 1;
                    }
                } else {
                    let (at, indentation) = net_insert_point(content, pad);
                    append_range(&mut self.out, content, pad.start, at);
                    self.out.push('\n');
                    append_str(&mut self.out, indentation.as_str());
                    append_range(&mut self.out, new.as_slice(), 0, new.len());
                    assert(new@.subrange(0, new@.len() as int) =~= new@);
                    append_range(&mut self.out, content, at, pad.end + 1);
                    self.assigned = self.assigned + 1;
                }
            },
            None => {
                assert(want(w, reference@, state.number) is None);
                if have.len() > 0 {
                    let span = have[0];
                    if let Some(c) = current {
                        if c.as_str().unicode_len() > 0 && !contains_name(
                            &nl.nets,
                            c.as_str(),
                        ) {
                            self.stale.insert(c);
                        }
                    }
                    proof {
                        lemma_cut(s, span.start as int, pad.start as int);
                    }
                    let cut = cut_point(content, span.start);
                    append_range(&mut self.out, content, pad.start, cut);
                    append_range(&mut self.out, content, span.end + 1, pad.end + 1);
                    self.cleared = self.cleared + 1;
                } else {
                    append_range(&mut self.out, content, pad.start, pad.end + 1);
                    self.unchanged = self.unchanged + 1;
                }
            },
        }
        assert(self.out@ =~= old(self).out@ + pad_sync(s, reference@, w)(pad@));
    }

    /// Write the footprint `fp` with its pads on the nets that they should be on.
    fn sync_footprint(&mut self, content: &[char], fp: Span, nl: &Netlist)
        requires
            is_node(content@, fp@),
            old(self).sound(nl@),
            old(self).total() <= fp.start,
        ensures
            final(self).out@ == old(self).out@ + footprint_sync(content@, nl@)(fp@),
            final(self).sound(nl@),
            final(self).total() <= fp.end + 1,
            final(self).states@ == old(self).states@ + footprint_states(node_text(content@, fp@)),
            final(self).seen@ == (match reference_of(node_text(content@, fp@)) {
                Some(reference) => old(self).seen@.insert(reference),
                None => old(self).seen@,
            }),
    {
        let ghost s = content@;
        let ghost w = nl@;
        let ghost b = node_text(s, fp@);
        assert(fp.end < content.len());
        let reference = match footprint_reference(content, fp) {
            Some(reference) => reference,
            None => {
                append_range(&mut self.out, content, fp.start, fp.end + 1);
                assert(self.states@ =~= old(self).states@ + footprint_states(b));
                return;
            },
        };
        self.seen.insert(reference.clone());
        let spans = nodes_at_depth(content, (fp.start, fp.end + 1), "pad", 1);
        let ghost nodes = pads(s, fp@);
        let ghost texts = node_texts(s, nodes);
        let ghost f = pad_sync(s, reference@, w);
        proof {
            lemma_tagged_children(s, fp@, "pad"@);
            lemma_children_laid_out(s, fp@);
            lemma_tagged_laid_out(s, children(s, fp@), "pad"@, fp.start as int, fp.end + 1);
            lemma_children_are_nodes(s, fp@);
            lemma_tagged(s, children(s, fp@), "pad"@);
            assert(nodes.skip(0) =~= nodes);
            assert(texts.take(0) =~= Seq::<Seq<char>>::empty());
            assert(self.states@ =~= old(self).states@ + pad_states(reference@, texts.take(0)));
        }
        let mut pos: usize = fp.start;
        let mut i: usize = 0;
        while i < spans.len()
            invariant
                i <= spans@.len(),
                s == content@,
                w == nl@,
                fp.end < content@.len(),
                nodes == span_nodes(spans@),
                texts == node_texts(s, nodes),
                f == pad_sync(s, reference@, w),
                forall|k: int| 0 <= k < nodes.len() ==> is_node(s, #[trigger] nodes[k]),
                fp.start <= pos <= fp.end + 1,
                laid_out(nodes.skip(i as int), pos as int, fp.end + 1),
                self.sound(w),
                self.total() <= pos,
                self.out@ + patch(s, pos as int, fp.end + 1, nodes.skip(i as int), f) == old(
                    self,
                ).out@ + patch(s, fp.start as int, fp.end + 1, nodes, f),
                self.states@ == old(self).states@ + pad_states(reference@, texts.take(i as int)),
                self.seen@ == old(self).seen@.insert(reference@),
            decreases spans@.len() - i,
        {
            let pad = spans[i];
            let ghost written = self.out@;
            let ghost start = pos as int;
            proof {
                assert(nodes.skip(i as int)[0] == pad@);
                assert(nodes[i as int] == pad@);
                assert(nodes.skip(i as int).skip(1) =~= nodes.skip(i + 1));
                assert(texts.take(i + 1).drop_last() =~= texts.take(i as int));
                assert(texts.take(i + 1).last() == node_text(s, pad@));
                assert(fp.end < content.len());
            }
            self.copy(content, pos, pad.start, Ghost(w));
            self.sync_pad(content, reference.as_str(), pad, nl);
            pos = pad.end + 1;
            i = i + 1;
            proof {
                let rest = patch(s, pos as int, fp.end + 1, nodes.skip(i as int), f);
                let gap = s.subrange(start, pad.start as int);
                assert(self.out@ + rest =~= written + (gap + f(pad@) + rest));
                match state_of(reference@, node_text(s, pad@)) {
                    Some(state) => {
                        assert(self.states@ =~= old(self).states@ + pad_states(
                            reference@,
                            texts.take(i as int),
                        ));
                    },
                    None => {},
                }
            }
        }
        self.copy(content, pos, fp.end + 1, Ghost(w));
        proof {
            assert(nodes.skip(i as int) =~= Seq::<Node>::empty());
            assert(texts.take(i as int) =~= texts);
        }
    }
}

/// Rewrite `board`'s pad net assignments from `netlist`.
///
/// Returns the new file content and a report.
pub fn reconcile(content: &str, nl: &Netlist) -> (res: Result<(String, SyncReport), SyncError>)
    ensures
        match res {
            Ok((text, report)) => {
                &&& !legacy(content@)
                &&& text@ == synced(content@, nl@)
                &&& reports(report, content@, nl@)
            },
            Err(e) => legacy(content@) && e == SyncError::LegacyNetIds,
        },
{
    let chars = to_chars(content);
    let board = chars.as_slice();
    let len = board.len();
    if has_legacy_net_ids(board) {
        return Err(SyncError::LegacyNetIds);
    }
    let ghost s = board@;
    let ghost w = nl@;
    let spans = nodes_at_depth(board, (0, len), "footprint", 1);
    let ghost nodes = footprints(s);
    let ghost texts = footprint_texts(s);
    let ghost f = footprint_sync(s, w);
    let mut progress = Progress {
        out: Vec::new(),
        assigned: 0,
        cleared: 0,
        unchanged: 0,
        seen: NameSet::new(),
        before: NameSet::new(),
        stale: NameSet::new(),
        states: Ghost(Seq::empty()),
    };
    proof {
        let all = nodes_in(s, 0, len as int, 1);
        lemma_nodes_laid_out(s, 0, outside(), 1);
        lemma_tagged_laid_out(s, all, "footprint"@, 0, len as int);
        lemma_nodes_bounds(s, 0, len as int, outside(), 1);
        lemma_tagged(s, all, "footprint"@);
        assert(nodes.skip(0) =~= nodes);
        assert(texts.take(0) =~= Seq::<Seq<char>>::empty());
        assert(progress.out@ + synced(s, w) =~= synced(s, w));
    }
    let mut pos: usize = 0;
    let mut i: usize = 0;
    while i < spans.len()
        invariant
            i <= spans@.len(),
            s == board@,
            w == nl@,
            len == board@.len(),
            nodes == span_nodes(spans@),
            texts == node_texts(s, nodes),
            f == footprint_sync(s, w),
            forall|k: int| 0 <= k < nodes.len() ==> is_node(s, #[trigger] nodes[k]),
            pos <= len,
            laid_out(nodes.skip(i as int), pos as int, len as int),
            progress.sound(w),
            progress.total() <= pos,
            progress.out@ + patch(s, pos as int, len as int, nodes.skip(i as int), f) == synced(
                s,
                w,
            ),
            progress.states@ == block_states(texts.take(i as int)),
            progress.seen@ == block_refs(texts.take(i as int)),
        decreases spans@.len() - i,
    {
        let fp = spans[i];
        let ghost written = progress.out@;
        let ghost start = pos as int;
        proof {
            assert(nodes.skip(i as int)[0] == fp@);
            assert(nodes[i as int] == fp@);
            assert(nodes.skip(i as int).skip(1) =~= nodes.skip(i + 1));
            assert(texts.take(i + 1).drop_last() =~= texts.take(i as int));
            assert(texts.take(i + 1).last() == node_text(s, fp@));
        }
        progress.copy(board, pos, fp.start, Ghost(w));
        progress.sync_footprint(board, fp, nl);
        pos = fp.end + 1;
        i = i + 1;
        proof {
            let rest = patch(s, pos as int, len as int, nodes.skip(i as int), f);
            let gap = s.subrange(start, fp.start as int);
            assert(progress.out@ + rest =~= written + (gap + f(fp@) + rest));
        }
    }
    progress.copy(board, pos, len, Ghost(w));
    proof {
        assert(nodes.skip(i as int) =~= Seq::<Node>::empty());
        assert(texts.take(i as int) =~= texts);
    }
    let extra = progress.seen.difference(&nl.refs);
    let missing = nl.refs.difference(&progress.seen);
    let text = to_text(progress.out.as_slice());
    let report = SyncReport {
        nets_in_schematic: nl.nets.len(),
        nets_on_board_before: progress.before.len(),
        pads_assigned: progress.assigned,
        pads_cleared: progress.cleared,
        pads_unchanged: progress.unchanged,
        extra_footprints: extra,
        missing_footprints: missing,
        stale_nets_removed: progress.stale.into_list(),
    };
    Ok((text, report))
}

} // verus!
