//! What a board says about its pads' nets, and what it says once they are the
//! schematic's.

use crate::netlist::Wiring;
use crate::scan::{children, node_text, nodes_in, tag_at, tagged, Node};
use crate::structure::{node_texts, patch};
use crate::text::{first_char, first_match, gap_start, indent, last_char, occurs_at, white_end};
use vstd::prelude::*;

verus! {

// ─── Readings ────────────────────────────────────────────────────────────────

/// The first quoted token in `b`. A pad's number and a net's name are read this
/// way.
pub open spec fn first_quoted(b: Seq<char>) -> Option<Seq<char>> {
    match first_char(b, 0, b.len() as int, '"') {
        Some(q) => match first_char(b, q + 1, b.len() as int, '"') {
            Some(end) => Some(b.subrange(q + 1, end)),
            None => None,
        },
        None => None,
    }
}

/// What a footprint's `Reference` property starts with.
pub open spec fn reference_marker() -> Seq<char> {
    "(property \"Reference\" \""@
}

/// The `Reference` property of a footprint block.
pub open spec fn reference_of(b: Seq<char>) -> Option<Seq<char>> {
    match first_match(b, 0, b.len() as int, reference_marker()) {
        Some(m) => {
            let at = m + reference_marker().len();
            match first_char(b, at, b.len() as int, '"') {
                Some(end) => Some(b.subrange(at, end)),
                None => None,
            }
        },
        None => None,
    }
}

/// Whether `(net `, followed by a digit, stands at `at`.
pub open spec fn legacy_at(s: Seq<char>, at: int) -> bool {
    &&& occurs_at(s, at, "(net "@)
    &&& at + 5 < s.len()
    &&& '0' <= s[at + 5] <= '9'
}

/// Whether the file uses KiCad 9's `(net <id> "name")` form anywhere.
pub open spec fn legacy(s: Seq<char>) -> bool {
    exists|at: int| #[trigger] legacy_at(s, at)
}

/// The footprints of a board.
pub open spec fn footprints(s: Seq<char>) -> Seq<Node> {
    tagged(s, nodes_in(s, 0, s.len() as int, 1), "footprint"@)
}

/// The pads of a footprint.
pub open spec fn pads(s: Seq<char>, fp: Node) -> Seq<Node> {
    tagged(s, children(s, fp), "pad"@)
}

/// The net children of a pad. A pad that is on a net has one.
pub open spec fn nets(s: Seq<char>, pad: Node) -> Seq<Node> {
    tagged(s, children(s, pad), "net"@)
}

/// The texts of a board's footprints.
pub open spec fn footprint_texts(s: Seq<char>) -> Seq<Seq<char>> {
    node_texts(s, footprints(s))
}

/// The texts of a footprint block's pads.
pub open spec fn pad_texts(b: Seq<char>) -> Seq<Seq<char>> {
    node_texts(b, tagged(b, nodes_in(b, 0, b.len() as int, 1), "pad"@))
}

/// The texts of a pad block's net children.
pub open spec fn net_texts(p: Seq<char>) -> Seq<Seq<char>> {
    node_texts(p, tagged(p, nodes_in(p, 0, p.len() as int, 1), "net"@))
}

/// The text of a pad block's net child.
pub open spec fn net_of(p: Seq<char>) -> Option<Seq<char>> {
    if net_texts(p).len() > 0 {
        Some(net_texts(p)[0])
    } else {
        None
    }
}

// ─── A board's pads ──────────────────────────────────────────────────────────

/// A pad that can be told by its footprint's reference and its own number, and
/// its net child.
pub ghost struct PadState {
    pub reference: Seq<char>,
    pub number: Seq<char>,
    pub net: Option<Seq<char>>,
}

impl PadState {
    /// The name that its net child gives.
    pub open spec fn current(self) -> Option<Seq<char>> {
        match self.net {
            Some(child) => first_quoted(child),
            None => None,
        }
    }
}

/// What the pad block `p` of the footprint `reference` shows.
pub open spec fn state_of(reference: Seq<char>, p: Seq<char>) -> Option<PadState> {
    match first_quoted(p) {
        Some(number) => Some(PadState { reference, number, net: net_of(p) }),
        None => None,
    }
}

/// What the pad blocks `ps` of the footprint `reference` show.
pub open spec fn pad_states(reference: Seq<char>, ps: Seq<Seq<char>>) -> Seq<PadState>
    decreases ps.len(),
{
    if ps.len() == 0 {
        Seq::empty()
    } else {
        let front = pad_states(reference, ps.drop_last());
        match state_of(reference, ps.last()) {
            Some(state) => front.push(state),
            None => front,
        }
    }
}

/// What the pads of the footprint block `b` show.
pub open spec fn footprint_states(b: Seq<char>) -> Seq<PadState> {
    match reference_of(b) {
        Some(reference) => pad_states(reference, pad_texts(b)),
        None => Seq::empty(),
    }
}

/// What the pads of the footprint blocks `bs` show.
pub open spec fn block_states(bs: Seq<Seq<char>>) -> Seq<PadState>
    decreases bs.len(),
{
    if bs.len() == 0 {
        Seq::empty()
    } else {
        block_states(bs.drop_last()) + footprint_states(bs.last())
    }
}

/// What the pads of a board show, in file order.
pub open spec fn board_states(s: Seq<char>) -> Seq<PadState> {
    block_states(footprint_texts(s))
}

/// The references of the footprint blocks `bs`.
pub open spec fn block_refs(bs: Seq<Seq<char>>) -> Set<Seq<char>>
    decreases bs.len(),
{
    if bs.len() == 0 {
        Set::empty()
    } else {
        let front = block_refs(bs.drop_last());
        match reference_of(bs.last()) {
            Some(reference) => front.insert(reference),
            None => front,
        }
    }
}

// ─── What the schematic wants ────────────────────────────────────────────────

/// The net that the schematic gives a pad.
pub open spec fn want(w: Wiring, reference: Seq<char>, number: Seq<char>) -> Option<Seq<char>> {
    if w.pads.dom().contains((reference, number)) {
        Some(w.pads[(reference, number)])
    } else {
        None
    }
}

/// A net child: `(net "name")`.
pub open spec fn net_child(name: Seq<char>) -> Seq<char> {
    "(net \""@ + name + "\")"@
}

/// The net child that the schematic gives a pad.
pub open spec fn wanted_child(w: Wiring, reference: Seq<char>, number: Seq<char>) -> Option<
    Seq<char>,
> {
    match want(w, reference, number) {
        Some(name) => Some(net_child(name)),
        None => None,
    }
}

/// Whether a pad's net is the schematic's.
pub open spec fn settled(st: PadState, w: Wiring) -> bool {
    st.net == wanted_child(w, st.reference, st.number)
}

/// Whether every pad's net is the schematic's.
pub open spec fn in_step(s: Seq<char>, w: Wiring) -> bool {
    forall|k: int| 0 <= k < board_states(s).len() ==> settled(#[trigger] board_states(s)[k], w)
}

/// The pad with the schematic's net.
pub open spec fn settle(w: Wiring) -> spec_fn(PadState) -> PadState {
    |st: PadState| PadState { net: wanted_child(w, st.reference, st.number), ..st }
}

// ─── Where a net child goes ──────────────────────────────────────────────────

/// The pad children KiCad's writer emits *before* `(net …)`.
pub open spec fn leads_net(tag: Seq<char>) -> bool {
    ||| tag == "at"@
    ||| tag == "size"@
    ||| tag == "drill"@
    ||| tag == "property"@
    ||| tag == "layers"@
    ||| tag == "roundrect_rratio"@
    ||| tag == "chamfer_ratio"@
    ||| tag == "chamfer"@
    ||| tag == "rect_delta"@
}

/// The last of `kids` that KiCad writes before the net.
pub open spec fn last_leader(s: Seq<char>, kids: Seq<Node>) -> Option<Node>
    decreases kids.len(),
{
    if kids.len() == 0 {
        None
    } else if leads_net(tag_at(s, kids.last().start)) {
        Some(kids.last())
    } else {
        last_leader(s, kids.drop_last())
    }
}

/// The place of a node that starts at `at`: the first line break in the white
/// space before it, down to `floor`, else `at` itself.
pub open spec fn place_before(s: Seq<char>, floor: int, at: int) -> int {
    match first_char(s, gap_start(s, floor, at), at, '\n') {
        Some(p) => p,
        None => at,
    }
}

/// Where a missing net child belongs inside `pad`: behind the last child that
/// KiCad writes before the net, else in the place of the first child.
pub open spec fn insert_at(s: Seq<char>, pad: Node) -> int {
    let kids = children(s, pad);
    match last_leader(s, kids) {
        Some(kid) => kid.end + 1,
        None => place_before(
            s,
            pad.start,
            if kids.len() > 0 {
                kids[0].start
            } else {
                pad.end
            },
        ),
    }
}

/// The indentation of a net child that is put into `pad`.
pub open spec fn insert_indent(s: Seq<char>, pad: Node) -> Seq<char> {
    let kids = children(s, pad);
    match last_leader(s, kids) {
        Some(kid) => indent(s, kid.start),
        None => if kids.len() > 0 {
            indent(s, kids[0].start)
        } else {
            indent(s, pad.start).push('\t')
        },
    }
}

/// Where to cut from when the child at `at` goes: from the line break before it,
/// if only white space stands between, so that no blank line is left.
pub open spec fn cut_from(s: Seq<char>, at: int) -> int {
    match last_char(s, 0, at, '\n') {
        Some(p) if white_end(s, p + 1, at) == at => p,
        _ => at,
    }
}

// ─── The update ──────────────────────────────────────────────────────────────

/// The text of `pad` once it has the net that it should have.
pub open spec fn synced_pad(s: Seq<char>, pad: Node, wanted: Option<Seq<char>>) -> Seq<char> {
    let have = nets(s, pad);
    let behind = pad.end + 1;
    match wanted {
        Some(name) => if have.len() > 0 {
            s.subrange(pad.start, have[0].start) + net_child(name) + s.subrange(
                have[0].end + 1,
                behind,
            )
        } else {
            let at = insert_at(s, pad);
            s.subrange(pad.start, at) + (seq!['\n'] + insert_indent(s, pad) + net_child(name))
                + s.subrange(at, behind)
        },
        None => if have.len() > 0 {
            s.subrange(pad.start, cut_from(s, have[0].start)) + s.subrange(
                have[0].end + 1,
                behind,
            )
        } else {
            node_text(s, pad)
        },
    }
}

/// The text of each pad of the footprint `reference` once it has the net that
/// it should have.
pub open spec fn pad_sync(s: Seq<char>, reference: Seq<char>, w: Wiring) -> spec_fn(Node) -> Seq<
    char,
> {
    |pad: Node|
        match first_quoted(node_text(s, pad)) {
            Some(number) => synced_pad(s, pad, want(w, reference, number)),
            None => node_text(s, pad),
        }
}

/// The text of each footprint once its pads have the nets that they should have.
pub open spec fn footprint_sync(s: Seq<char>, w: Wiring) -> spec_fn(Node) -> Seq<char> {
    |fp: Node|
        match reference_of(node_text(s, fp)) {
            Some(reference) => patch(
                s,
                fp.start,
                fp.end + 1,
                pads(s, fp),
                pad_sync(s, reference, w),
            ),
            None => node_text(s, fp),
        }
}

/// The board once its pads have the nets that they should have. Text outside
/// pads stays as it is.
pub open spec fn synced(s: Seq<char>, w: Wiring) -> Seq<char> {
    patch(s, 0, s.len() as int, footprints(s), footprint_sync(s, w))
}

// ─── The report ──────────────────────────────────────────────────────────────

/// How many of `states` have the property `p`.
pub open spec fn tally(states: Seq<PadState>, p: spec_fn(PadState) -> bool) -> nat
    decreases states.len(),
{
    if states.len() == 0 {
        0
    } else {
        tally(states.drop_last(), p) + if p(states.last()) {
            1nat
        } else {
            0nat
        }
    }
}

/// The pads that get a net, or another one.
pub open spec fn gets_net(w: Wiring) -> spec_fn(PadState) -> bool {
    |st: PadState| want(w, st.reference, st.number) is Some && !settled(st, w)
}

/// The pads that lose their net.
pub open spec fn loses_net(w: Wiring) -> spec_fn(PadState) -> bool {
    |st: PadState| want(w, st.reference, st.number) is None && !settled(st, w)
}

/// The pads that stay as they are.
pub open spec fn keeps_net(w: Wiring) -> spec_fn(PadState) -> bool {
    |st: PadState| settled(st, w)
}

/// The names that `states` carry.
pub open spec fn current_names(states: Seq<PadState>) -> Set<Seq<char>>
    decreases states.len(),
{
    if states.len() == 0 {
        Set::empty()
    } else {
        let front = current_names(states.drop_last());
        match states.last().current() {
            Some(name) => front.insert(name),
            None => front,
        }
    }
}

/// The name that leaves a pad when it gets the schematic's net, where it is a
/// name that the schematic does not mention.
pub open spec fn stale_name(st: PadState, w: Wiring) -> Option<Seq<char>> {
    if settled(st, w) {
        None
    } else {
        match (want(w, st.reference, st.number), st.current()) {
            (Some(name), Some(current)) if current != name && !w.nets.contains(current) => Some(
                current,
            ),
            (None, Some(current)) if current.len() > 0 && !w.nets.contains(current) => Some(
                current,
            ),
            _ => None,
        }
    }
}

/// The names that leave the pads of `states` and that the schematic does not
/// mention.
pub open spec fn stale_names(states: Seq<PadState>, w: Wiring) -> Set<Seq<char>>
    decreases states.len(),
{
    if states.len() == 0 {
        Set::empty()
    } else {
        let front = stale_names(states.drop_last(), w);
        match stale_name(states.last(), w) {
            Some(name) => front.insert(name),
            None => front,
        }
    }
}

} // verus!
