//! What a board says of its pads, and what a sync leaves alone.

use crate::board::{
    block_refs, block_states, board_states, current_names, cut_from, first_quoted, footprint_states,
    footprint_sync, footprint_texts, footprints, gets_net, insert_at, keeps_net, last_leader,
    leads_net, legacy, legacy_at, loses_net, net_of, net_texts, nets, pad_states, pad_sync,
    pad_texts, pads, reference_marker, reference_of, settled, stale_name, stale_names, state_of,
    synced, synced_pad, tally, PadState,
};
use crate::names::ascending;
use crate::netlist::Wiring;
use crate::pcb_laws::lemma_insert_point;
use crate::pcb_sync::{reports, SyncReport};
use crate::scan::{children, node_text, nodes_in, outside, tag_at, Node};
use crate::scan_laws::{law_those_with_a_tag_are_picked};
use crate::structure::{
    is_node, laid_out, lemma_child_is_inside, lemma_children_laid_out, lemma_laid_out_bounds,
    lemma_nodes_laid_out, lemma_tagged, lemma_tagged_children, lemma_tagged_laid_out, node_texts,
    patch,
};
use crate::swap_laws::woven;
use crate::text::{
    first_char, first_match, gap_start, indent, is_white_space, last_char, lemma_first_char,
    lemma_first_match, lemma_gap_start, lemma_last_char, lemma_white_end, occurs_at, views,
};
use vstd::prelude::*;

verus! {

// ─── Readings ────────────────────────────────────────────────────────────────

/// The first quoted text of a block is what stands between its first two quotes.
pub proof fn law_the_first_quoted_text_is_read(head: Seq<char>, text: Seq<char>, rest: Seq<char>)
    requires
        !head.contains('"'),
        !text.contains('"'),
    ensures
        first_quoted(head + seq!['"'] + text + seq!['"'] + rest) == Some(text),
        first_quoted(head) is None,
        first_quoted(head + seq!['"'] + text) is None,
{
    let b = head + seq!['"'] + text + seq!['"'] + rest;
    let q = head.len() as int;
    let end = q + 1 + text.len();
    lemma_first_char(b, 0, b.len() as int, '"');
    assert(b[q] == '"');
    let found = first_char(b, 0, b.len() as int, '"')->0;
    if found < q {
        assert(head[found] == b[found]);
    }
    lemma_first_char(b, q + 1, b.len() as int, '"');
    assert(b[end] == '"');
    let close = first_char(b, q + 1, b.len() as int, '"')->0;
    if close < end {
        assert(text[close - q - 1] == b[close]);
    }
    assert(b.subrange(q + 1, end) =~= text);
    lemma_first_char(head, 0, head.len() as int, '"');
    let c = head + seq!['"'] + text;
    lemma_first_char(c, 0, c.len() as int, '"');
    let open = first_char(c, 0, c.len() as int, '"')->0;
    assert(c[q] == '"');
    if open < q {
        assert(head[open] == c[open]);
    }
    lemma_first_char(c, q + 1, c.len() as int, '"');
    if let Some(k) = first_char(c, q + 1, c.len() as int, '"') {
        assert(text[k - q - 1] == c[k]);
    }
}

/// A footprint is told by the value of its first `Reference` property.
pub proof fn law_a_footprint_is_told_by_its_reference(
    head: Seq<char>,
    reference: Seq<char>,
    rest: Seq<char>,
)
    requires
        !reference.contains('"'),
        forall|k: int|
            0 <= k < head.len() ==> !#[trigger] occurs_at(
                head + "(property \"Reference\" \""@ + reference + seq!['"'] + rest,
                k,
                "(property \"Reference\" \""@,
            ),
    ensures
        reference_of(head + "(property \"Reference\" \""@ + reference + seq!['"'] + rest) == Some(
            reference,
        ),
{
    let marker = "(property \"Reference\" \""@;
    reveal_strlit("(property \"Reference\" \"");
    assert(reference_marker() == marker);
    let b = head + marker + reference + seq!['"'] + rest;
    let m = head.len() as int;
    let at = m + marker.len();
    let end = at + reference.len();
    lemma_first_match(b, 0, b.len() as int, marker);
    assert(b.subrange(m, at) =~= marker);
    assert(occurs_at(b, m, marker));
    assert(first_match(b, 0, b.len() as int, marker) == Some(m));
    lemma_first_char(b, at, b.len() as int, '"');
    assert(b[end] == '"');
    let close = first_char(b, at, b.len() as int, '"')->0;
    if close < end {
        assert(reference[close - at] == b[close]);
    }
    assert(b.subrange(at, end) =~= reference);
}

/// A board is refused exactly where `(net ` is followed by a digit somewhere.
pub proof fn law_numeric_nets_are_refused(s: Seq<char>)
    ensures
        legacy(s) <==> exists|k: int|
            0 <= k && k + 5 < s.len() && #[trigger] s.subrange(k, k + 5) == "(net "@ && '0' <= s[k
                + 5] <= '9',
{
    reveal_strlit("(net ");
    if legacy(s) {
        let k = choose|k: int| #[trigger] legacy_at(s, k);
        assert(s.subrange(k, k + 5) == "(net "@);
    }
    if exists|k: int|
        0 <= k && k + 5 < s.len() && #[trigger] s.subrange(k, k + 5) == "(net "@ && '0' <= s[k + 5]
            <= '9' {
        let k = choose|k: int|
            0 <= k && k + 5 < s.len() && #[trigger] s.subrange(k, k + 5) == "(net "@ && '0' <= s[k
                + 5] <= '9';
        assert(occurs_at(s, k, "(net "@));
        assert(legacy_at(s, k));
    }
}

// ─── Pads ────────────────────────────────────────────────────────────────────

/// A pad with a number is told by its footprint's reference, that number and its net
/// child; one without is not told.
pub proof fn law_a_pad_is_told_by_its_number(reference: Seq<char>, p: Seq<char>)
    ensures
        first_quoted(p) is None ==> pad_states(reference, seq![p]).len() == 0,
        first_quoted(p) matches Some(number) ==> pad_states(reference, seq![p]) == seq![
            PadState { reference, number, net: net_of(p) },
        ],
        pad_states(reference, Seq::<Seq<char>>::empty()).len() == 0,
{
    reveal_with_fuel(pad_states, 2);
    assert(seq![p].drop_last() =~= Seq::<Seq<char>>::empty());
    assert(seq![p].last() == p);
    if first_quoted(p) is Some {
        assert(pad_states(reference, seq![p]) =~= seq![state_of(reference, p)->0]);
    }
}

/// Pads are told in order, all of them: those of two lists are those of the one and
/// then those of the other.
pub proof fn law_pads_are_told_in_order(
    reference: Seq<char>,
    a: Seq<Seq<char>>,
    b: Seq<Seq<char>>,
)
    ensures
        pad_states(reference, a + b) == pad_states(reference, a) + pad_states(reference, b),
    decreases b.len(),
{
    if b.len() == 0 {
        assert(a + b =~= a);
        assert(pad_states(reference, a) + pad_states(reference, b) =~= pad_states(reference, a));
    } else {
        law_pads_are_told_in_order(reference, a, b.drop_last());
        assert((a + b).drop_last() =~= a + b.drop_last());
        assert(pad_states(reference, a + b) =~= pad_states(reference, a) + pad_states(
            reference,
            b,
        ));
    }
}

/// A footprint tells all its pads where it has a reference, and none where it has
/// not.
pub proof fn law_a_footprint_tells_its_pads(b: Seq<char>)
    ensures
        reference_of(b) is None ==> block_states(seq![b]).len() == 0,
        reference_of(b) matches Some(reference) ==> block_states(seq![b]) == pad_states(
            reference,
            pad_texts(b),
        ),
        block_states(Seq::<Seq<char>>::empty()).len() == 0,
{
    reveal_with_fuel(block_states, 2);
    assert(seq![b].drop_last() =~= Seq::<Seq<char>>::empty());
    assert(seq![b].last() == b);
    assert(block_states(seq![b]) =~= footprint_states(b));
}

/// Footprints are told in order, all of them: the pads of two lists are those of the
/// one and then those of the other.
pub proof fn law_footprints_are_told_in_order(a: Seq<Seq<char>>, b: Seq<Seq<char>>)
    ensures
        block_states(a + b) == block_states(a) + block_states(b),
    decreases b.len(),
{
    if b.len() == 0 {
        assert(a + b =~= a);
        assert(block_states(a) + block_states(b) =~= block_states(a));
    } else {
        law_footprints_are_told_in_order(a, b.drop_last());
        assert((a + b).drop_last() =~= a + b.drop_last());
        assert(block_states(a + b) =~= block_states(a) + block_states(b));
    }
}

/// The references of a board are those of its footprints, all of them and no others.
pub proof fn law_every_reference_is_on_the_board(bs: Seq<Seq<char>>, reference: Seq<char>)
    ensures
        block_refs(bs).contains(reference) <==> exists|k: int|
            0 <= k < bs.len() && reference_of(#[trigger] bs[k]) == Some(reference),
        block_refs(bs).finite(),
    decreases bs.len(),
{
    if bs.len() > 0 {
        let front = bs.drop_last();
        law_every_reference_is_on_the_board(front, reference);
        if block_refs(bs).contains(reference) {
            if block_refs(front).contains(reference) {
                let k = choose|k: int|
                    0 <= k < front.len() && reference_of(#[trigger] front[k]) == Some(reference);
                assert(reference_of(bs[k]) == Some(reference));
            } else {
                assert(reference_of(bs[bs.len() - 1]) == Some(reference));
            }
        }
        if exists|k: int| 0 <= k < bs.len() && reference_of(#[trigger] bs[k]) == Some(reference) {
            let k = choose|k: int|
                0 <= k < bs.len() && reference_of(#[trigger] bs[k]) == Some(reference);
            if k < front.len() {
                assert(reference_of(front[k]) == Some(reference));
            }
        }
    }
}

/// Whether a pad's net child names the net.
pub open spec fn is_on_net(st: PadState, name: Seq<char>) -> bool {
    st.net matches Some(child) && first_quoted(child) == Some(name)
}

/// The names on a board are those that its pads' nets give, all of them and no others.
pub proof fn law_every_name_is_on_the_board(states: Seq<PadState>, name: Seq<char>)
    ensures
        current_names(states).contains(name) <==> exists|k: int|
            0 <= k < states.len() && is_on_net(#[trigger] states[k], name),
    decreases states.len(),
{
    if states.len() > 0 {
        let front = states.drop_last();
        law_every_name_is_on_the_board(front, name);
        if current_names(states).contains(name) {
            if current_names(front).contains(name) {
                let k = choose|k: int|
                    0 <= k < front.len() && is_on_net(#[trigger] front[k], name);
                assert(states[k] == front[k]);
            } else {
                assert(states[states.len() - 1].current() == Some(name));
            }
        }
        if exists|k: int|
            0 <= k < states.len() && is_on_net(#[trigger] states[k], name) {
            let k = choose|k: int|
                0 <= k < states.len() && is_on_net(#[trigger] states[k], name);
            assert(states[k].current() == Some(name));
            if k < front.len() {
                assert(front[k] == states[k]);
            }
        }
    }
}

// ─── The report ──────────────────────────────────────────────────────────────

/// A pad is in step exactly where the schematic gives it a net and it has just that
/// one, or gives it none and it has none.
pub proof fn law_what_it_means_to_be_in_step(st: PadState, w: Wiring)
    ensures
        ({
            let pad = (st.reference, st.number);
            &&& settled(st, w) <==> if w.pads.dom().contains(pad) {
                st.net == Some("(net \""@ + w.pads[pad] + "\")"@)
            } else {
                st.net is None
            }
            &&& gets_net(w)(st) <==> w.pads.dom().contains(pad) && st.net != Some(
                "(net \""@ + w.pads[pad] + "\")"@,
            )
            &&& loses_net(w)(st) <==> !w.pads.dom().contains(pad) && st.net is Some
            &&& keeps_net(w)(st) <==> !gets_net(w)(st) && !loses_net(w)(st)
        }),
{
}

/// A count of pads is the number of those it is of.
pub proof fn law_pads_are_counted_one_by_one(states: Seq<PadState>, p: spec_fn(PadState) -> bool)
    ensures
        tally(states, p) == states.filter(p).len(),
    decreases states.len(),
{
    reveal(Seq::filter);
    if states.len() > 0 {
        law_pads_are_counted_one_by_one(states.drop_last(), p);
    }
}

/// Whether the name leaves the pad for good: the pad has it now, gets another net or
/// none, and the schematic does not know the name.
pub open spec fn sheds(st: PadState, w: Wiring, name: Seq<char>) -> bool {
    let pad = (st.reference, st.number);
    &&& st.current() == Some(name)
    &&& !w.nets.contains(name)
    &&& !settled(st, w)
    &&& if w.pads.dom().contains(pad) {
        w.pads[pad] != name
    } else {
        name.len() > 0
    }
}

/// What is reported as stale is every name that leaves a pad for good, and nothing
/// else.
pub proof fn law_every_stale_name_is_reported(states: Seq<PadState>, w: Wiring, name: Seq<char>)
    ensures
        stale_names(states, w).contains(name) <==> exists|k: int|
            0 <= k < states.len() && sheds(#[trigger] states[k], w, name),
    decreases states.len(),
{
    if states.len() > 0 {
        let front = states.drop_last();
        law_every_stale_name_is_reported(front, w, name);
        assert(stale_name(states.last(), w) == Some(name) <==> sheds(states.last(), w, name));
        if stale_names(states, w).contains(name) {
            if stale_names(front, w).contains(name) {
                let k = choose|k: int| 0 <= k < front.len() && sheds(#[trigger] front[k], w, name);
                assert(states[k] == front[k]);
            } else {
                assert(sheds(states[states.len() - 1], w, name));
            }
        }
        if exists|k: int| 0 <= k < states.len() && sheds(#[trigger] states[k], w, name) {
            let k = choose|k: int| 0 <= k < states.len() && sheds(#[trigger] states[k], w, name);
            if k < front.len() {
                assert(front[k] == states[k]);
            }
        }
    }
}

// ─── Where a net child goes ──────────────────────────────────────────────────

/// The children of a pad that come before its net.
pub proof fn law_what_comes_before_a_net(tag: Seq<char>)
    ensures
        leads_net(tag) <==> seq![
            "at"@,
            "size"@,
            "drill"@,
            "property"@,
            "layers"@,
            "roundrect_rratio"@,
            "chamfer_ratio"@,
            "chamfer"@,
            "rect_delta"@,
        ].contains(tag),
{
    let all = seq![
        "at"@,
        "size"@,
        "drill"@,
        "property"@,
        "layers"@,
        "roundrect_rratio"@,
        "chamfer_ratio"@,
        "chamfer"@,
        "rect_delta"@,
    ];
    assert(all[0] == "at"@ && all[1] == "size"@ && all[2] == "drill"@ && all[3] == "property"@
        && all[4] == "layers"@ && all[5] == "roundrect_rratio"@ && all[6] == "chamfer_ratio"@
        && all[7] == "chamfer"@ && all[8] == "rect_delta"@);
    if all.contains(tag) {
        let k = choose|k: int| 0 <= k < all.len() && all[k] == tag;
        assert(all[k] == tag);
    }
}

proof fn lemma_leader(s: Seq<char>, kids: Seq<Node>, k: int)
    requires
        0 <= k < kids.len(),
        leads_net(tag_at(s, kids[k].start)),
        forall|i: int| k < i < kids.len() ==> !leads_net(tag_at(s, (#[trigger] kids[i]).start)),
    ensures
        last_leader(s, kids) == Some(kids[k]),
    decreases kids.len(),
{
    if k < kids.len() - 1 {
        let front = kids.drop_last();
        assert(!leads_net(tag_at(s, kids[kids.len() - 1].start)));
        assert forall|i: int| k < i < front.len() implies !leads_net(
            tag_at(s, (#[trigger] front[i]).start),
        ) by {
            assert(front[i] == kids[i]);
        }
        assert(front[k] == kids[k]);
        lemma_leader(s, front, k);
    }
}

proof fn lemma_no_leader(s: Seq<char>, kids: Seq<Node>)
    requires
        forall|i: int| 0 <= i < kids.len() ==> !leads_net(tag_at(s, (#[trigger] kids[i]).start)),
    ensures
        last_leader(s, kids) is None,
    decreases kids.len(),
{
    if kids.len() > 0 {
        let front = kids.drop_last();
        assert(!leads_net(tag_at(s, kids[kids.len() - 1].start)));
        assert forall|i: int| 0 <= i < front.len() implies !leads_net(
            tag_at(s, (#[trigger] front[i]).start),
        ) by {
            assert(front[i] == kids[i]);
        }
        lemma_no_leader(s, front);
    }
}

/// A pad that has no net gets it behind the last of the children that come before a
/// net, on a line of its own that is indented as that child is. Nothing else of the
/// pad changes.
pub proof fn law_a_missing_net_goes_behind_its_leaders(
    s: Seq<char>,
    pad: Node,
    name: Seq<char>,
    k: int,
)
    requires
        is_node(s, pad),
        nets(s, pad).len() == 0,
        0 <= k < children(s, pad).len(),
        leads_net(tag_at(s, children(s, pad)[k].start)),
        forall|i: int|
            k < i < children(s, pad).len() ==> !leads_net(
                tag_at(s, (#[trigger] children(s, pad)[i]).start),
            ),
    ensures
        ({
            let kid = children(s, pad)[k];
            synced_pad(s, pad, Some(name)) == s.subrange(pad.start, kid.end + 1) + seq!['\n']
                + indent(s, kid.start) + "(net \""@ + name + "\")"@ + s.subrange(
                kid.end + 1,
                pad.end + 1,
            )
        }),
{
    let kid = children(s, pad)[k];
    lemma_leader(s, children(s, pad), k);
    lemma_insert_point(s, pad);
    let goal = s.subrange(pad.start, kid.end + 1) + seq!['\n'] + indent(s, kid.start) + "(net \""@
        + name + "\")"@ + s.subrange(kid.end + 1, pad.end + 1);
    assert(synced_pad(s, pad, Some(name)) =~= goal);
}

/// Without such a child the net goes before the first child there is, or before the
/// closing parenthesis, and there is nothing but white space between.
pub proof fn law_a_missing_net_goes_first(s: Seq<char>, pad: Node, name: Seq<char>) -> (at: int)
    requires
        is_node(s, pad),
        nets(s, pad).len() == 0,
        forall|i: int|
            0 <= i < children(s, pad).len() ==> !leads_net(
                tag_at(s, (#[trigger] children(s, pad)[i]).start),
            ),
    ensures
        ({
            let kids = children(s, pad);
            let next = if kids.len() > 0 {
                kids[0].start
            } else {
                pad.end
            };
            let margin = if kids.len() > 0 {
                indent(s, kids[0].start)
            } else {
                indent(s, pad.start) + seq!['\t']
            };
            &&& pad.start < at <= next
            &&& forall|i: int| at <= i < next ==> is_white_space(#[trigger] s[i])
            &&& at < next ==> s[at] == '\n'
            &&& synced_pad(s, pad, Some(name)) == s.subrange(pad.start, at) + seq!['\n'] + margin
                + "(net \""@ + name + "\")"@ + s.subrange(at, pad.end + 1)
        }),
{
    let kids = children(s, pad);
    let next = if kids.len() > 0 {
        kids[0].start
    } else {
        pad.end
    };
    let margin = if kids.len() > 0 {
        indent(s, kids[0].start)
    } else {
        indent(s, pad.start) + seq!['\t']
    };
    lemma_no_leader(s, kids);
    lemma_insert_point(s, pad);
    lemma_children_laid_out(s, pad);
    if kids.len() > 0 {
        lemma_laid_out_bounds(kids, pad.start, pad.end + 1, 0);
    }
    let at = insert_at(s, pad);
    let gap = gap_start(s, pad.start, next);
    lemma_gap_start(s, pad.start, next);
    lemma_first_char(s, gap, next, '\n');
    assert(indent(s, pad.start).push('\t') =~= indent(s, pad.start) + seq!['\t']);
    let goal = s.subrange(pad.start, at) + seq!['\n'] + margin + "(net \""@ + name + "\")"@
        + s.subrange(at, pad.end + 1);
    assert(synced_pad(s, pad, Some(name)) =~= goal);
    at
}

/// A pad that has a net keeps everything but it: the schematic's net stands in its
/// place. Where the schematic gives none, the net child goes, and with it at most the
/// line break and the white space before it. A pad without a net that should have
/// none stays as it is.
pub proof fn law_a_pad_keeps_all_but_its_net(s: Seq<char>, pad: Node, name: Seq<char>) -> (cut: int)
    requires
        is_node(s, pad),
    ensures
        nets(s, pad).len() == 0 ==> synced_pad(s, pad, None) == node_text(s, pad),
        nets(s, pad).len() > 0 ==> {
            let net = nets(s, pad)[0];
            &&& pad.start < net.start <= net.end <= pad.end
            &&& synced_pad(s, pad, Some(name)) == s.subrange(pad.start, net.start) + "(net \""@
                + name + "\")"@ + s.subrange(net.end + 1, pad.end + 1)
            &&& 0 <= cut <= net.start
            &&& forall|i: int| cut <= i < net.start ==> is_white_space(#[trigger] s[i])
            &&& cut < net.start ==> s[cut] == '\n' && forall|i: int|
                cut < i < net.start ==> #[trigger] s[i] != '\n'
            &&& synced_pad(s, pad, None) == s.subrange(pad.start, cut) + s.subrange(
                net.end + 1,
                pad.end + 1,
            )
        },
{
    if nets(s, pad).len() > 0 {
        let net = nets(s, pad)[0];
        lemma_tagged(s, children(s, pad), "net"@);
        assert(children(s, pad).contains(net));
        let k = choose|k: int| 0 <= k < children(s, pad).len() && children(s, pad)[k] == net;
        lemma_children_laid_out(s, pad);
        lemma_laid_out_bounds(children(s, pad), pad.start, pad.end + 1, k);
        lemma_child_is_inside(s, pad, net);
        let goal = s.subrange(pad.start, net.start) + "(net \""@ + name + "\")"@ + s.subrange(
            net.end + 1,
            pad.end + 1,
        );
        assert(synced_pad(s, pad, Some(name)) =~= goal);
        lemma_last_char(s, 0, net.start, '\n');
        let cut = cut_from(s, net.start);
        if let Some(p) = last_char(s, 0, net.start, '\n') {
            lemma_white_end(s, p + 1, net.start);
        }
        cut
    } else {
        0
    }
}

// ─── What a sync leaves alone ────────────────────────────────────────────────

/// A patched text is the text between the nodes and what is put in their places.
pub proof fn lemma_patch_woven(
    s: Seq<char>,
    i: int,
    hi: int,
    ns: Seq<Node>,
    f: spec_fn(Node) -> Seq<char>,
) -> (pieces: Seq<Seq<char>>)
    requires
        0 <= i,
        hi <= s.len(),
        laid_out(ns, i, hi),
    ensures
        pieces.len() == ns.len() + 1,
        s.subrange(i, hi) == woven(pieces, node_texts(s, ns)),
        patch(s, i, hi, ns, f) == woven(pieces, ns.map_values(f)),
    decreases ns.len(),
{
    if ns.len() == 0 {
        seq![s.subrange(i, hi)]
    } else {
        let n = ns[0];
        let rest = ns.skip(1);
        let behind = lemma_patch_woven(s, n.end + 1, hi, rest, f);
        let pieces = seq![s.subrange(i, n.start)] + behind;
        assert(pieces.skip(1) =~= behind);
        assert(node_texts(s, ns).skip(1) =~= node_texts(s, rest));
        assert(ns.map_values(f).skip(1) =~= rest.map_values(f));
        lemma_laid_out_bounds(ns, i, hi, 0);
        assert(s.subrange(i, hi) =~= s.subrange(i, n.start) + node_text(s, n) + s.subrange(
            n.end + 1,
            hi,
        ));
        pieces
    }
}

/// A sync changes nothing outside footprints: the board before and after is the same
/// text between them, and each footprint stands where it stood.
pub proof fn law_text_between_footprints_stays(s: Seq<char>, w: Wiring) -> (pieces: Seq<Seq<char>>)
    ensures
        pieces.len() == footprints(s).len() + 1,
        s == woven(pieces, footprint_texts(s)),
        synced(s, w) == woven(pieces, footprints(s).map_values(footprint_sync(s, w))),
{
    let all = nodes_in(s, 0, s.len() as int, 1);
    lemma_nodes_laid_out(s, 0, outside(), 1);
    lemma_tagged_laid_out(s, all, "footprint"@, 0, s.len() as int);
    assert(s.subrange(0, s.len() as int) =~= s);
    lemma_patch_woven(s, 0, s.len() as int, footprints(s), footprint_sync(s, w))
}

/// In a footprint a sync changes nothing outside pads, and of each pad that has a
/// number nothing but the net. A footprint without a reference stays as it is.
pub proof fn law_text_between_pads_stays(s: Seq<char>, w: Wiring, fp: Node) -> (pieces: Seq<
    Seq<char>,
>)
    requires
        is_node(s, fp),
    ensures
        pieces.len() == pads(s, fp).len() + 1,
        node_text(s, fp) == woven(pieces, node_texts(s, pads(s, fp))),
        match reference_of(node_text(s, fp)) {
            None => footprint_sync(s, w)(fp) == node_text(s, fp),
            Some(reference) => footprint_sync(s, w)(fp) == woven(
                pieces,
                pads(s, fp).map_values(pad_sync(s, reference, w)),
            ) && forall|k: int|
                0 <= k < pads(s, fp).len() ==> {
                    let pad = #[trigger] pads(s, fp)[k];
                    pad_sync(s, reference, w)(pad) == match first_quoted(node_text(s, pad)) {
                        None => node_text(s, pad),
                        Some(number) => synced_pad(
                            s,
                            pad,
                            if w.pads.dom().contains((reference, number)) {
                                Some(w.pads[(reference, number)])
                            } else {
                                None
                            },
                        ),
                    }
                },
        },
{
    let all = children(s, fp);
    lemma_children_laid_out(s, fp);
    lemma_tagged_laid_out(s, all, "pad"@, fp.start, fp.end + 1);
    let reference = match reference_of(node_text(s, fp)) {
        Some(reference) => reference,
        None => Seq::empty(),
    };
    lemma_patch_woven(s, fp.start, fp.end + 1, pads(s, fp), pad_sync(s, reference, w))
}

/// A report tells the truth: how many nets the schematic has and the board had, how
/// many pads get a net, lose theirs or keep it, which footprints the schematic does
/// not know and which it misses, and which names leave the board.
pub proof fn law_a_report_tells_what_happened(report: SyncReport, s: Seq<char>, w: Wiring)
    requires
        reports(report, s, w),
    ensures
        report.nets_in_schematic == w.nets.len(),
        report.nets_on_board_before == current_names(board_states(s)).len(),
        report.pads_assigned == board_states(s).filter(gets_net(w)).len(),
        report.pads_cleared == board_states(s).filter(loses_net(w)).len(),
        report.pads_unchanged == board_states(s).filter(keeps_net(w)).len(),
        ascending(views(report.extra_footprints@)),
        ascending(views(report.missing_footprints@)),
        ascending(views(report.stale_nets_removed@)),
        forall|reference: Seq<char>| #[trigger]
            views(report.extra_footprints@).contains(reference) <==> block_refs(
                footprint_texts(s),
            ).contains(reference) && !w.refs.contains(reference),
        forall|reference: Seq<char>| #[trigger]
            views(report.missing_footprints@).contains(reference) <==> w.refs.contains(reference)
                && !block_refs(footprint_texts(s)).contains(reference),
        forall|name: Seq<char>| #[trigger]
            views(report.stale_nets_removed@).contains(name) <==> stale_names(
                board_states(s),
                w,
            ).contains(name),
{
    law_pads_are_counted_one_by_one(board_states(s), gets_net(w));
    law_pads_are_counted_one_by_one(board_states(s), loses_net(w));
    law_pads_are_counted_one_by_one(board_states(s), keeps_net(w));
    let on_board = block_refs(footprint_texts(s));
    assert forall|r: Seq<char>| #[trigger]
        views(report.extra_footprints@).contains(r) == on_board.difference(w.refs).contains(r) by {
        assert(views(report.extra_footprints@).to_set().contains(r) == on_board.difference(
            w.refs,
        ).contains(r));
    }
    assert forall|r: Seq<char>| #[trigger]
        views(report.missing_footprints@).contains(r) == w.refs.difference(on_board).contains(
        r,
    ) by {
        assert(views(report.missing_footprints@).to_set().contains(r) == w.refs.difference(
            on_board,
        ).contains(r));
    }
    assert forall|r: Seq<char>| #[trigger]
        views(report.stale_nets_removed@).contains(r) == stale_names(board_states(s), w).contains(
        r,
    ) by {
        assert(views(report.stale_nets_removed@).to_set().contains(r) == stale_names(
            board_states(s),
            w,
        ).contains(r));
    }
}

// ─── The lists of a board ────────────────────────────────────────────────────

/// A board's footprints are the lists directly in it with that tag, a footprint's
/// pads the lists directly in it, and a pad's nets likewise, all of them and in
/// order.
pub proof fn law_footprints_pads_and_nets(s: Seq<char>, n: Node)
    ensures
        footprints(s) == nodes_in(s, 0, s.len() as int, 1).filter(
            |m: Node| tag_at(s, m.start) == "footprint"@,
        ),
        pads(s, n) == nodes_in(s, n.start, n.end + 1, 1).filter(
            |m: Node| tag_at(s, m.start) == "pad"@,
        ),
        nets(s, n) == nodes_in(s, n.start, n.end + 1, 1).filter(
            |m: Node| tag_at(s, m.start) == "net"@,
        ),
{
    law_those_with_a_tag_are_picked(s, nodes_in(s, 0, s.len() as int, 1), "footprint"@);
    law_those_with_a_tag_are_picked(s, nodes_in(s, n.start, n.end + 1, 1), "pad"@);
    law_those_with_a_tag_are_picked(s, nodes_in(s, n.start, n.end + 1, 1), "net"@);
}

/// What is read off the text of a footprint or a pad is what stands in it: the texts
/// of its pads, in order, and the text of its first net.
pub proof fn law_blocks_tell_their_lists(s: Seq<char>, n: Node)
    requires
        is_node(s, n),
    ensures
        pad_texts(node_text(s, n)).len() == pads(s, n).len(),
        forall|k: int|
            0 <= k < pads(s, n).len() ==> #[trigger] pad_texts(node_text(s, n))[k] == node_text(
                s,
                pads(s, n)[k],
            ),
        nets(s, n).len() == 0 ==> net_of(node_text(s, n)) is None,
        nets(s, n).len() > 0 ==> net_of(node_text(s, n)) == Some(node_text(s, nets(s, n)[0])),
{
    lemma_tagged_children(s, n, "pad"@);
    lemma_tagged_children(s, n, "net"@);
    assert(pad_texts(node_text(s, n)) == node_texts(s, pads(s, n)));
    assert(net_texts(node_text(s, n)) == node_texts(s, nets(s, n)));
}

} // verus!
