//! What a sync promises of a board as a whole.

use crate::board::{
    block_refs, block_states, board_states, current_names, cut_from, first_quoted, footprint_states,
    footprint_sync, footprint_texts, footprints, gets_net, in_step, insert_at, insert_indent,
    keeps_net, last_leader, legacy, legacy_at, loses_net, net_child, net_of, net_texts, nets,
    pad_states, pad_sync, pad_texts, pads, reference_marker, reference_of, settle, settled,
    stale_name, stale_names, state_of, synced, synced_pad, tally, want, PadState,
};
use crate::netlist::Wiring;
use crate::pcb_sync::lemma_cut;
use crate::scan::{
    children, node_text, nodes_in, outside, run, step, tag_at, tag_end, tagged, Lex, Node,
};
use crate::structure::{
    child_texts, ends_tag, inside, is_blank, is_block, is_level, is_node, laid_out,
    lemma_blank_is_level, lemma_block, lemma_block_is_level, lemma_child_is_inside,
    lemma_children_are_nodes, lemma_children_laid_out, lemma_children_of_text, lemma_close_from,
    lemma_exchange, lemma_first_tagged, lemma_laid_out_bounds, lemma_level_concat,
    lemma_node_is_block, lemma_node_state, lemma_nodes_bounds, lemma_nodes_laid_out,
    lemma_patch_block, lemma_patch_identity, lemma_patch_same, lemma_patch_shift, lemma_patch_tag,
    lemma_patch_tagged, lemma_patch_top, lemma_run_block, lemma_run_front, lemma_run_same,
    lemma_run_split, lemma_run_wellformed, lemma_tag_end, lemma_tag_is, lemma_tag_of_node,
    lemma_tagged, lemma_tagged_children, lemma_tagged_keeps, lemma_tagged_laid_out,
    lemma_texts_concat, lemma_with_tag_concat, lemma_with_tag_map, lemma_with_tag_nodes, node_texts,
    only_tagged, patch, shift, shifted, texts_from, unquoted, with_tag,
};
use crate::text::{
    first_char, first_match, gap_start, is_white_space, lemma_first_char, lemma_first_match,
    lemma_gap_start, lemma_indent_is_blank, occurs_at,
};
use vstd::prelude::*;
use vstd::set_lib::lemma_len_subset;

verus! {

// ─── One pad ─────────────────────────────────────────────────────────────────

/// A net child has the tag `net`.
proof fn lemma_net_child(name: Seq<char>)
    ensures
        tag_at(net_child(name), 0) == "net"@,
        net_child(name).len() == name.len() + 8,
{
    reveal_strlit("(net \"");
    reveal_strlit("\")");
    reveal_strlit("net");
    let c = net_child(name);
    assert(c[0] == '(' && c[1] == 'n' && c[2] == 'e' && c[3] == 't' && c[4] == ' ');
    lemma_tag_is(c, 0, 4);
    assert(c.subrange(1, 4) =~= "net"@);
}

/// White space cannot lead out of a string.
proof fn lemma_blank_back(l: Lex, u: Seq<char>)
    requires
        is_blank(u),
        l.escaped ==> l.quoted,
        unquoted(run(l, u, 0, u.len() as int)),
    ensures
        run(l, u, 0, u.len() as int) == l,
    decreases u.len(),
{
    if u.len() > 0 {
        assert(is_white_space(u[0]));
        lemma_run_front(l, u, 0, u.len() as int);
        let rest = u.skip(1);
        assert(u.subrange(1, u.len() as int) =~= rest.subrange(0, rest.len() as int));
        lemma_run_same(step(l, u[0]), u, 1, u.len() as int, rest, 0);
        assert forall|k: int| 0 <= k < rest.len() implies is_white_space(#[trigger] rest[k]) by {
            assert(rest[k] == u[k + 1]);
        }
        lemma_blank_back(step(l, u[0]), rest);
    }
}

/// Before white space between children the scanner stands between children too.
proof fn lemma_before_blank(p: Seq<char>, a: int, b: int)
    requires
        0 <= a <= b <= p.len(),
        run(outside(), p, 0, b) == inside(),
        forall|k: int| a <= k < b ==> is_white_space(#[trigger] p[k]),
    ensures
        run(outside(), p, 0, a) == inside(),
        is_blank(p.subrange(a, b)),
{
    let u = p.subrange(a, b);
    assert forall|k: int| 0 <= k < u.len() implies is_white_space(#[trigger] u[k]) by {
        assert(u[k] == p[a + k]);
    }
    let l = run(outside(), p, 0, a);
    lemma_run_split(outside(), p, 0, a, b);
    assert(p.subrange(a, b) =~= u.subrange(0, u.len() as int));
    lemma_run_same(l, p, a, b, u, 0);
    lemma_run_wellformed(outside(), p, 0, a);
    lemma_blank_back(l, u);
}

/// Picking a pad's net children by their texts.
proof fn lemma_net_texts(p: Seq<char>)
    requires
        is_block(p),
    ensures
        net_texts(p) == with_tag(child_texts(p), "net"@),
{
    lemma_nodes_bounds(p, 0, p.len() as int, outside(), 1);
    lemma_with_tag_nodes(p, nodes_in(p, 0, p.len() as int, 1), "net"@);
}

proof fn lemma_one_tagged(b: Seq<char>, tag: Seq<char>)
    ensures
        with_tag(seq![b], tag) == if tag_at(b, 0) == tag {
            seq![b]
        } else {
            Seq::empty()
        },
{
    assert(seq![b].skip(1) =~= Seq::<Seq<char>>::empty());
    assert(with_tag(seq![b].skip(1), tag) =~= Seq::<Seq<char>>::empty());
    assert(seq![b] + Seq::<Seq<char>>::empty() =~= seq![b]);
}

/// Exchanging the white space before a pad's first net child and that child for
/// level text puts what that text holds in the child's place.
proof fn lemma_pad_exchange(p: Seq<char>, cut: int, v: Seq<char>)
    requires
        is_block(p),
        net_texts(p).len() > 0,
        is_level(v),
        ({
            let n = tagged(p, nodes_in(p, 0, p.len() as int, 1), "net"@)[0];
            &&& 0 < cut <= n.start
            &&& forall|k: int| cut <= k < n.start ==> is_white_space(#[trigger] p[k])
        }),
    ensures
        ({
            let n = tagged(p, nodes_in(p, 0, p.len() as int, 1), "net"@)[0];
            let q = p.take(cut) + v + p.skip(n.end + 1);
            &&& is_block(q)
            &&& net_texts(q) == with_tag(texts_from(v, inside(), 1), "net"@) + net_texts(p).skip(1)
        }),
{
    let tag = "net"@;
    let n = tagged(p, nodes_in(p, 0, p.len() as int, 1), tag)[0];
    lemma_first_tagged(p, tag);
    lemma_before_blank(p, cut, n.start);
    let x = p.take(cut);
    let blank = p.subrange(cut, n.start);
    let child = node_text(p, n);
    let y = p.skip(n.end + 1);
    let u = blank + child;
    let q = x + v + y;
    lemma_tag_of_node(p, n);
    lemma_blank_is_level(blank);
    lemma_block_is_level(child);
    lemma_level_concat(blank, child);
    assert(x + u + y =~= p);
    assert(p.subrange(0, cut) =~= x.subrange(0, cut));
    lemma_run_same(outside(), p, 0, cut, x, 0);
    lemma_exchange(x, u, y, v);
    // No net child stands before.
    assert(x + blank =~= p.take(n.start));
    lemma_texts_concat(outside(), x, blank, 1);
    assert(child_texts(p.take(n.start)) =~= child_texts(x));
    // Picking by tag.
    lemma_net_texts(p);
    lemma_net_texts(q);
    let cx = child_texts(x);
    let cy = texts_from(y, inside(), 1);
    let tv = texts_from(v, inside(), 1);
    assert(texts_from(u, inside(), 1) =~= seq![child]);
    lemma_with_tag_concat(cx + seq![child], cy, tag);
    lemma_with_tag_concat(cx, seq![child], tag);
    lemma_one_tagged(child, tag);
    lemma_with_tag_concat(cx + tv, cy, tag);
    lemma_with_tag_concat(cx, tv, tag);
    assert(net_texts(p) =~= seq![child] + with_tag(cy, tag));
    assert(net_texts(p).skip(1) =~= with_tag(cy, tag));
    assert(net_texts(q) =~= with_tag(tv, tag) + with_tag(cy, tag));
}

/// Putting level text between the children of a pad without a net child adds
/// what that text holds.
proof fn lemma_pad_insert(p: Seq<char>, at: int, v: Seq<char>)
    requires
        is_block(p),
        net_texts(p).len() == 0,
        0 < at <= p.len(),
        run(outside(), p, 0, at) == inside(),
        is_level(v),
    ensures
        is_block(p.take(at) + v + p.skip(at)),
        net_texts(p.take(at) + v + p.skip(at)) == with_tag(texts_from(v, inside(), 1), "net"@),
{
    let tag = "net"@;
    let x = p.take(at);
    let u = Seq::<char>::empty();
    let y = p.skip(at);
    let q = x + v + y;
    lemma_blank_is_level(u);
    assert(x + u + y =~= p);
    assert(p.subrange(0, at) =~= x.subrange(0, at));
    lemma_run_same(outside(), p, 0, at, x, 0);
    lemma_exchange(x, u, y, v);
    lemma_net_texts(p);
    lemma_net_texts(q);
    let cx = child_texts(x);
    let cy = texts_from(y, inside(), 1);
    let tv = texts_from(v, inside(), 1);
    let none = Seq::<Seq<char>>::empty();
    assert(cx + none =~= cx);
    lemma_with_tag_concat(cx, cy, tag);
    lemma_with_tag_concat(cx + tv, cy, tag);
    lemma_with_tag_concat(cx, tv, tag);
    assert(with_tag(cx, tag) =~= none);
    assert(with_tag(cy, tag) =~= none);
    assert(net_texts(q) =~= with_tag(tv, tag));
}

proof fn lemma_last_leader(s: Seq<char>, kids: Seq<Node>)
    ensures
        last_leader(s, kids) matches Some(kid) ==> kids.contains(kid),
    decreases kids.len(),
{
    if kids.len() > 0 {
        lemma_last_leader(s, kids.drop_last());
        if last_leader(s, kids) is Some && last_leader(s, kids) != Some(kids.last()) {
            let k = choose|k: int|
                0 <= k < kids.drop_last().len() && kids.drop_last()[k] == last_leader(s, kids)->0;
            assert(kids[k] == last_leader(s, kids)->0);
        }
    }
}

/// At a pad's children, and at its closing parenthesis, the scanner stands
/// between children.
proof fn lemma_pad_states(s: Seq<char>, pad: Node)
    requires
        is_node(s, pad),
    ensures
        forall|k: int|
            0 <= k < children(s, pad).len() ==> {
                let kid = #[trigger] children(s, pad)[k];
                &&& is_node(s, kid)
                &&& pad.start < kid.start
                &&& kid.end <= pad.end
                &&& run(outside(), s, pad.start, kid.start) == inside()
                &&& run(outside(), s, pad.start, kid.end + 1) == inside()
            },
        run(outside(), s, pad.start, pad.end) == inside(),
{
    let kids = children(s, pad);
    lemma_children_are_nodes(s, pad);
    lemma_children_laid_out(s, pad);
    assert forall|k: int| 0 <= k < kids.len() implies {
        let kid = #[trigger] kids[k];
        &&& is_node(s, kid)
        &&& pad.start < kid.start
        &&& kid.end <= pad.end
        &&& run(outside(), s, pad.start, kid.start) == inside()
        &&& run(outside(), s, pad.start, kid.end + 1) == inside()
    } by {
        let kid = kids[k];
        lemma_laid_out_bounds(kids, pad.start, pad.end + 1, k);
        assert(kids.contains(kid));
        lemma_child_is_inside(s, pad, kid);
        lemma_node_state(s, pad.start, pad.end + 1, outside(), 1, k);
        lemma_node_is_block(s, kid.start, kid.end);
        lemma_run_block(inside(), s, kid.start, node_text(s, kid));
        lemma_run_split(outside(), s, pad.start, kid.start, kid.end + 1);
    }
    let l = step(outside(), s[pad.start]);
    lemma_close_from(s, pad.start + 1, l);
    lemma_run_front(outside(), s, pad.start, pad.end);
    lemma_run_wellformed(outside(), s, pad.start, pad.end);
}

/// A missing net child goes between a pad's children, behind white space.
pub proof fn lemma_insert_point(s: Seq<char>, pad: Node)
    requires
        is_node(s, pad),
    ensures
        pad.start < insert_at(s, pad) <= pad.end,
        run(outside(), s, pad.start, insert_at(s, pad)) == inside(),
        is_blank(insert_indent(s, pad)),
{
    let a = pad.start;
    let kids = children(s, pad);
    let at = insert_at(s, pad);
    lemma_pad_states(s, pad);
    lemma_last_leader(s, kids);
    match last_leader(s, kids) {
        Some(kid) => {
            let k = choose|k: int| 0 <= k < kids.len() && kids[k] == kid;
            assert(is_node(s, kids[k]));
            lemma_indent_is_blank(s, kid.start);
            lemma_block(s, pad.start, pad.end, outside());
            assert(run(outside(), s, pad.start, pad.end + 1) == outside());
        },
        None => {
            let limit = if kids.len() > 0 {
                kids[0].start
            } else {
                pad.end
            };
            lemma_gap_start(s, a, limit);
            lemma_first_char(s, gap_start(s, a, limit), limit, '\n');
            if kids.len() > 0 {
                lemma_indent_is_blank(s, kids[0].start);
            } else {
                lemma_indent_is_blank(s, a);
            }
            assert(a < at <= limit);
            lemma_between(s, pad, at, limit);
        },
    }
}

/// A pad that was written has the net child that it should have.
pub proof fn lemma_synced_pad(s: Seq<char>, pad: Node, wanted: Option<Seq<char>>)
    requires
        is_node(s, pad),
        wanted matches Some(name) ==> is_block(net_child(name)),
    ensures
        is_block(synced_pad(s, pad, wanted)),
        wanted matches Some(name) ==> net_of(synced_pad(s, pad, wanted)) == Some(net_child(name)),
        wanted is None && nets(s, pad).len() <= 1 ==> net_of(synced_pad(s, pad, wanted)) is None,
{
    let p = node_text(s, pad);
    let a = pad.start;
    let tag = "net"@;
    let have = nets(s, pad);
    let inner = tagged(p, nodes_in(p, 0, p.len() as int, 1), tag);
    lemma_tagged_children(s, pad, tag);
    assert(have == shift(inner, a));
    if have.len() > 0 {
        let n = inner[0];
        assert(have[0] == shifted(n, a));
        lemma_first_tagged(p, tag);
        assert(net_texts(p).len() == have.len());
        match wanted {
            Some(name) => {
                let v = net_child(name);
                lemma_net_child(name);
                lemma_block_is_level(v);
                lemma_pad_exchange(p, n.start, v);
                lemma_one_tagged(v, tag);
                assert(synced_pad(s, pad, wanted) =~= p.take(n.start) + v + p.skip(n.end + 1));
            },
            None => {
                let v = Seq::<char>::empty();
                let cut = cut_from(s, have[0].start);
                lemma_cut(s, have[0].start, a);
                assert forall|k: int| cut - a <= k < n.start implies is_white_space(
                    #[trigger] p[k],
                ) by {
                    assert(p[k] == s[a + k]);
                }
                lemma_blank_is_level(v);
                lemma_pad_exchange(p, cut - a, v);
                assert(synced_pad(s, pad, wanted) =~= p.take(cut - a) + v + p.skip(n.end + 1));
            },
        }
    } else {
        assert(net_texts(p).len() == 0);
        match wanted {
            Some(name) => {
                let at = insert_at(s, pad);
                let margin = insert_indent(s, pad);
                lemma_insert_point(s, pad);
                let gap = seq!['\n'] + margin;
                let child = net_child(name);
                let v = gap + child;
                assert(is_blank(gap));
                lemma_net_child(name);
                lemma_blank_is_level(gap);
                lemma_block_is_level(child);
                lemma_level_concat(gap, child);
                assert(texts_from(v, inside(), 1) =~= seq![child]);
                lemma_one_tagged(child, tag);
                assert(s.subrange(a, at) =~= p.subrange(0, at - a));
                lemma_run_same(outside(), s, a, at, p, 0);
                lemma_pad_insert(p, at - a, v);
                assert(synced_pad(s, pad, wanted) =~= p.take(at - a) + v + p.skip(at - a));
            },
            None => {},
        }
    }
}

/// In the white space before a place between children the scanner stands between
/// children.
proof fn lemma_between(s: Seq<char>, pad: Node, at: int, limit: int)
    requires
        is_node(s, pad),
        pad.start < at <= limit <= pad.end,
        run(outside(), s, pad.start, limit) == inside(),
        forall|k: int| at <= k < limit ==> is_white_space(#[trigger] s[k]),
    ensures
        run(outside(), s, pad.start, at) == inside(),
{
    let a = pad.start;
    let p = node_text(s, pad);
    assert(s.subrange(a, limit) =~= p.subrange(0, limit - a));
    lemma_run_same(outside(), s, a, limit, p, 0);
    assert forall|k: int| at - a <= k < limit - a implies is_white_space(#[trigger] p[k]) by {
        assert(p[k] == s[a + k]);
    }
    lemma_before_blank(p, at - a, limit - a);
    assert(s.subrange(a, at) =~= p.subrange(0, at - a));
    lemma_run_same(outside(), s, a, at, p, 0);
}

// ─── One footprint ───────────────────────────────────────────────────────────

/// Whether the nets that the schematic gives the pads of a board have names that
/// can stand between the quotes of a net child.
pub open spec fn is_writable(s: Seq<char>, w: Wiring) -> bool {
    forall|k: int|
        0 <= k < board_states(s).len() ==> {
            let st = #[trigger] board_states(s)[k];
            want(w, st.reference, st.number) matches Some(name) ==> is_block(net_child(name))
        }
}

spec fn pad_is_writable(s: Seq<char>, reference: Seq<char>, pad: Node, w: Wiring) -> bool {
    match first_quoted(node_text(s, pad)) {
        Some(number) => want(w, reference, number) matches Some(name) ==> is_block(net_child(name)),
        None => true,
    }
}

spec fn footprint_is_writable(s: Seq<char>, fp: Node, w: Wiring) -> bool {
    match reference_of(node_text(s, fp)) {
        Some(reference) => forall|k: int|
            0 <= k < pads(s, fp).len() ==> pad_is_writable(
                s,
                reference,
                #[trigger] pads(s, fp)[k],
                w,
            ),
        None => true,
    }
}

proof fn lemma_pad_sync_block(s: Seq<char>, reference: Seq<char>, pad: Node, w: Wiring)
    requires
        is_node(s, pad),
        pad_is_writable(s, reference, pad, w),
    ensures
        is_block(pad_sync(s, reference, w)(pad)),
{
    lemma_node_is_block(s, pad.start, pad.end);
    match first_quoted(node_text(s, pad)) {
        Some(number) => {
            lemma_synced_pad(s, pad, want(w, reference, number));
        },
        None => {},
    }
}

proof fn lemma_pads_are_nodes(s: Seq<char>, fp: Node)
    requires
        is_node(s, fp),
    ensures
        forall|k: int| 0 <= k < pads(s, fp).len() ==> is_node(s, #[trigger] pads(s, fp)[k]),
{
    lemma_children_are_nodes(s, fp);
    lemma_tagged(s, children(s, fp), "pad"@);
}

/// A footprint that was written is a block with the same tag, whose children are
/// the footprint's with its pads rewritten.
proof fn lemma_synced_footprint(s: Seq<char>, fp: Node, w: Wiring)
    requires
        is_node(s, fp),
        footprint_is_writable(s, fp, w),
    ensures
        is_block(footprint_sync(s, w)(fp)),
        tag_at(footprint_sync(s, w)(fp), 0) == tag_at(s, fp.start),
        reference_of(node_text(s, fp)) matches Some(reference) ==> child_texts(
            footprint_sync(s, w)(fp),
        ) == children(s, fp).map_values(only_tagged(s, "pad"@, pad_sync(s, reference, w))),
{
    let tag = "pad"@;
    let a = fp.start;
    let b = node_text(s, fp);
    lemma_tag_of_node(s, fp);
    match reference_of(b) {
        Some(reference) => {
            let f = pad_sync(s, reference, w);
            let g = only_tagged(s, tag, f);
            let kids = children(s, fp);
            let inner = nodes_in(b, 0, b.len() as int, 1);
            let h = |n: Node| g(shifted(n, a));
            lemma_children_are_nodes(s, fp);
            lemma_children_laid_out(s, fp);
            lemma_children_of_text(s, fp);
            lemma_nodes_laid_out(b, 0, outside(), 1);
            lemma_patch_tagged(s, a, fp.end + 1, kids, tag, f);
            lemma_patch_shift(s, a, b, 0, inner, g);
            let t = patch(b, 0, b.len() as int, inner, h);
            assert(footprint_sync(s, w)(fp) == t);
            assert forall|k: int| 0 <= k < inner.len() implies is_block(h(#[trigger] inner[k])) by {
                let kid = kids[k];
                assert(kid == shifted(inner[k], a));
                assert(is_node(s, kid));
                lemma_node_is_block(s, kid.start, kid.end);
                if tag_at(s, kid.start) == tag {
                    lemma_tagged_keeps(s, kids, tag, k);
                    let j = choose|j: int| 0 <= j < pads(s, fp).len() && pads(s, fp)[j] == kid;
                    assert(pad_is_writable(s, reference, pads(s, fp)[j], w));
                    lemma_pad_sync_block(s, reference, kid, w);
                }
            }
            lemma_patch_block(b, h);
            lemma_patch_tag(b, h);
            assert(inner.map_values(h) =~= kids.map_values(g));
        },
        None => {},
    }
}

// ─── The whole board ─────────────────────────────────────────────────────────

proof fn lemma_footprints_are_nodes(s: Seq<char>)
    ensures
        forall|k: int| 0 <= k < footprints(s).len() ==> is_node(s, #[trigger] footprints(s)[k]),
        forall|k: int|
            0 <= k < nodes_in(s, 0, s.len() as int, 1).len() ==> is_node(
                s,
                #[trigger] nodes_in(s, 0, s.len() as int, 1)[k],
            ),
{
    lemma_nodes_bounds(s, 0, s.len() as int, outside(), 1);
    lemma_tagged(s, nodes_in(s, 0, s.len() as int, 1), "footprint"@);
}

proof fn lemma_pad_state_shown(reference: Seq<char>, ps: Seq<Seq<char>>, k: int)
    requires
        0 <= k < ps.len(),
        state_of(reference, ps[k]) is Some,
    ensures
        pad_states(reference, ps).contains(state_of(reference, ps[k])->0),
    decreases ps.len(),
{
    let all = pad_states(reference, ps);
    let state = state_of(reference, ps[k])->0;
    if k == ps.len() - 1 {
        assert(all.last() == state);
    } else {
        let front = pad_states(reference, ps.drop_last());
        lemma_pad_state_shown(reference, ps.drop_last(), k);
        let j = choose|j: int| 0 <= j < front.len() && front[j] == state;
        assert(all[j] == state);
    }
}

proof fn lemma_block_state_shown(bs: Seq<Seq<char>>, k: int, state: PadState)
    requires
        0 <= k < bs.len(),
        footprint_states(bs[k]).contains(state),
    ensures
        block_states(bs).contains(state),
    decreases bs.len(),
{
    let all = block_states(bs);
    let front = block_states(bs.drop_last());
    if k == bs.len() - 1 {
        let last = footprint_states(bs.last());
        let j = choose|j: int| 0 <= j < last.len() && last[j] == state;
        assert(all[front.len() + j] == state);
    } else {
        lemma_block_state_shown(bs.drop_last(), k, state);
        let j = choose|j: int| 0 <= j < front.len() && front[j] == state;
        assert(all[j] == state);
    }
}

/// What a pad shows is among what the board shows.
proof fn lemma_shown(s: Seq<char>, i: int, reference: Seq<char>, j: int)
    requires
        0 <= i < footprints(s).len(),
        reference_of(node_text(s, footprints(s)[i])) == Some(reference),
        0 <= j < pads(s, footprints(s)[i]).len(),
        state_of(reference, node_text(s, pads(s, footprints(s)[i])[j])) is Some,
    ensures
        board_states(s).contains(
            state_of(reference, node_text(s, pads(s, footprints(s)[i])[j]))->0,
        ),
{
    let fp = footprints(s)[i];
    let b = node_text(s, fp);
    lemma_footprints_are_nodes(s);
    assert(is_node(s, footprints(s)[i]));
    lemma_tagged_children(s, fp, "pad"@);
    assert(pad_texts(b)[j] == node_text(s, pads(s, fp)[j]));
    lemma_pad_state_shown(reference, pad_texts(b), j);
    assert(footprint_texts(s)[i] == b);
    lemma_block_state_shown(footprint_texts(s), i, state_of(reference, pad_texts(b)[j])->0);
}

proof fn lemma_writable(s: Seq<char>, w: Wiring)
    requires
        is_writable(s, w),
    ensures
        forall|i: int|
            0 <= i < footprints(s).len() ==> footprint_is_writable(
                s,
                #[trigger] footprints(s)[i],
                w,
            ),
{
    assert forall|i: int| 0 <= i < footprints(s).len() implies footprint_is_writable(
        s,
        #[trigger] footprints(s)[i],
        w,
    ) by {
        let fp = footprints(s)[i];
        match reference_of(node_text(s, fp)) {
            Some(reference) => {
                assert forall|j: int| 0 <= j < pads(s, fp).len() implies pad_is_writable(
                    s,
                    reference,
                    #[trigger] pads(s, fp)[j],
                    w,
                ) by {
                    if state_of(reference, node_text(s, pads(s, fp)[j])) is Some {
                        lemma_shown(s, i, reference, j);
                        let st = state_of(reference, node_text(s, pads(s, fp)[j]))->0;
                        let k = choose|k: int|
                            0 <= k < board_states(s).len() && board_states(s)[k] == st;
                        assert(board_states(s)[k] == st);
                    }
                }
            },
            None => {},
        }
    }
}

/// Footprints are never added, deleted or moved: a synced board has exactly the
/// footprints of the board, in the same order, each with its pads rewritten.
pub proof fn law_footprints_stay(s: Seq<char>, w: Wiring)
    requires
        is_writable(s, w),
    ensures
        footprint_texts(synced(s, w)) == footprints(s).map_values(footprint_sync(s, w)),
        footprints(synced(s, w)).len() == footprints(s).len(),
{
    let tag = "footprint"@;
    let f = footprint_sync(s, w);
    let t = synced(s, w);
    lemma_writable(s, w);
    lemma_footprints_are_nodes(s);
    lemma_tagged(s, nodes_in(s, 0, s.len() as int, 1), tag);
    assert forall|k: int| 0 <= k < footprints(s).len() implies is_block(
        f(#[trigger] footprints(s)[k]),
    ) && tag_at(f(footprints(s)[k]), 0) == tag by {
        lemma_synced_footprint(s, footprints(s)[k], w);
    }
    lemma_patch_top(s, tag, f);
    assert(footprint_texts(t).len() == footprints(t).len());
}

// ─── After a sync every pad has the schematic's net ──────────────────────────

/// Whether writing `pad` leaves it the pad that it was, with room for one net:
/// it is still tagged a pad, its number reads the same, and where its net goes
/// it had no second one.
pub open spec fn pad_keeps(s: Seq<char>, reference: Seq<char>, pad: Node, w: Wiring) -> bool {
    match first_quoted(node_text(s, pad)) {
        Some(number) => {
            let wanted = want(w, reference, number);
            let written = synced_pad(s, pad, wanted);
            &&& wanted is None ==> nets(s, pad).len() <= 1
            &&& tag_at(written, 0) == "pad"@
            &&& first_quoted(written) == Some(number)
        },
        None => true,
    }
}

/// Whether writing `fp` leaves it and its pads what they were.
pub open spec fn footprint_keeps(s: Seq<char>, fp: Node, w: Wiring) -> bool {
    match reference_of(node_text(s, fp)) {
        Some(reference) => {
            &&& reference_of(footprint_sync(s, w)(fp)) == Some(reference)
            &&& forall|k: int|
                0 <= k < pads(s, fp).len() ==> pad_keeps(s, reference, #[trigger] pads(s, fp)[k], w)
        },
        None => true,
    }
}

/// Whether a sync leaves every footprint and pad told by the reference and the
/// number that it was told by.
pub open spec fn keeps_names(s: Seq<char>, w: Wiring) -> bool {
    forall|k: int|
        0 <= k < footprints(s).len() ==> footprint_keeps(s, #[trigger] footprints(s)[k], w)
}

proof fn lemma_pad_texts(b: Seq<char>)
    requires
        is_block(b),
    ensures
        pad_texts(b) == with_tag(child_texts(b), "pad"@),
{
    lemma_nodes_bounds(b, 0, b.len() as int, outside(), 1);
    lemma_with_tag_nodes(b, nodes_in(b, 0, b.len() as int, 1), "pad"@);
}

proof fn lemma_pad_states_settle(s: Seq<char>, reference: Seq<char>, ns: Seq<Node>, w: Wiring)
    requires
        forall|k: int|
            0 <= k < ns.len() ==> is_node(s, #[trigger] ns[k]) && pad_is_writable(
                s,
                reference,
                ns[k],
                w,
            ) && pad_keeps(s, reference, ns[k], w),
    ensures
        pad_states(reference, ns.map_values(pad_sync(s, reference, w))) == pad_states(
            reference,
            node_texts(s, ns),
        ).map_values(settle(w)),
    decreases ns.len(),
{
    let f = pad_sync(s, reference, w);
    let after = ns.map_values(f);
    let before = node_texts(s, ns);
    if ns.len() > 0 {
        let front = ns.drop_last();
        let pad = ns.last();
        assert(is_node(s, ns[ns.len() - 1]));
        assert forall|k: int| 0 <= k < front.len() implies is_node(s, #[trigger] front[k])
            && pad_is_writable(s, reference, front[k], w) && pad_keeps(
            s,
            reference,
            front[k],
            w,
        ) by {
            assert(front[k] == ns[k]);
        }
        lemma_pad_states_settle(s, reference, front, w);
        assert(after.drop_last() =~= front.map_values(f));
        assert(before.drop_last() =~= node_texts(s, front));
        assert(after.last() == f(pad));
        assert(before.last() == node_text(s, pad));
        lemma_tagged_children(s, pad, "net"@);
        match first_quoted(node_text(s, pad)) {
            Some(number) => {
                lemma_synced_pad(s, pad, want(w, reference, number));
                let state = state_of(reference, before.last())->0;
                assert(state_of(reference, after.last()) == Some(settle(w)(state)));
            },
            None => {},
        }
    }
    assert(pad_states(reference, after) =~= pad_states(reference, before).map_values(settle(w)));
}

proof fn lemma_footprint_settles(s: Seq<char>, fp: Node, w: Wiring)
    requires
        is_node(s, fp),
        footprint_is_writable(s, fp, w),
        footprint_keeps(s, fp, w),
    ensures
        footprint_states(footprint_sync(s, w)(fp)) == footprint_states(
            node_text(s, fp),
        ).map_values(settle(w)),
        reference_of(footprint_sync(s, w)(fp)) == reference_of(node_text(s, fp)),
{
    let tag = "pad"@;
    let b = node_text(s, fp);
    let c = footprint_sync(s, w)(fp);
    match reference_of(b) {
        Some(reference) => {
            let kids = children(s, fp);
            let f = pad_sync(s, reference, w);
            lemma_synced_footprint(s, fp, w);
            lemma_children_are_nodes(s, fp);
            lemma_pads_are_nodes(s, fp);
            lemma_tagged_children(s, fp, tag);
            lemma_pad_texts(c);
            assert forall|k: int| 0 <= k < kids.len() implies is_node(s, #[trigger] kids[k]) && (
            tag_at(s, kids[k].start) == tag ==> tag_at(f(kids[k]), 0) == tag) by {
                if tag_at(s, kids[k].start) == tag {
                    lemma_tagged_keeps(s, kids, tag, k);
                    let j = choose|j: int| 0 <= j < pads(s, fp).len() && pads(s, fp)[j] == kids[k];
                    assert(pad_keeps(s, reference, pads(s, fp)[j], w));
                    lemma_tag_of_node(s, kids[k]);
                }
            }
            lemma_with_tag_map(s, kids, tag, f);
            lemma_pad_states_settle(s, reference, pads(s, fp), w);
        },
        None => {
            assert(footprint_states(c) =~= footprint_states(b).map_values(settle(w)));
        },
    }
}

proof fn lemma_blocks_settle(s: Seq<char>, ns: Seq<Node>, w: Wiring)
    requires
        forall|k: int|
            0 <= k < ns.len() ==> is_node(s, #[trigger] ns[k]) && footprint_is_writable(s, ns[k], w)
                && footprint_keeps(s, ns[k], w),
    ensures
        block_states(ns.map_values(footprint_sync(s, w))) == block_states(
            node_texts(s, ns),
        ).map_values(settle(w)),
        block_refs(ns.map_values(footprint_sync(s, w))) == block_refs(node_texts(s, ns)),
    decreases ns.len(),
{
    let f = footprint_sync(s, w);
    let after = ns.map_values(f);
    let before = node_texts(s, ns);
    if ns.len() > 0 {
        let front = ns.drop_last();
        assert(is_node(s, ns[ns.len() - 1]));
        assert forall|k: int| 0 <= k < front.len() implies is_node(s, #[trigger] front[k])
            && footprint_is_writable(s, front[k], w) && footprint_keeps(s, front[k], w) by {
            assert(front[k] == ns[k]);
        }
        lemma_blocks_settle(s, front, w);
        lemma_footprint_settles(s, ns.last(), w);
        assert(after.drop_last() =~= front.map_values(f));
        assert(before.drop_last() =~= node_texts(s, front));
        assert(after.last() == f(ns.last()));
        assert(before.last() == node_text(s, ns.last()));
    }
    assert(block_states(after) =~= block_states(before).map_values(settle(w)));
}

/// After a sync the board shows the pads that it showed before, each with
/// exactly the net that the schematic gives it.
pub proof fn law_pads_have_the_schematics_nets(s: Seq<char>, w: Wiring)
    requires
        is_writable(s, w),
        keeps_names(s, w),
    ensures
        board_states(synced(s, w)) == board_states(s).map_values(settle(w)),
        block_refs(footprint_texts(synced(s, w))) == block_refs(footprint_texts(s)),
        in_step(synced(s, w), w),
{
    law_footprints_stay(s, w);
    lemma_writable(s, w);
    lemma_footprints_are_nodes(s);
    let ns = footprints(s);
    assert forall|k: int| 0 <= k < ns.len() implies is_node(s, #[trigger] ns[k])
        && footprint_is_writable(s, ns[k], w) && footprint_keeps(s, ns[k], w) by {}
    lemma_blocks_settle(s, ns, w);
    let states = board_states(synced(s, w));
    assert forall|k: int| 0 <= k < states.len() implies settled(#[trigger] states[k], w) by {
        assert(states[k] == settle(w)(board_states(s)[k]));
    }
}

// ─── A board in step is left alone ───────────────────────────────────────────

/// A pad that has its net is written as it is.
proof fn lemma_settled_pad(s: Seq<char>, pad: Node, reference: Seq<char>, w: Wiring)
    requires
        is_node(s, pad),
        state_of(reference, node_text(s, pad)) matches Some(state) ==> settled(state, w),
    ensures
        pad_sync(s, reference, w)(pad) == node_text(s, pad),
{
    let p = node_text(s, pad);
    lemma_tagged_children(s, pad, "net"@);
    lemma_children_laid_out(s, pad);
    lemma_tagged_laid_out(s, children(s, pad), "net"@, pad.start, pad.end + 1);
    match first_quoted(p) {
        Some(number) => {
            if nets(s, pad).len() > 0 {
                let n = nets(s, pad)[0];
                lemma_laid_out_bounds(nets(s, pad), pad.start, pad.end + 1, 0);
                assert(net_texts(p)[0] == node_text(s, n));
                assert(synced_pad(s, pad, want(w, reference, number)) =~= p);
            }
        },
        None => {},
    }
}

/// A board whose pads already have the schematic's nets comes back unchanged,
/// character for character.
pub proof fn law_board_in_step_is_unchanged(s: Seq<char>, w: Wiring)
    requires
        in_step(s, w),
    ensures
        synced(s, w) == s,
{
    let fps = footprints(s);
    let f = footprint_sync(s, w);
    let same = |n: Node| node_text(s, n);
    lemma_footprints_are_nodes(s);
    assert forall|k: int| 0 <= k < fps.len() implies f(#[trigger] fps[k]) == same(fps[k]) by {
        let fp = fps[k];
        let b = node_text(s, fp);
        match reference_of(b) {
            Some(reference) => {
                let ns = pads(s, fp);
                let g = pad_sync(s, reference, w);
                lemma_pads_are_nodes(s, fp);
                lemma_tagged_children(s, fp, "pad"@);
                assert forall|j: int| 0 <= j < ns.len() implies g(#[trigger] ns[j]) == same(
                    ns[j],
                ) by {
                    assert(pad_texts(b)[j] == node_text(s, ns[j]));
                    if state_of(reference, pad_texts(b)[j]) is Some {
                        let state = state_of(reference, pad_texts(b)[j])->0;
                        lemma_shown(s, k, reference, j);
                        let i = choose|i: int|
                            0 <= i < board_states(s).len() && board_states(s)[i] == state;
                        assert(settled(board_states(s)[i], w));
                    }
                    lemma_settled_pad(s, ns[j], reference, w);
                }
                lemma_children_laid_out(s, fp);
                lemma_tagged_laid_out(s, children(s, fp), "pad"@, fp.start, fp.end + 1);
                lemma_patch_same(s, fp.start, fp.end + 1, ns, g, same);
                lemma_patch_identity(s, fp.start, fp.end + 1, ns);
            },
            None => {},
        }
    }
    let all = nodes_in(s, 0, s.len() as int, 1);
    lemma_nodes_laid_out(s, 0, outside(), 1);
    lemma_tagged_laid_out(s, all, "footprint"@, 0, s.len() as int);
    lemma_patch_same(s, 0, s.len() as int, fps, f, same);
    lemma_patch_identity(s, 0, s.len() as int, fps);
    assert(s.subrange(0, s.len() as int) =~= s);
}

proof fn lemma_tally_in_step(states: Seq<PadState>, w: Wiring)
    requires
        forall|k: int| 0 <= k < states.len() ==> settled(#[trigger] states[k], w),
    ensures
        tally(states, gets_net(w)) == 0,
        tally(states, loses_net(w)) == 0,
        tally(states, keeps_net(w)) == states.len(),
        stale_names(states, w) == Set::<Seq<char>>::empty(),
    decreases states.len(),
{
    if states.len() > 0 {
        let front = states.drop_last();
        assert forall|k: int| 0 <= k < front.len() implies settled(#[trigger] front[k], w) by {
            assert(front[k] == states[k]);
        }
        lemma_tally_in_step(front, w);
        assert(settled(states[states.len() - 1], w));
    }
}

/// On a board in step a sync has nothing to report: no pad is assigned or
/// cleared, and no stale net leaves.
pub proof fn law_board_in_step_reports_nothing(s: Seq<char>, w: Wiring)
    requires
        in_step(s, w),
    ensures
        tally(board_states(s), gets_net(w)) == 0,
        tally(board_states(s), loses_net(w)) == 0,
        tally(board_states(s), keeps_net(w)) == board_states(s).len(),
        stale_names(board_states(s), w) == Set::<Seq<char>>::empty(),
{
    lemma_tally_in_step(board_states(s), w);
}

/// Whether the schematic gives some pad the net `name`.
pub open spec fn is_given(name: Seq<char>, w: Wiring) -> bool {
    exists|pad: (Seq<char>, Seq<char>)| #[trigger]
        w.pads.dom().contains(pad) && w.pads[pad] == name
}

/// Whether no net of the schematic has a quote in its name.
pub open spec fn names_are_unquoted(w: Wiring) -> bool {
    forall|pad: (Seq<char>, Seq<char>)| #[trigger]
        w.pads.dom().contains(pad) ==> !w.pads[pad].contains('"')
}

proof fn lemma_child_name(name: Seq<char>)
    requires
        !name.contains('"'),
    ensures
        first_quoted(net_child(name)) == Some(name),
{
    let c = net_child(name);
    let len = c.len() as int;
    let end = 6 + name.len() as int;
    reveal_strlit("(net \"");
    reveal_strlit("\")");
    assert(c[0] == '(' && c[1] == 'n' && c[2] == 'e' && c[3] == 't' && c[4] == ' ' && c[5] == '"');
    assert(c[end] == '"');
    assert forall|k: int| 6 <= k < end implies c[k] != '"' by {
        assert(c[k] == name[k - 6]);
    }
    lemma_first_char(c, 0, len, '"');
    lemma_first_char(c, 6, len, '"');
    assert(first_char(c, 0, len, '"') == Some(5int));
    assert(first_char(c, 6, len, '"') == Some(end));
    assert(c.subrange(6, end) =~= name);
}

/// Pads that have the schematic's nets carry the schematic's names.
proof fn lemma_settled_names(states: Seq<PadState>, w: Wiring)
    requires
        forall|k: int| 0 <= k < states.len() ==> settled(#[trigger] states[k], w),
        names_are_unquoted(w),
    ensures
        forall|name: Seq<char>| #[trigger]
            current_names(states).contains(name) ==> is_given(name, w),
        forall|k: int|
            0 <= k < states.len() ==> {
                let st = #[trigger] states[k];
                want(w, st.reference, st.number) matches Some(name) ==> current_names(
                    states,
                ).contains(name)
            },
    decreases states.len(),
{
    if states.len() > 0 {
        let front = states.drop_last();
        let last = states.last();
        assert forall|k: int| 0 <= k < front.len() implies settled(#[trigger] front[k], w) by {
            assert(front[k] == states[k]);
        }
        lemma_settled_names(front, w);
        assert(settled(states[states.len() - 1], w));
        if let Some(name) = want(w, last.reference, last.number) {
            assert(w.pads.dom().contains((last.reference, last.number)));
            assert(is_given(name, w));
            lemma_child_name(name);
        }
        assert forall|name: Seq<char>| #[trigger]
            current_names(states).contains(name) implies is_given(name, w) by {
            if !current_names(front).contains(name) {
                assert(last.current() == Some(name));
            }
        }
        assert forall|k: int| 0 <= k < states.len() implies {
            let st = #[trigger] states[k];
            want(w, st.reference, st.number) matches Some(name) ==> current_names(states).contains(
                name,
            )
        } by {
            if k < front.len() {
                assert(front[k] == states[k]);
            }
        }
    }
}

/// After a sync the board's pads carry no name but the schematic's: the stale
/// ones are gone.
pub proof fn law_stale_names_disappear(s: Seq<char>, w: Wiring)
    requires
        is_writable(s, w),
        keeps_names(s, w),
        names_are_unquoted(w),
    ensures
        forall|name: Seq<char>| #[trigger]
            current_names(board_states(synced(s, w))).contains(name) ==> is_given(name, w),
{
    law_pads_have_the_schematics_nets(s, w);
    lemma_settled_names(board_states(synced(s, w)), w);
}

proof fn lemma_current_finite(states: Seq<PadState>)
    ensures
        current_names(states).finite(),
    decreases states.len(),
{
    if states.len() > 0 {
        lemma_current_finite(states.drop_last());
    }
}

/// Where the board carries more names than the schematic has nets, one of them
/// is a name that the schematic does not know.
pub proof fn law_surplus_names_are_stale(s: Seq<char>, w: Wiring)
    requires
        current_names(board_states(s)).len() > w.nets.len(),
    ensures
        exists|name: Seq<char>| #[trigger]
            current_names(board_states(s)).contains(name) && !w.nets.contains(name),
{
    let names = current_names(board_states(s));
    if forall|name: Seq<char>| #[trigger] names.contains(name) ==> w.nets.contains(name) {
        lemma_current_finite(board_states(s));
        w.nets.lemma_cardinality_of_set();
        assert(names.subset_of(w.nets.to_set()));
        lemma_len_subset(names, w.nets.to_set());
    }
}

/// Whether the schematic puts a pad of the board on the net `name`.
pub open spec fn is_on_board(name: Seq<char>, s: Seq<char>, w: Wiring) -> bool {
    exists|k: int|
        0 <= k < board_states(s).len() && want(
            w,
            (#[trigger] board_states(s)[k]).reference,
            board_states(s)[k].number,
        ) == Some(name)
}

/// A board in step carries as many names as the schematic has nets, where every
/// net of the schematic reaches the board.
pub proof fn law_board_in_step_has_the_schematics_count(s: Seq<char>, w: Wiring)
    requires
        in_step(s, w),
        names_are_unquoted(w),
        w.nets.no_duplicates(),
        forall|pad: (Seq<char>, Seq<char>)| #[trigger]
            w.pads.dom().contains(pad) ==> w.nets.contains(w.pads[pad]),
        forall|k: int| 0 <= k < w.nets.len() ==> is_on_board(#[trigger] w.nets[k], s, w),
    ensures
        current_names(board_states(s)).len() == w.nets.len(),
{
    let states = board_states(s);
    lemma_settled_names(states, w);
    assert forall|name: Seq<char>| current_names(states).contains(name) == w.nets.to_set().contains(
        name,
    ) by {
        if w.nets.contains(name) {
            let k = choose|k: int| 0 <= k < w.nets.len() && w.nets[k] == name;
            assert(is_on_board(w.nets[k], s, w));
        }
    }
    assert(current_names(states) =~= w.nets.to_set());
    w.nets.unique_seq_to_set();
}

proof fn lemma_stale_names(states: Seq<PadState>, w: Wiring)
    ensures
        forall|name: Seq<char>| #[trigger]
            stale_names(states, w).contains(name) ==> current_names(states).contains(name)
                && !w.nets.contains(name),
    decreases states.len(),
{
    if states.len() > 0 {
        let front = states.drop_last();
        lemma_stale_names(front, w);
        assert forall|name: Seq<char>| #[trigger]
            stale_names(states, w).contains(name) implies current_names(states).contains(name)
            && !w.nets.contains(name) by {
            if !stale_names(front, w).contains(name) {
                assert(stale_name(states.last(), w) == Some(name));
            }
        }
    }
}

/// What is reported as stale is carried by a pad of the board, and is no net that
/// the schematic mentions.
pub proof fn law_stale_nets_are_not_the_schematics(s: Seq<char>, w: Wiring)
    ensures
        forall|name: Seq<char>| #[trigger]
            stale_names(board_states(s), w).contains(name) ==> current_names(
                board_states(s),
            ).contains(name) && !w.nets.contains(name),
{
    lemma_stale_names(board_states(s), w);
}

proof fn lemma_lost_name(states: Seq<PadState>, k: int, w: Wiring)
    requires
        0 <= k < states.len(),
        stale_name(states[k], w) is Some,
    ensures
        stale_names(states, w).contains(stale_name(states[k], w)->0),
    decreases states.len(),
{
    if k < states.len() - 1 {
        assert(states.drop_last()[k] == states[k]);
        lemma_lost_name(states.drop_last(), k, w);
    }
}

/// Every name on a pad of the board that the schematic does not mention is
/// reported as stale, where every net that the schematic gives a pad is one that
/// it mentions.
pub proof fn law_every_unmentioned_net_is_reported(s: Seq<char>, w: Wiring, k: int)
    requires
        0 <= k < board_states(s).len(),
        names_are_unquoted(w),
        forall|pad: (Seq<char>, Seq<char>)| #[trigger]
            w.pads.dom().contains(pad) ==> w.nets.contains(w.pads[pad]),
    ensures
        board_states(s)[k].current() matches Some(name) ==> (name.len() > 0 && !w.nets.contains(
            name,
        ) ==> stale_names(board_states(s), w).contains(name)),
{
    let st = board_states(s)[k];
    if let Some(name) = st.current() {
        if name.len() > 0 && !w.nets.contains(name) {
            if let Some(given) = want(w, st.reference, st.number) {
                assert(w.pads.dom().contains((st.reference, st.number)));
                lemma_child_name(given);
            }
            lemma_lost_name(board_states(s), k, w);
        }
    }
}

proof fn lemma_tally_adds_up(states: Seq<PadState>, w: Wiring)
    ensures
        tally(states, gets_net(w)) + tally(states, loses_net(w)) + tally(states, keeps_net(w))
            == states.len(),
    decreases states.len(),
{
    if states.len() > 0 {
        lemma_tally_adds_up(states.drop_last(), w);
    }
}

/// Every pad that can be told by a reference and a number is counted once: as
/// assigned, cleared or unchanged.
pub proof fn law_every_pad_is_counted_once(s: Seq<char>, w: Wiring)
    ensures
        tally(board_states(s), gets_net(w)) + tally(board_states(s), loses_net(w)) + tally(
            board_states(s),
            keeps_net(w),
        ) == board_states(s).len(),
{
    lemma_tally_adds_up(board_states(s), w);
}

// ─── A synced board is not refused ───────────────────────────────────────────

proof fn lemma_legacy_at(s: Seq<char>, at: int)
    ensures
        legacy_at(s, at) == ({
            &&& 0 <= at
            &&& at + 5 < s.len()
            &&& s[at] == '('
            &&& s[at + 1] == 'n'
            &&& s[at + 2] == 'e'
            &&& s[at + 3] == 't'
            &&& s[at + 4] == ' '
            &&& '0' <= s[at + 5] <= '9'
        }),
{
    reveal_strlit("(net ");
    let pat = "(net "@;
    if 0 <= at && at + 5 < s.len() {
        let here = s.subrange(at, at + 5);
        assert(here[0] == s[at] && here[1] == s[at + 1] && here[2] == s[at + 2] && here[3] == s[at
            + 3] && here[4] == s[at + 4]);
        if s[at] == '(' && s[at + 1] == 'n' && s[at + 2] == 'e' && s[at + 3] == 't' && s[at + 4]
            == ' ' {
            assert(here =~= pat);
        }
    }
}

proof fn lemma_clean_part(s: Seq<char>, a: int, b: int)
    requires
        !legacy(s),
        0 <= a <= b <= s.len(),
    ensures
        !legacy(s.subrange(a, b)),
{
    let t = s.subrange(a, b);
    assert forall|at: int| !#[trigger] legacy_at(t, at) by {
        lemma_legacy_at(t, at);
        lemma_legacy_at(s, a + at);
        assert(!legacy_at(s, a + at));
    }
}

/// Where no numeric form straddles the seam, two clean texts side by side are
/// clean.
proof fn lemma_clean_join(a: Seq<char>, b: Seq<char>)
    requires
        !legacy(a),
        !legacy(b),
        forall|at: int| at < a.len() < at + 6 ==> !#[trigger] legacy_at(a + b, at),
    ensures
        !legacy(a + b),
{
    let t = a + b;
    assert forall|at: int| !#[trigger] legacy_at(t, at) by {
        lemma_legacy_at(t, at);
        if at + 6 <= a.len() {
            lemma_legacy_at(a, at);
            assert(!legacy_at(a, at));
        } else if at >= a.len() {
            lemma_legacy_at(b, at - a.len());
            assert(!legacy_at(b, at - a.len()));
        }
    }
}

/// A text that starts with a parenthesis or a line break can stand behind any
/// other.
proof fn lemma_clean_before(a: Seq<char>, b: Seq<char>)
    requires
        !legacy(a),
        !legacy(b),
        b.len() > 0,
        b[0] == '(' || b[0] == '\n',
    ensures
        !legacy(a + b),
{
    assert forall|at: int| at < a.len() < at + 6 implies !#[trigger] legacy_at(a + b, at) by {
        lemma_legacy_at(a + b, at);
        assert((a + b)[a.len() as int] == b[0]);
    }
    lemma_clean_join(a, b);
}

/// Any text can stand behind one that ends in a closing parenthesis.
proof fn lemma_clean_behind(a: Seq<char>, b: Seq<char>)
    requires
        !legacy(a),
        !legacy(b),
        a.len() > 0,
        a.last() == ')',
    ensures
        !legacy(a + b),
{
    assert forall|at: int| at < a.len() < at + 6 implies !#[trigger] legacy_at(a + b, at) by {
        lemma_legacy_at(a + b, at);
        assert((a + b)[a.len() - 1] == ')');
    }
    lemma_clean_join(a, b);
}

/// A block starts and ends with a parenthesis.
proof fn lemma_block_ends(b: Seq<char>)
    requires
        is_block(b),
    ensures
        b.len() >= 2,
        b[0] == '(',
        b.last() == ')',
{
    lemma_block(b, 0, b.len() - 1, outside());
}

/// Replacing nodes of a clean text by clean blocks gives a clean text.
proof fn lemma_patch_clean(
    s: Seq<char>,
    i: int,
    hi: int,
    ns: Seq<Node>,
    f: spec_fn(Node) -> Seq<char>,
)
    requires
        !legacy(s),
        0 <= i,
        hi <= s.len(),
        laid_out(ns, i, hi),
        forall|k: int| 0 <= k < ns.len() ==> is_block(f(#[trigger] ns[k])) && !legacy(f(ns[k])),
    ensures
        !legacy(patch(s, i, hi, ns, f)),
    decreases ns.len(),
{
    if ns.len() == 0 {
        lemma_clean_part(s, i, hi);
    } else {
        let rest = ns.skip(1);
        assert forall|k: int| 0 <= k < rest.len() implies is_block(f(#[trigger] rest[k]))
            && !legacy(f(rest[k])) by {
            assert(rest[k] == ns[k + 1]);
        }
        lemma_patch_clean(s, ns[0].end + 1, hi, rest, f);
        let gap = s.subrange(i, ns[0].start);
        let block = f(ns[0]);
        let behind = patch(s, ns[0].end + 1, hi, rest, f);
        assert(is_block(f(ns[0])));
        lemma_block_ends(block);
        lemma_clean_part(s, i, ns[0].start);
        lemma_clean_before(gap, block);
        lemma_clean_behind(gap + block, behind);
    }
}

proof fn lemma_blank_clean(u: Seq<char>)
    requires
        is_blank(u),
    ensures
        !legacy(u),
{
    assert forall|at: int| !#[trigger] legacy_at(u, at) by {
        lemma_legacy_at(u, at);
        if 0 <= at < u.len() {
            assert(is_white_space(u[at]));
        }
    }
}

proof fn lemma_run_plain(l: Lex, x: Seq<char>, a: int, b: int)
    requires
        0 <= a <= b <= x.len(),
        l.quoted,
        forall|k: int| a <= k < b ==> #[trigger] x[k] != '"',
    ensures
        run(l, x, a, b).quoted,
    decreases b - a,
{
    if a < b {
        lemma_run_plain(l, x, a, b - 1);
        assert(x[b - 1] != '"');
    }
}

proof fn lemma_run_letters(l: Lex, x: Seq<char>, a: int, b: int)
    requires
        0 <= a <= b <= x.len(),
        !l.quoted,
        forall|k: int|
            a <= k < b ==> #[trigger] x[k] != '"' && x[k] != '(' && x[k] != ')',
    ensures
        run(l, x, a, b) == l,
    decreases b - a,
{
    if a < b {
        lemma_run_letters(l, x, a, b - 1);
        assert(x[b - 1] != '"' && x[b - 1] != '(' && x[b - 1] != ')');
    }
}

/// What a pad's tag says of its text.
proof fn lemma_pad_tag(p: Seq<char>)
    requires
        tag_at(p, 0) == "pad"@,
    ensures
        p.len() > 4,
        p[1] == 'p',
        p[2] == 'a',
        p[3] == 'd',
        ends_tag(p[4]),
{
    reveal_strlit("pad");
    lemma_tag_end(p, 1);
    match tag_end(p, 1) {
        Some(j) => {
            let t = p.subrange(1, j);
            assert(t == "pad"@);
            assert(t.len() == j - 1);
            assert(t[0] == p[1] && t[1] == p[2] && t[2] == p[3]);
        },
        None => {
            assert(Seq::<char>::empty().len() == 0);
        },
    }
}

/// Cutting text from between a pad's children joins no numeric form.
proof fn lemma_clean_cut(p: Seq<char>, a: int, b: int)
    requires
        is_block(p),
        tag_at(p, 0) == "pad"@,
        !legacy(p),
        2 <= a <= b <= p.len(),
        run(outside(), p, 0, a) == inside(),
    ensures
        !legacy(p.take(a) + p.skip(b)),
{
    let x = p.take(a);
    let y = p.skip(b);
    let t = x + y;
    lemma_clean_part(p, 0, a);
    lemma_clean_part(p, b, p.len() as int);
    assert(p.subrange(0, a) =~= x);
    assert(p.subrange(b, p.len() as int) =~= y);
    assert forall|at: int| at < x.len() < at + 6 implies !#[trigger] legacy_at(t, at) by {
        lemma_legacy_at(t, at);
        if legacy_at(t, at) {
            assert(p[at] == t[at]);
            assert forall|k: int| at < k < a implies #[trigger] p[k] != '"' && p[k] != '(' && p[k]
                != ')' by {
                assert(p[k] == t[k]);
                assert(k == at + 1 || k == at + 2 || k == at + 3 || k == at + 4 || k == at + 5);
            }
            let l = run(outside(), p, 0, at);
            lemma_run_split(outside(), p, 0, at, a);
            lemma_run_front(l, p, at, a);
            if l.quoted {
                lemma_run_plain(step(l, p[at]), p, at + 1, a);
            } else {
                lemma_run_letters(step(l, p[at]), p, at + 1, a);
                lemma_block(p, 0, p.len() - 1, outside());
                if at > 0 {
                    assert(run(outside(), p, 0, at).depth > 0);
                } else {
                    lemma_pad_tag(p);
                    assert(t[1] == p[1]);
                }
            }
        }
    }
    lemma_clean_join(x, y);
}

proof fn lemma_clean_pad(s: Seq<char>, pad: Node, wanted: Option<Seq<char>>)
    requires
        is_node(s, pad),
        tag_at(s, pad.start) == "pad"@,
        !legacy(s),
        wanted matches Some(name) ==> is_block(net_child(name)) && !legacy(net_child(name)),
    ensures
        !legacy(synced_pad(s, pad, wanted)),
{
    let p = node_text(s, pad);
    let a = pad.start;
    let behind = pad.end + 1;
    let have = nets(s, pad);
    lemma_clean_part(s, a, behind);
    lemma_tag_of_node(s, pad);
    lemma_pad_states(s, pad);
    lemma_tagged(s, children(s, pad), "net"@);
    if have.len() > 0 {
        let n = have[0];
        assert(children(s, pad).contains(n));
        let k = choose|k: int| 0 <= k < children(s, pad).len() && children(s, pad)[k] == n;
        assert(is_node(s, children(s, pad)[k]));
        match wanted {
            Some(name) => {
                let v = net_child(name);
                lemma_block_ends(v);
                lemma_clean_part(s, a, n.start);
                lemma_clean_part(s, n.end + 1, behind);
                lemma_clean_before(s.subrange(a, n.start), v);
                lemma_clean_behind(s.subrange(a, n.start) + v, s.subrange(n.end + 1, behind));
            },
            None => {
                let cut = cut_from(s, n.start);
                lemma_cut(s, n.start, a);
                lemma_between(s, pad, cut, n.start);
                assert(s.subrange(a, cut) =~= p.subrange(0, cut - a));
                lemma_run_same(outside(), s, a, cut, p, 0);
                lemma_pad_tag(p);
                assert(s[a + 1] == p[1]);
                if cut == a + 1 {
                    assert(!is_white_space(s[cut]));
                    assert(s[n.start] == '(');
                }
                lemma_clean_cut(p, cut - a, n.end + 1 - a);
                assert(synced_pad(s, pad, wanted) =~= p.take(cut - a) + p.skip(n.end + 1 - a));
            },
        }
    } else {
        match wanted {
            Some(name) => {
                let child = net_child(name);
                let gap = seq!['\n'] + insert_indent(s, pad);
                let at = insert_at(s, pad);
                lemma_insert_point(s, pad);
                assert(is_blank(gap));
                lemma_blank_clean(gap);
                lemma_block_ends(child);
                lemma_clean_before(gap, child);
                lemma_clean_part(s, a, at);
                lemma_clean_part(s, at, behind);
                lemma_clean_before(s.subrange(a, at), gap + child);
                lemma_clean_behind(s.subrange(a, at) + (gap + child), s.subrange(at, behind));
            },
            None => {},
        }
    }
}

/// Whether no net that the schematic gives a pad of the board has a name that
/// itself spells a numeric net.
pub open spec fn is_clean(s: Seq<char>, w: Wiring) -> bool {
    forall|k: int|
        0 <= k < board_states(s).len() ==> {
            let st = #[trigger] board_states(s)[k];
            want(w, st.reference, st.number) matches Some(name) ==> !legacy(net_child(name))
        }
}

/// A board that is not refused is not refused once it is synced.
pub proof fn law_synced_board_is_not_refused(s: Seq<char>, w: Wiring)
    requires
        !legacy(s),
        is_writable(s, w),
        is_clean(s, w),
    ensures
        !legacy(synced(s, w)),
{
    let fps = footprints(s);
    let f = footprint_sync(s, w);
    lemma_writable(s, w);
    lemma_footprints_are_nodes(s);
    assert forall|i: int| 0 <= i < fps.len() implies is_block(f(#[trigger] fps[i])) && !legacy(
        f(fps[i]),
    ) by {
        let fp = fps[i];
        lemma_synced_footprint(s, fp, w);
        match reference_of(node_text(s, fp)) {
            Some(reference) => {
                let ns = pads(s, fp);
                let g = pad_sync(s, reference, w);
                lemma_pads_are_nodes(s, fp);
                lemma_children_laid_out(s, fp);
                lemma_tagged_laid_out(s, children(s, fp), "pad"@, fp.start, fp.end + 1);
                lemma_tagged(s, children(s, fp), "pad"@);
                assert forall|j: int| 0 <= j < ns.len() implies is_block(g(#[trigger] ns[j]))
                    && !legacy(g(ns[j])) by {
                    let pad = ns[j];
                    assert(pad_is_writable(s, reference, pads(s, fp)[j], w));
                    lemma_pad_sync_block(s, reference, pad, w);
                    match first_quoted(node_text(s, pad)) {
                        Some(number) => {
                            lemma_shown(s, i, reference, j);
                            let st = state_of(reference, node_text(s, pad))->0;
                            let k = choose|k: int|
                                0 <= k < board_states(s).len() && board_states(s)[k] == st;
                            assert(board_states(s)[k] == st);
                            lemma_clean_pad(s, pad, want(w, reference, number));
                        },
                        None => {
                            lemma_clean_part(s, pad.start, pad.end + 1);
                        },
                    }
                }
                lemma_patch_clean(s, fp.start, fp.end + 1, ns, g);
            },
            None => {
                lemma_clean_part(s, fp.start, fp.end + 1);
            },
        }
    }
    let all = nodes_in(s, 0, s.len() as int, 1);
    lemma_nodes_laid_out(s, 0, outside(), 1);
    lemma_tagged_laid_out(s, all, "footprint"@, 0, s.len() as int);
    lemma_patch_clean(s, 0, s.len() as int, fps, f);
}

// ─── Syncing twice ───────────────────────────────────────────────────────────

/// A second sync is accepted, changes nothing, and has nothing to report.
pub proof fn law_sync_is_idempotent(s: Seq<char>, w: Wiring)
    requires
        !legacy(s),
        is_writable(s, w),
        is_clean(s, w),
        keeps_names(s, w),
    ensures
        !legacy(synced(s, w)),
        synced(synced(s, w), w) == synced(s, w),
        tally(board_states(synced(s, w)), gets_net(w)) == 0,
        tally(board_states(synced(s, w)), loses_net(w)) == 0,
        stale_names(board_states(synced(s, w)), w) == Set::<Seq<char>>::empty(),
{
    law_synced_board_is_not_refused(s, w);
    law_pads_have_the_schematics_nets(s, w);
    law_board_in_step_is_unchanged(synced(s, w), w);
    law_board_in_step_reports_nothing(synced(s, w), w);
}

// ─── Boards as KiCad writes them ─────────────────────────────────────────────

/// The closing quote of the first quoted token in `b`.
pub open spec fn quoted_end(b: Seq<char>) -> Option<int> {
    match first_char(b, 0, b.len() as int, '"') {
        Some(q) => first_char(b, q + 1, b.len() as int, '"'),
        None => None,
    }
}

/// The closing quote of a footprint's `Reference` property.
pub open spec fn reference_end(b: Seq<char>) -> Option<int> {
    match first_match(b, 0, b.len() as int, reference_marker()) {
        Some(m) => first_char(b, m + reference_marker().len(), b.len() as int, '"'),
        None => None,
    }
}

/// Whether a pad's number stands before its children, of which one at most is a
/// net.
pub open spec fn is_plain_pad(s: Seq<char>, pad: Node) -> bool {
    &&& nets(s, pad).len() <= 1
    &&& children(s, pad).len() > 0 ==> (quoted_end(node_text(s, pad)) matches Some(e) ==> pad.start
        + e < children(s, pad)[0].start)
}

/// Whether a footprint's `Reference` property stands before its pads, and each
/// pad's number before the pad's children.
pub open spec fn is_plain_footprint(s: Seq<char>, fp: Node) -> bool {
    &&& pads(s, fp).len() > 0 ==> (reference_end(node_text(s, fp)) matches Some(e) ==> fp.start + e
        < pads(s, fp)[0].start)
    &&& forall|k: int| 0 <= k < pads(s, fp).len() ==> is_plain_pad(s, #[trigger] pads(s, fp)[k])
}

/// Whether a board is laid out as KiCad's writer lays it out.
pub open spec fn is_plain(s: Seq<char>) -> bool {
    forall|k: int|
        0 <= k < footprints(s).len() ==> is_plain_footprint(s, #[trigger] footprints(s)[k])
}

proof fn lemma_first_char_prefix(a: Seq<char>, b: Seq<char>, lo: int, c: char)
    requires
        0 <= lo,
        first_char(a, lo, a.len() as int, c) is Some,
        first_char(a, lo, a.len() as int, c)->0 < b.len(),
        forall|k: int|
            0 <= k <= first_char(a, lo, a.len() as int, c)->0 ==> #[trigger] a[k] == b[k],
    ensures
        first_char(b, lo, b.len() as int, c) == first_char(a, lo, a.len() as int, c),
{
    lemma_first_char(a, lo, a.len() as int, c);
    let at = first_char(a, lo, a.len() as int, c)->0;
    assert(a[at] == b[at]);
    lemma_first_char(b, lo, b.len() as int, c);
    match first_char(b, lo, b.len() as int, c) {
        Some(other) => {
            if other < at {
                assert(a[other] == b[other]);
            }
        },
        None => {},
    }
}

/// What is quoted first is read from the text up to its closing quote alone.
proof fn lemma_quoted_prefix(a: Seq<char>, b: Seq<char>)
    requires
        quoted_end(a) is Some,
        quoted_end(a)->0 < b.len(),
        forall|k: int| 0 <= k <= quoted_end(a)->0 ==> #[trigger] a[k] == b[k],
    ensures
        first_quoted(b) == first_quoted(a),
{
    let q = first_char(a, 0, a.len() as int, '"')->0;
    let e = quoted_end(a)->0;
    lemma_first_char(a, 0, a.len() as int, '"');
    lemma_first_char(a, q + 1, a.len() as int, '"');
    lemma_first_char_prefix(a, b, 0, '"');
    lemma_first_char_prefix(a, b, q + 1, '"');
    assert(a.subrange(q + 1, e) =~= b.subrange(q + 1, e));
}

/// A reference is read from the text up to its closing quote alone.
proof fn lemma_reference_prefix(a: Seq<char>, b: Seq<char>)
    requires
        reference_end(a) is Some,
        reference_end(a)->0 < b.len(),
        forall|k: int| 0 <= k <= reference_end(a)->0 ==> #[trigger] a[k] == b[k],
    ensures
        reference_of(b) == reference_of(a),
{
    let pat = reference_marker();
    reveal_strlit("(property \"Reference\" \"");
    let la = a.len() as int;
    let lb = b.len() as int;
    let m = first_match(a, 0, la, pat)->0;
    let e = reference_end(a)->0;
    lemma_first_match(a, 0, la, pat);
    lemma_first_char(a, m + pat.len(), la, '"');
    lemma_first_char_prefix(a, b, m + pat.len(), '"');
    assert forall|k: int| 0 <= k <= m implies occurs_at(a, k, pat) == #[trigger] occurs_at(
        b,
        k,
        pat,
    ) by {
        assert(a.subrange(k, k + pat.len()) =~= b.subrange(k, k + pat.len()));
    }
    lemma_first_match(b, 0, lb, pat);
    match first_match(b, 0, lb, pat) {
        Some(other) => {
            if other < m {
                assert(occurs_at(b, other, pat));
                assert(!occurs_at(a, other, pat));
            } else if other > m {
                assert(occurs_at(a, m, pat));
                assert(!occurs_at(b, m, pat));
            }
        },
        None => {
            assert(occurs_at(a, m, pat));
            assert(!occurs_at(b, m, pat));
        },
    }
    assert(a.subrange(m + pat.len(), e) =~= b.subrange(m + pat.len(), e));
}

/// Writing a plain pad changes nothing up to its number.
proof fn lemma_plain_pad(s: Seq<char>, pad: Node, wanted: Option<Seq<char>>)
    requires
        is_node(s, pad),
        tag_at(s, pad.start) == "pad"@,
        quoted_end(node_text(s, pad)) is Some,
        is_plain_pad(s, pad),
        wanted matches Some(name) ==> is_block(net_child(name)),
    ensures
        tag_at(synced_pad(s, pad, wanted), 0) == "pad"@,
        first_quoted(synced_pad(s, pad, wanted)) == first_quoted(node_text(s, pad)),
{
    let a = pad.start;
    let p = node_text(s, pad);
    let t = synced_pad(s, pad, wanted);
    let e = quoted_end(p)->0;
    let q = first_char(p, 0, p.len() as int, '"')->0;
    let kids = children(s, pad);
    let have = nets(s, pad);
    lemma_tag_of_node(s, pad);
    lemma_pad_tag(p);
    lemma_block_ends(p);
    lemma_first_char(p, 0, p.len() as int, '"');
    lemma_first_char(p, q + 1, p.len() as int, '"');
    lemma_pad_states(s, pad);
    assert(s[a + e] == p[e]);
    assert(e < p.len() - 1);
    // Every edit lies behind the number.
    if have.len() > 0 {
        let n = have[0];
        lemma_tagged(s, kids, "net"@);
        assert(kids.contains(n));
        let k = choose|k: int| 0 <= k < kids.len() && kids[k] == n;
        lemma_children_laid_out(s, pad);
        lemma_laid_out_order(kids, a, pad.end + 1, k);
        assert(a + e < n.start);
        lemma_cut(s, n.start, a + e);
        assert(is_node(s, kids[k]));
    } else if wanted is Some {
        let at = insert_at(s, pad);
        lemma_insert_point(s, pad);
        lemma_last_leader(s, kids);
        match last_leader(s, kids) {
            Some(kid) => {
                let k = choose|k: int| 0 <= k < kids.len() && kids[k] == kid;
                lemma_children_laid_out(s, pad);
                lemma_laid_out_order(kids, a, pad.end + 1, k);
                assert(is_node(s, kids[k]));
            },
            None => {
                let limit = if kids.len() > 0 {
                    kids[0].start
                } else {
                    pad.end
                };
                lemma_gap_start(s, a, limit);
                lemma_first_char(s, gap_start(s, a, limit), limit, '\n');
                assert(a + e < limit);
                assert(gap_start(s, a, limit) > a + e);
            },
        }
        assert(a + e < at);
    }
    lemma_pad_states(s, pad);
    assert(t.len() > e);
    assert forall|k: int| 0 <= k <= e implies #[trigger] p[k] == t[k] by {}
    lemma_quoted_prefix(p, t);
    assert forall|k: int| 0 < k < 4 implies !ends_tag(#[trigger] t[k]) by {
        assert(t[k] == p[k]);
    }
    assert(q >= 4) by {
        assert(p[q] == '"');
    }
    assert(t[4] == p[4]);
    assert(t[0] == p[0] && t[1] == p[1] && t[2] == p[2] && t[3] == p[3]);
    lemma_tag_is(t, 0, 4);
    reveal_strlit("pad");
    assert(t.subrange(1, 4) =~= "pad"@);
}

/// Nodes laid out in a range come in order.
proof fn lemma_laid_out_order(ns: Seq<Node>, i: int, hi: int, k: int)
    requires
        laid_out(ns, i, hi),
        0 <= k < ns.len(),
    ensures
        ns[0].start <= ns[k].start,
{
    if k > 0 {
        lemma_laid_out_bounds(ns.skip(1), ns[0].end + 1, hi, k - 1);
        assert(ns.skip(1)[k - 1] == ns[k]);
    }
}

/// On a board laid out as KiCad lays it out, with writable names, a sync leaves
/// every footprint and pad told by what it was told by.
pub proof fn law_plain_boards_keep_names(s: Seq<char>, w: Wiring)
    requires
        is_plain(s),
        is_writable(s, w),
    ensures
        keeps_names(s, w),
{
    lemma_writable(s, w);
    lemma_footprints_are_nodes(s);
    assert forall|i: int| 0 <= i < footprints(s).len() implies footprint_keeps(
        s,
        #[trigger] footprints(s)[i],
        w,
    ) by {
        let fp = footprints(s)[i];
        let b = node_text(s, fp);
        assert(is_plain_footprint(s, footprints(s)[i]));
        match reference_of(b) {
            Some(reference) => {
                let ns = pads(s, fp);
                let f = pad_sync(s, reference, w);
                let t = footprint_sync(s, w)(fp);
                let e = reference_end(b)->0;
                lemma_pads_are_nodes(s, fp);
                lemma_tagged(s, children(s, fp), "pad"@);
                lemma_children_laid_out(s, fp);
                lemma_tagged_laid_out(s, children(s, fp), "pad"@, fp.start, fp.end + 1);
                assert forall|j: int| 0 <= j < ns.len() implies pad_keeps(
                    s,
                    reference,
                    #[trigger] ns[j],
                    w,
                ) by {
                    assert(is_plain_pad(s, pads(s, fp)[j]));
                    assert(pad_is_writable(s, reference, pads(s, fp)[j], w));
                    match first_quoted(node_text(s, ns[j])) {
                        Some(number) => {
                            lemma_plain_pad(s, ns[j], want(w, reference, number));
                        },
                        None => {},
                    }
                }
                reveal_strlit("(property \"Reference\" \"");
                lemma_first_match(b, 0, b.len() as int, reference_marker());
                lemma_first_char(
                    b,
                    first_match(b, 0, b.len() as int, reference_marker())->0
                        + reference_marker().len(),
                    b.len() as int,
                    '"',
                );
                if ns.len() > 0 {
                    assert(t == s.subrange(fp.start, ns[0].start) + f(ns[0]) + patch(
                        s,
                        ns[0].end + 1,
                        fp.end + 1,
                        ns.skip(1),
                        f,
                    ));
                } else {
                    assert(t == s.subrange(fp.start, fp.end + 1));
                }
                assert forall|k: int| 0 <= k <= e implies #[trigger] b[k] == t[k] by {}
                lemma_reference_prefix(b, t);
            },
            None => {},
        }
    }
}

} // verus!
