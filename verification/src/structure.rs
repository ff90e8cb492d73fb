//! How edits inside nodes leave the structure around them alone.
//!
//! A block is the text of one closed list. Replacing a block by another block,
//! or adding white space and whole blocks where a list's children stand, changes
//! neither which other nodes the scanner finds nor what it reads in them.

use crate::scan::{
    children, close_from, close_position, closes, node_text, nodes_from, nodes_in, opens, outside,
    run, step, tag_at, tag_end, tagged, Lex, Node,
};
use crate::text::is_white_space;
use vstd::prelude::*;

verus! {

// ─── Runs of the scanner ─────────────────────────────────────────────────────

/// `l` with `k` more lists open.
pub open spec fn deeper(l: Lex, k: nat) -> Lex {
    Lex { depth: l.depth + k, ..l }
}

/// Outside every string.
pub open spec fn unquoted(l: Lex) -> bool {
    !l.quoted && !l.escaped
}

pub proof fn lemma_run_split(l: Lex, s: Seq<char>, a: int, b: int, c: int)
    requires
        a <= b <= c,
    ensures
        run(l, s, a, c) == run(run(l, s, a, b), s, b, c),
    decreases c - b,
{
    if b < c {
        lemma_run_split(l, s, a, b, c - 1);
    }
}

pub proof fn lemma_run_front(l: Lex, s: Seq<char>, a: int, b: int)
    requires
        a < b,
    ensures
        run(l, s, a, b) == run(step(l, s[a]), s, a + 1, b),
{
    lemma_run_split(l, s, a, a + 1, b);
    assert(run(l, s, a, a + 1) == step(run(l, s, a, a), s[a]));
}

pub proof fn lemma_run_same(l: Lex, s: Seq<char>, a: int, b: int, t: Seq<char>, p: int)
    requires
        0 <= a <= b <= s.len(),
        0 <= p,
        p + (b - a) <= t.len(),
        s.subrange(a, b) == t.subrange(p, p + (b - a)),
    ensures
        run(l, s, a, b) == run(l, t, p, p + (b - a)),
    decreases b - a,
{
    if a < b {
        assert(s.subrange(a, b - 1) =~= t.subrange(p, p + (b - 1 - a))) by {
            assert forall|k: int| 0 <= k < b - 1 - a implies #[trigger] s.subrange(a, b - 1)[k]
                == t.subrange(p, p + (b - 1 - a))[k] by {
                assert(s.subrange(a, b)[k] == t.subrange(p, p + (b - a))[k]);
            }
        }
        lemma_run_same(l, s, a, b - 1, t, p);
        let k = b - 1 - a;
        assert(s.subrange(a, b)[k] == s[b - 1]);
        assert(t.subrange(p, p + (b - a))[k] == t[p + k]);
        assert(run(l, t, p, p + (b - a)) == step(run(l, t, p, p + k), t[p + k]));
    }
}

/// A closed list: what holds from its opening to its closing.
pub proof fn lemma_close_from(s: Seq<char>, i: int, l: Lex)
    requires
        l.depth >= 1,
        0 <= i <= s.len(),
    ensures
        match close_from(s, i, l) {
            Some(e) => {
                &&& i <= e < s.len()
                &&& s[e] == ')'
                &&& run(l, s, i, e).depth == 1
                &&& !run(l, s, i, e).quoted
                &&& forall|j: int| i <= j <= e ==> (#[trigger] run(l, s, i, j)).depth >= 1
                &&& forall|j: int| i <= j < e ==> !closes(#[trigger] run(l, s, i, j), s[j])
            },
            None => {
                &&& forall|j: int| i <= j <= s.len() ==> (#[trigger] run(l, s, i, j)).depth >= 1
                &&& forall|j: int| i <= j < s.len() ==> !closes(#[trigger] run(l, s, i, j), s[j])
            },
        },
    decreases s.len() - i,
{
    if i < s.len() && !closes(l, s[i]) {
        let l2 = step(l, s[i]);
        lemma_close_from(s, i + 1, l2);
        assert forall|j: int| i < j <= s.len() implies #[trigger] run(l, s, i, j) == run(
            l2,
            s,
            i + 1,
            j,
        ) by {
            lemma_run_front(l, s, i, j);
        }
    }
}

proof fn lemma_deeper(l: Lex, k: nat, s: Seq<char>, i: int, j: int)
    requires
        i <= j,
        forall|m: int| i <= m < j ==> (#[trigger] run(l, s, i, m)).depth >= 1 || s[m] != ')',
    ensures
        run(deeper(l, k), s, i, j) == deeper(run(l, s, i, j), k),
    decreases j - i,
{
    if i < j {
        lemma_deeper(l, k, s, i, j - 1);
        assert(run(l, s, i, j - 1).depth >= 1 || s[j - 1] != ')');
    }
}

/// Across a closed list the scanner is deeper inside, and back where it was
/// behind it.
pub proof fn lemma_block(s: Seq<char>, i: int, e: int, l: Lex)
    requires
        0 <= i < s.len(),
        s[i] == '(',
        close_position(s, i) == Some(e),
        unquoted(l),
    ensures
        i < e < s.len(),
        s[e] == ')',
        forall|j: int| i < j <= e ==> (#[trigger] run(l, s, i, j)).depth > l.depth,
        run(l, s, i, e + 1) == l,
{
    let o = outside();
    let o1 = step(o, s[i]);
    lemma_close_from(s, i + 1, o1);
    assert(deeper(o, l.depth) == l);
    assert(run(o, s, i, i) == o);
    assert forall|j: int| i < j <= e + 1 implies #[trigger] run(o, s, i, j) == run(
        o1,
        s,
        i + 1,
        j,
    ) by {
        lemma_run_front(o, s, i, j);
    }
    assert forall|j: int| i < j <= e + 1 implies #[trigger] run(l, s, i, j) == deeper(
        run(o, s, i, j),
        l.depth,
    ) by {
        lemma_deeper(o, l.depth, s, i, j);
    }
    assert forall|j: int| i < j <= e implies (#[trigger] run(l, s, i, j)).depth > l.depth by {
        assert(run(o, s, i, j).depth >= 1);
    }
    assert(run(o, s, i, e + 1) == step(run(o, s, i, e), s[e]));
    lemma_run_wellformed(o, s, i, e);
}

/// Escaped only in a string.
pub proof fn lemma_run_wellformed(l: Lex, s: Seq<char>, i: int, j: int)
    requires
        l.escaped ==> l.quoted,
    ensures
        run(l, s, i, j).escaped ==> run(l, s, i, j).quoted,
    decreases j - i,
{
    if i < j {
        lemma_run_wellformed(l, s, i, j - 1);
    }
}

/// A list that never closes keeps everything behind its opening deeper.
proof fn lemma_unclosed(s: Seq<char>, i: int, j: int, l: Lex)
    requires
        0 <= i < j <= s.len(),
        s[i] == '(',
        close_position(s, i) is None,
        unquoted(l),
    ensures
        run(l, s, i, j).depth > l.depth,
{
    let o = outside();
    let o1 = step(o, s[i]);
    lemma_close_from(s, i + 1, o1);
    assert(deeper(o, l.depth) == l);
    assert(run(o, s, i, i) == o);
    assert forall|m: int| i < m <= j implies #[trigger] run(o, s, i, m) == run(
        o1,
        s,
        i + 1,
        m,
    ) by {
        lemma_run_front(o, s, i, m);
    }
    lemma_deeper(o, l.depth, s, i, j);
    assert(run(o, s, i, j).depth >= 1);
}

// ─── Blocks ──────────────────────────────────────────────────────────────────

/// Whether `b` is the text of one closed list.
pub open spec fn is_block(b: Seq<char>) -> bool {
    &&& b.len() > 0
    &&& b[0] == '('
    &&& close_position(b, 0) == Some(b.len() - 1)
}

/// Where the outermost list closes depends on the text up to there alone.
pub proof fn lemma_close_same(s: Seq<char>, i: int, l: Lex, e: int, t: Seq<char>, p: int)
    requires
        0 <= i <= e < s.len(),
        close_from(s, i, l) == Some(e),
        0 <= p,
        p + (e + 1 - i) <= t.len(),
        s.subrange(i, e + 1) == t.subrange(p, p + (e + 1 - i)),
    ensures
        close_from(t, p, l) == Some(p + (e - i)),
    decreases e - i,
{
    assert(s.subrange(i, e + 1)[0] == s[i]);
    assert(t.subrange(p, p + (e + 1 - i))[0] == t[p]);
    if !closes(l, s[i]) {
        if i == e {
            assert(close_from(s, i + 1, step(l, s[i])) == Some(e));
            lemma_close_bound(s, i + 1, step(l, s[i]));
        }
        assert(s.subrange(i + 1, e + 1) =~= t.subrange(p + 1, p + (e + 1 - i))) by {
            assert forall|k: int| 0 <= k < e - i implies #[trigger] s.subrange(i + 1, e + 1)[k]
                == t.subrange(p + 1, p + (e + 1 - i))[k] by {
                assert(s.subrange(i, e + 1)[k + 1] == s[i + 1 + k]);
                assert(t.subrange(p, p + (e + 1 - i))[k + 1] == t[p + 1 + k]);
            }
        }
        lemma_close_same(s, i + 1, step(l, s[i]), e, t, p + 1);
    }
}

proof fn lemma_close_bound(s: Seq<char>, i: int, l: Lex)
    ensures
        close_from(s, i, l) matches Some(e) ==> i <= e < s.len(),
    decreases s.len() - i,
{
    if 0 <= i < s.len() && !closes(l, s[i]) {
        lemma_close_bound(s, i + 1, step(l, s[i]));
    }
}

/// A list that does not close in a text does not close in the same text.
pub proof fn lemma_close_none_same(s: Seq<char>, i: int, l: Lex, t: Seq<char>, p: int)
    requires
        0 <= i <= s.len(),
        close_from(s, i, l) is None,
        0 <= p <= t.len(),
        s.skip(i) == t.skip(p),
    ensures
        close_from(t, p, l) is None,
    decreases s.len() - i,
{
    assert(s.skip(i).len() == s.len() - i);
    assert(t.skip(p).len() == t.len() - p);
    if i < s.len() {
        assert(s.skip(i)[0] == s[i]);
        assert(t.skip(p)[0] == t[p]);
        assert(s.skip(i + 1) =~= s.skip(i).skip(1));
        assert(t.skip(p + 1) =~= t.skip(p).skip(1));
        lemma_close_none_same(s, i + 1, step(l, s[i]), t, p + 1);
    }
}

/// The text of a closed node is a block.
pub proof fn lemma_node_is_block(s: Seq<char>, i: int, e: int)
    requires
        0 <= i < s.len(),
        s[i] == '(',
        close_position(s, i) == Some(e),
    ensures
        i < e < s.len(),
        is_block(s.subrange(i, e + 1)),
{
    lemma_block(s, i, e, outside());
    let b = s.subrange(i, e + 1);
    assert(b.subrange(0, b.len() as int) =~= b);
    lemma_close_same(s, i, outside(), e, b, 0);
}

/// A block is found as a node wherever it stands.
pub proof fn lemma_block_is_node(t: Seq<char>, p: int, b: Seq<char>)
    requires
        is_block(b),
        0 <= p,
        p + b.len() <= t.len(),
        t.subrange(p, p + b.len()) == b,
    ensures
        t[p] == '(',
        close_position(t, p) == Some(p + b.len() - 1),
        b.len() >= 2,
{
    lemma_block(b, 0, b.len() - 1, outside());
    assert(b.subrange(0, b.len() as int) =~= b);
    assert(t.subrange(p, p + b.len())[0] == t[p]);
    lemma_close_same(b, 0, outside(), b.len() - 1, t, p);
}

/// Running over a block changes nothing.
pub proof fn lemma_run_block(l: Lex, t: Seq<char>, p: int, b: Seq<char>)
    requires
        is_block(b),
        unquoted(l),
        0 <= p,
        p + b.len() <= t.len(),
        t.subrange(p, p + b.len()) == b,
    ensures
        run(l, t, p, p + b.len()) == l,
{
    lemma_block_is_node(t, p, b);
    lemma_block(t, p, p + b.len() - 1, l);
}

// ─── Nodes at one depth ──────────────────────────────────────────────────────

/// The texts of nodes.
pub open spec fn node_texts(s: Seq<char>, ns: Seq<Node>) -> Seq<Seq<char>> {
    ns.map_values(|n: Node| node_text(s, n))
}

pub proof fn lemma_nodes_bounds(s: Seq<char>, i: int, hi: int, l: Lex, d: nat)
    requires
        0 <= i,
        hi <= s.len(),
    ensures
        forall|k: int|
            0 <= k < nodes_from(s, i, hi, l, d).len() ==> {
                let n = #[trigger] nodes_from(s, i, hi, l, d)[k];
                &&& i <= n.start < hi
                &&& n.start < n.end < s.len()
                &&& s[n.start] == '('
                &&& close_position(s, n.start) == Some(n.end)
                &&& is_block(node_text(s, n))
            },
    decreases hi - i,
{
    if i < hi {
        lemma_nodes_bounds(s, i + 1, hi, step(l, s[i]), d);
        let rest = nodes_from(s, i + 1, hi, step(l, s[i]), d);
        let all = nodes_from(s, i, hi, l, d);
        if close_position(s, i) is Some && opens(l, s[i], d) {
            lemma_node_is_block(s, i, close_position(s, i)->0);
            assert forall|k: int| 0 <= k < all.len() implies {
                let n = #[trigger] all[k];
                &&& i <= n.start < hi
                &&& n.start < n.end < s.len()
                &&& s[n.start] == '('
                &&& close_position(s, n.start) == Some(n.end)
                &&& is_block(node_text(s, n))
            } by {
                if k > 0 {
                    assert(all[k] == rest[k - 1]);
                }
            }
        }
    }
}

proof fn lemma_nodes_inside(s: Seq<char>, i: int, e: int, j: int, hi: int, l: Lex)
    requires
        0 <= i < s.len(),
        s[i] == '(',
        close_position(s, i) == Some(e),
        unquoted(l),
        i < j <= e + 1 <= hi,
    ensures
        nodes_from(s, j, hi, run(l, s, i, j), l.depth) == nodes_from(s, e + 1, hi, l, l.depth),
    decreases e + 1 - j,
{
    lemma_block(s, i, e, l);
    if j <= e {
        lemma_nodes_inside(s, i, e, j + 1, hi, l);
        assert(run(l, s, i, j).depth > l.depth);
        assert(run(l, s, i, j + 1) == step(run(l, s, i, j), s[j]));
    }
}

/// A closed list is one node, and the scan goes on behind it.
pub proof fn lemma_skip_block(s: Seq<char>, i: int, e: int, hi: int, l: Lex)
    requires
        0 <= i < s.len(),
        s[i] == '(',
        close_position(s, i) == Some(e),
        unquoted(l),
        e < hi,
    ensures
        i < e < s.len(),
        nodes_from(s, i, hi, l, l.depth) == seq![Node { start: i, end: e }] + nodes_from(
            s,
            e + 1,
            hi,
            l,
            l.depth,
        ),
{
    lemma_block(s, i, e, l);
    lemma_nodes_inside(s, i, e, i + 1, hi, l);
    assert(run(l, s, i, i + 1) == step(run(l, s, i, i), s[i]));
}

/// Behind an unclosed list there are no nodes at its depth.
proof fn lemma_no_nodes_behind(s: Seq<char>, i: int, j: int, l: Lex)
    requires
        0 <= i < j,
        i < s.len(),
        s[i] == '(',
        close_position(s, i) is None,
        unquoted(l),
    ensures
        nodes_from(s, j, s.len() as int, run(l, s, i, j), l.depth) == Seq::<Node>::empty(),
    decreases s.len() - j,
{
    if j < s.len() {
        lemma_unclosed(s, i, j, l);
        lemma_no_nodes_behind(s, i, j + 1, l);
        assert(run(l, s, i, j + 1) == step(run(l, s, i, j), s[j]));
    }
}

// ─── Replacing nodes ─────────────────────────────────────────────────────────

/// The text of `s` from `i` to `hi` with each of `ns` replaced by what `f` gives
/// for it.
pub open spec fn patch(
    s: Seq<char>,
    i: int,
    hi: int,
    ns: Seq<Node>,
    f: spec_fn(Node) -> Seq<char>,
) -> Seq<char>
    decreases ns.len(),
{
    if ns.len() == 0 {
        s.subrange(i, hi)
    } else {
        s.subrange(i, ns[0].start) + f(ns[0]) + patch(s, ns[0].end + 1, hi, ns.skip(1), f)
    }
}

proof fn lemma_patch_front(
    s: Seq<char>,
    i: int,
    hi: int,
    ns: Seq<Node>,
    f: spec_fn(Node) -> Seq<char>,
)
    requires
        0 <= i < hi <= s.len(),
        ns.len() > 0 ==> i < ns[0].start < hi,
    ensures
        patch(s, i, hi, ns, f) == seq![s[i]] + patch(s, i + 1, hi, ns, f),
{
    if ns.len() == 0 {
        assert(s.subrange(i, hi) =~= seq![s[i]] + s.subrange(i + 1, hi));
    } else {
        assert(s.subrange(i, ns[0].start) =~= seq![s[i]] + s.subrange(i + 1, ns[0].start));
        assert(patch(s, i, hi, ns, f) =~= seq![s[i]] + patch(s, i + 1, hi, ns, f));
    }
}

/// Replacing nodes by blocks leaves, as the nodes at that depth, exactly those
/// blocks.
pub proof fn lemma_patch_nodes(
    s: Seq<char>,
    i: int,
    l: Lex,
    d: nat,
    f: spec_fn(Node) -> Seq<char>,
    t: Seq<char>,
    p: int,
)
    requires
        0 <= i <= s.len(),
        l.escaped ==> l.quoted,
        0 <= p <= t.len(),
        forall|k: int|
            0 <= k < nodes_from(s, i, s.len() as int, l, d).len() ==> is_block(
                f(#[trigger] nodes_from(s, i, s.len() as int, l, d)[k]),
            ),
        t.skip(p) == patch(s, i, s.len() as int, nodes_from(s, i, s.len() as int, l, d), f),
    ensures
        node_texts(t, nodes_from(t, p, t.len() as int, l, d)) == nodes_from(
            s,
            i,
            s.len() as int,
            l,
            d,
        ).map_values(f),
    decreases s.len() - i,
{
    let len = s.len() as int;
    let ns = nodes_from(s, i, len, l, d);
    let out = patch(s, i, len, ns, f);
    assert(t.skip(p).len() == t.len() - p);
    if i >= len {
        assert(out =~= Seq::<char>::empty());
        assert(node_texts(t, nodes_from(t, p, t.len() as int, l, d)) =~= ns.map_values(f));
    } else if opens(l, s[i], d) && close_position(s, i) is Some {
        let e = close_position(s, i)->0;
        lemma_block(s, i, e, l);
        lemma_skip_block(s, i, e, len, l);
        let n = Node { start: i, end: e };
        let rest = nodes_from(s, e + 1, len, l, d);
        assert(ns[0] == n);
        assert(ns.skip(1) =~= rest);
        let b = f(n);
        assert(is_block(b));
        assert(s.subrange(i, i) =~= Seq::<char>::empty());
        let tail = patch(s, e + 1, len, rest, f);
        assert(out =~= b + tail);
        let q = p + b.len();
        assert(t.subrange(p, q) =~= b) by {
            assert(t.skip(p).subrange(0, b.len() as int) =~= t.subrange(p, q));
            assert((b + tail).subrange(0, b.len() as int) =~= b);
        }
        assert(t.skip(q) =~= tail) by {
            assert(t.skip(p).skip(b.len() as int) =~= t.skip(q));
            assert((b + tail).skip(b.len() as int) =~= tail);
        }
        assert forall|k: int| 0 <= k < rest.len() implies is_block(f(#[trigger] rest[k])) by {
            assert(rest[k] == ns[k + 1]);
        }
        lemma_patch_nodes(s, e + 1, l, d, f, t, q);
        lemma_block_is_node(t, p, b);
        lemma_skip_block(t, p, q - 1, t.len() as int, l);
        let tn = nodes_from(t, p, t.len() as int, l, d);
        let trest = nodes_from(t, q, t.len() as int, l, d);
        assert(tn == seq![Node { start: p, end: q - 1 }] + trest);
        assert(node_text(t, Node { start: p, end: q - 1 }) == b);
        assert(node_texts(t, tn) =~= seq![b] + node_texts(t, trest));
        assert(ns.map_values(f) =~= seq![b] + rest.map_values(f));
    } else {
        let l2 = step(l, s[i]);
        lemma_nodes_bounds(s, i + 1, len, l2, d);
        assert(ns == nodes_from(s, i + 1, len, l2, d));
        lemma_patch_front(s, i, len, ns, f);
        assert(t[p] == s[i]) by {
            assert(t.skip(p)[0] == t[p]);
        }
        assert(t.skip(p + 1) =~= patch(s, i + 1, len, ns, f)) by {
            assert(t.skip(p).skip(1) =~= t.skip(p + 1));
            assert((seq![s[i]] + patch(s, i + 1, len, ns, f)).skip(1) =~= patch(
                s,
                i + 1,
                len,
                ns,
                f,
            ));
        }
        lemma_patch_nodes(s, i + 1, l2, d, f, t, p + 1);
        if opens(l, s[i], d) {
            lemma_no_nodes_behind(s, i, i + 1, l);
            assert(run(l, s, i, i + 1) == step(run(l, s, i, i), s[i]));
            assert(ns =~= Seq::<Node>::empty());
            assert(s.skip(i) =~= s.subrange(i, len));
            lemma_close_none_same(s, i, outside(), t, p);
        }
    }
}

/// Walking over a block does not close the list around it.
proof fn lemma_close_over_block(s: Seq<char>, i: int, e: int, j: int, l: Lex)
    requires
        0 <= i < s.len(),
        s[i] == '(',
        close_position(s, i) == Some(e),
        unquoted(l),
        l.depth >= 1,
        i <= j <= e + 1,
    ensures
        e < s.len(),
        close_from(s, j, run(l, s, i, j)) == close_from(s, e + 1, l),
    decreases e + 1 - j,
{
    lemma_block(s, i, e, l);
    if j <= e {
        lemma_close_over_block(s, i, e, j + 1, l);
        assert(run(l, s, i, j + 1) == step(run(l, s, i, j), s[j]));
        if j > i {
            assert(run(l, s, i, j).depth > l.depth);
        }
    }
}

/// Replacing a closed list's children by blocks leaves it closed at its end.
proof fn lemma_patch_close(
    s: Seq<char>,
    i: int,
    l: Lex,
    f: spec_fn(Node) -> Seq<char>,
    t: Seq<char>,
    p: int,
)
    requires
        0 <= i <= s.len(),
        l.depth >= 1,
        l.escaped ==> l.quoted,
        close_from(s, i, l) == Some(s.len() - 1),
        0 <= p <= t.len(),
        forall|k: int|
            0 <= k < nodes_from(s, i, s.len() as int, l, 1).len() ==> is_block(
                f(#[trigger] nodes_from(s, i, s.len() as int, l, 1)[k]),
            ),
        t.skip(p) == patch(s, i, s.len() as int, nodes_from(s, i, s.len() as int, l, 1), f),
    ensures
        close_from(t, p, l) == Some(t.len() - 1),
    decreases s.len() - i,
{
    let len = s.len() as int;
    let ns = nodes_from(s, i, len, l, 1);
    let out = patch(s, i, len, ns, f);
    assert(t.skip(p).len() == t.len() - p);
    assert(i < len);
    if opens(l, s[i], 1) && close_position(s, i) is Some {
        let e = close_position(s, i)->0;
        lemma_block(s, i, e, l);
        lemma_skip_block(s, i, e, len, l);
        let n = Node { start: i, end: e };
        let rest = nodes_from(s, e + 1, len, l, 1);
        assert(ns[0] == n);
        assert(ns.skip(1) =~= rest);
        let b = f(n);
        assert(s.subrange(i, i) =~= Seq::<char>::empty());
        let tail = patch(s, e + 1, len, rest, f);
        assert(out =~= b + tail);
        let q = p + b.len();
        assert(t.subrange(p, q) =~= b) by {
            assert(t.skip(p).subrange(0, b.len() as int) =~= t.subrange(p, q));
            assert((b + tail).subrange(0, b.len() as int) =~= b);
        }
        assert(t.skip(q) =~= tail) by {
            assert(t.skip(p).skip(b.len() as int) =~= t.skip(q));
            assert((b + tail).skip(b.len() as int) =~= tail);
        }
        assert forall|k: int| 0 <= k < rest.len() implies is_block(f(#[trigger] rest[k])) by {
            assert(rest[k] == ns[k + 1]);
        }
        lemma_close_over_block(s, i, e, i, l);
        lemma_patch_close(s, e + 1, l, f, t, q);
        lemma_block_is_node(t, p, b);
        lemma_close_over_block(t, p, q - 1, p, l);
    } else {
        let l2 = step(l, s[i]);
        lemma_nodes_bounds(s, i + 1, len, l2, 1);
        assert(ns == nodes_from(s, i + 1, len, l2, 1));
        lemma_patch_front(s, i, len, ns, f);
        assert(t[p] == s[i]) by {
            assert(t.skip(p)[0] == t[p]);
        }
        assert(t.skip(p + 1) =~= patch(s, i + 1, len, ns, f)) by {
            assert(t.skip(p).skip(1) =~= t.skip(p + 1));
            assert((seq![s[i]] + patch(s, i + 1, len, ns, f)).skip(1) =~= patch(
                s,
                i + 1,
                len,
                ns,
                f,
            ));
        }
        if closes(l, s[i]) {
            assert(i == len - 1);
            assert(ns.len() == 0);
            assert(out =~= s.subrange(i, len));
        } else {
            lemma_patch_close(s, i + 1, l2, f, t, p + 1);
        }
    }
}

/// Replacing a block's children by blocks gives a block with those children.
pub proof fn lemma_patch_block(b: Seq<char>, f: spec_fn(Node) -> Seq<char>)
    requires
        is_block(b),
        forall|k: int|
            0 <= k < nodes_in(b, 0, b.len() as int, 1).len() ==> is_block(
                f(#[trigger] nodes_in(b, 0, b.len() as int, 1)[k]),
            ),
    ensures
        ({
            let ns = nodes_in(b, 0, b.len() as int, 1);
            let t = patch(b, 0, b.len() as int, ns, f);
            &&& is_block(t)
            &&& node_texts(t, nodes_in(t, 0, t.len() as int, 1)) == ns.map_values(f)
        }),
{
    let len = b.len() as int;
    let o = outside();
    let ns = nodes_in(b, 0, len, 1);
    let t = patch(b, 0, len, ns, f);
    lemma_block(b, 0, len - 1, o);
    let l = step(o, b[0]);
    lemma_nodes_bounds(b, 1, len, l, 1);
    assert(ns == nodes_from(b, 1, len, l, 1));
    lemma_patch_front(b, 0, len, ns, f);
    assert(t[0] == b[0]);
    assert(t.skip(1) =~= patch(b, 1, len, ns, f));
    lemma_patch_close(b, 1, l, f, t, 1);
    assert(t.skip(0) =~= t);
    lemma_patch_nodes(b, 0, o, 1, f, t, 0);
}

// ─── Order ───────────────────────────────────────────────────────────────────

/// Nodes one behind the other, from `i` on and before `hi`.
pub open spec fn laid_out(ns: Seq<Node>, i: int, hi: int) -> bool
    decreases ns.len(),
{
    if ns.len() == 0 {
        i <= hi
    } else {
        &&& i <= ns[0].start <= ns[0].end < hi
        &&& laid_out(ns.skip(1), ns[0].end + 1, hi)
    }
}

proof fn lemma_laid_out_earlier(ns: Seq<Node>, i: int, j: int, hi: int)
    requires
        laid_out(ns, j, hi),
        i <= j,
    ensures
        laid_out(ns, i, hi),
{
}

/// The nodes of a text at one depth stand one behind the other.
pub proof fn lemma_nodes_laid_out(s: Seq<char>, i: int, l: Lex, d: nat)
    requires
        0 <= i <= s.len(),
        l.escaped ==> l.quoted,
    ensures
        laid_out(nodes_from(s, i, s.len() as int, l, d), i, s.len() as int),
    decreases s.len() - i,
{
    let len = s.len() as int;
    let ns = nodes_from(s, i, len, l, d);
    if i < len {
        if opens(l, s[i], d) && close_position(s, i) is Some {
            let e = close_position(s, i)->0;
            lemma_block(s, i, e, l);
            lemma_skip_block(s, i, e, len, l);
            assert(ns.skip(1) =~= nodes_from(s, e + 1, len, l, d));
            lemma_nodes_laid_out(s, e + 1, l, d);
        } else {
            lemma_nodes_laid_out(s, i + 1, step(l, s[i]), d);
            lemma_laid_out_earlier(ns, i, i + 1, len);
        }
    }
}

/// Picking nodes by tag keeps them one behind the other.
pub proof fn lemma_tagged_laid_out(
    s: Seq<char>,
    ns: Seq<Node>,
    tag: Seq<char>,
    i: int,
    hi: int,
)
    requires
        laid_out(ns, i, hi),
    ensures
        laid_out(tagged(s, ns, tag), i, hi),
    decreases ns.len(),
{
    if ns.len() > 0 {
        lemma_tagged_laid_out(s, ns.skip(1), tag, ns[0].end + 1, hi);
        let rest = tagged(s, ns.skip(1), tag);
        if tag_at(s, ns[0].start) == tag {
            assert(tagged(s, ns, tag).skip(1) =~= rest);
        } else {
            lemma_laid_out_earlier(rest, i, ns[0].end + 1, hi);
        }
    }
}

/// What holds of every node holds of those with a tag, and they have the tag.
pub proof fn lemma_tagged(s: Seq<char>, ns: Seq<Node>, tag: Seq<char>)
    ensures
        forall|k: int|
            0 <= k < tagged(s, ns, tag).len() ==> ns.contains(
                #[trigger] tagged(s, ns, tag)[k],
            ) && tag_at(s, tagged(s, ns, tag)[k].start) == tag,
    decreases ns.len(),
{
    if ns.len() > 0 {
        let rest = tagged(s, ns.skip(1), tag);
        let all = tagged(s, ns, tag);
        lemma_tagged(s, ns.skip(1), tag);
        assert forall|k: int| 0 <= k < all.len() implies ns.contains(#[trigger] all[k]) && tag_at(
            s,
            all[k].start,
        ) == tag by {
            if tag_at(s, ns[0].start) == tag && k == 0 {
                assert(all[0] == ns[0]);
            } else {
                let m = if tag_at(s, ns[0].start) == tag {
                    k - 1
                } else {
                    k
                };
                assert(all[k] == rest[m]);
                assert(ns.skip(1).contains(rest[m]));
                let q = choose|q: int| 0 <= q < ns.skip(1).len() && ns.skip(1)[q] == rest[m];
                assert(ns[q + 1] == rest[m]);
            }
        }
    }
}

/// `f` for the nodes tagged `tag`, and no change for the others.
pub open spec fn only_tagged(
    s: Seq<char>,
    tag: Seq<char>,
    f: spec_fn(Node) -> Seq<char>,
) -> spec_fn(Node) -> Seq<char> {
    |n: Node|
        if tag_at(s, n.start) == tag {
            f(n)
        } else {
            node_text(s, n)
        }
}

/// Leaving a node out of a patch is replacing it by itself.
pub proof fn lemma_patch_tagged(
    s: Seq<char>,
    i: int,
    hi: int,
    ns: Seq<Node>,
    tag: Seq<char>,
    f: spec_fn(Node) -> Seq<char>,
)
    requires
        0 <= i,
        hi <= s.len(),
        laid_out(ns, i, hi),
    ensures
        patch(s, i, hi, tagged(s, ns, tag), f) == patch(s, i, hi, ns, only_tagged(s, tag, f)),
    decreases ns.len(),
{
    if ns.len() > 0 {
        let n = ns[0];
        let rest = tagged(s, ns.skip(1), tag);
        let g = only_tagged(s, tag, f);
        lemma_patch_tagged(s, n.end + 1, hi, ns.skip(1), tag, f);
        if tag_at(s, n.start) == tag {
            assert(tagged(s, ns, tag).skip(1) =~= rest);
        } else {
            lemma_tagged_laid_out(s, ns.skip(1), tag, n.end + 1, hi);
            lemma_patch_extend(s, i, n.end + 1, hi, rest, f);
            assert(s.subrange(i, n.end + 1) =~= s.subrange(i, n.start) + node_text(s, n));
            assert(patch(s, i, hi, ns, g) =~= s.subrange(i, n.start) + node_text(s, n) + patch(
                s,
                n.end + 1,
                hi,
                ns.skip(1),
                g,
            ));
        }
    }
}

pub proof fn lemma_patch_extend(
    s: Seq<char>,
    i: int,
    j: int,
    hi: int,
    ns: Seq<Node>,
    f: spec_fn(Node) -> Seq<char>,
)
    requires
        0 <= i <= j,
        hi <= s.len(),
        laid_out(ns, j, hi),
    ensures
        patch(s, i, hi, ns, f) == s.subrange(i, j) + patch(s, j, hi, ns, f),
{
    if ns.len() == 0 {
        assert(s.subrange(i, hi) =~= s.subrange(i, j) + s.subrange(j, hi));
    } else {
        assert(s.subrange(i, ns[0].start) =~= s.subrange(i, j) + s.subrange(j, ns[0].start));
        assert(patch(s, i, hi, ns, f) =~= s.subrange(i, j) + patch(s, j, hi, ns, f));
    }
}

// ─── Tags ────────────────────────────────────────────────────────────────────

/// Whether `c` ends a tag.
pub open spec fn ends_tag(c: char) -> bool {
    is_white_space(c) || c == '(' || c == ')'
}

/// What [`tag_end`] finds: the first character that ends a tag.
pub proof fn lemma_tag_end(s: Seq<char>, from: int)
    requires
        0 <= from,
    ensures
        match tag_end(s, from) {
            Some(j) => {
                &&& from <= j < s.len()
                &&& ends_tag(s[j])
                &&& forall|k: int| from <= k < j ==> !ends_tag(#[trigger] s[k])
            },
            None => forall|k: int| from <= k < s.len() ==> !ends_tag(#[trigger] s[k]),
        },
    decreases s.len() - from,
{
    if from < s.len() && !ends_tag(s[from]) {
        lemma_tag_end(s, from + 1);
    }
}

/// The tag is what stands up to the first character that ends one.
pub proof fn lemma_tag_is(s: Seq<char>, open: int, j: int)
    requires
        0 <= open < j < s.len(),
        ends_tag(s[j]),
        forall|k: int| open < k < j ==> !ends_tag(#[trigger] s[k]),
    ensures
        tag_at(s, open) == s.subrange(open + 1, j),
{
    lemma_tag_end(s, open + 1);
    match tag_end(s, open + 1) {
        Some(m) => {
            if m < j {
                assert(!ends_tag(s[m]));
            }
            if j < m {
                assert(!ends_tag(s[j]));
            }
        },
        None => {
            assert(!ends_tag(s[j]));
        },
    }
}

/// The tag of a block that stands in a text is the block's tag.
pub proof fn lemma_tag_of_block(t: Seq<char>, p: int, b: Seq<char>)
    requires
        is_block(b),
        0 <= p,
        p + b.len() <= t.len(),
        t.subrange(p, p + b.len()) == b,
    ensures
        tag_at(t, p) == tag_at(b, 0),
        tag_end(b, 1) is Some,
        tag_end(b, 1)->0 < b.len(),
{
    lemma_block(b, 0, b.len() - 1, outside());
    lemma_tag_end(b, 1);
    let last = b.len() - 1;
    assert(ends_tag(b[last]));
    assert(tag_end(b, 1) is Some);
    let j = tag_end(b, 1)->0;
    assert forall|k: int| 0 <= k < b.len() implies t[p + k] == #[trigger] b[k] by {
        assert(t.subrange(p, p + b.len())[k] == t[p + k]);
    }
    assert(t[p + j] == b[j]);
    assert forall|k: int| p < k < p + j implies !ends_tag(#[trigger] t[k]) by {
        assert(t[p + (k - p)] == b[k - p]);
    }
    lemma_tag_is(t, p, p + j);
    assert(t.subrange(p + 1, p + j) =~= b.subrange(1, j));
}

/// Replacing a block's children by blocks keeps its tag.
pub proof fn lemma_patch_tag(b: Seq<char>, f: spec_fn(Node) -> Seq<char>)
    requires
        is_block(b),
        forall|k: int|
            0 <= k < nodes_in(b, 0, b.len() as int, 1).len() ==> is_block(
                f(#[trigger] nodes_in(b, 0, b.len() as int, 1)[k]),
            ),
    ensures
        tag_at(patch(b, 0, b.len() as int, nodes_in(b, 0, b.len() as int, 1), f), 0) == tag_at(
            b,
            0,
        ),
{
    let len = b.len() as int;
    let ns = nodes_in(b, 0, len, 1);
    let t = patch(b, 0, len, ns, f);
    assert(b.subrange(0, len) =~= b);
    lemma_tag_of_block(b, 0, b);
    lemma_tag_end(b, 1);
    let j = tag_end(b, 1)->0;
    lemma_nodes_bounds(b, 0, len, outside(), 1);
    if ns.len() == 0 {
        assert(t =~= b);
    } else {
        let n = ns[0];
        assert(b[n.start] == '(');
        if n.start == 0 {
            assert(!opens(outside(), b[0], 1));
            lemma_nodes_bounds(b, 1, len, step(outside(), b[0]), 1);
            assert(ns == nodes_from(b, 1, len, step(outside(), b[0]), 1));
        }
        if n.start < j {
            assert(!ends_tag(b[n.start]));
        }
        let g = f(n);
        assert(is_block(g));
        assert forall|k: int| 0 <= k < n.start implies #[trigger] t[k] == b[k] by {}
        assert(t[n.start] == g[0]);
        assert forall|k: int| 0 < k < j implies !ends_tag(#[trigger] t[k]) by {
            assert(t[k] == b[k]);
        }
        lemma_tag_is(t, 0, j);
        assert(t.subrange(1, j) =~= b.subrange(1, j));
    }
}

// ─── A block inside a larger text ────────────────────────────────────────────

/// `n`, `k` positions further on.
pub open spec fn shifted(n: Node, k: int) -> Node {
    Node { start: n.start + k, end: n.end + k }
}

/// All of `ns`, `k` positions further on.
pub open spec fn shift(ns: Seq<Node>, k: int) -> Seq<Node> {
    ns.map_values(|n: Node| shifted(n, k))
}

proof fn lemma_nodes_in_range(s: Seq<char>, a: int, b: Seq<char>, i: int)
    requires
        is_block(b),
        0 <= a,
        a + b.len() <= s.len(),
        s.subrange(a, a + b.len()) == b,
        0 <= i <= b.len(),
    ensures
        nodes_from(s, a + i, a + b.len(), run(outside(), b, 0, i), 1) == shift(
            nodes_from(b, i, b.len() as int, run(outside(), b, 0, i), 1),
            a,
        ),
    decreases b.len() - i,
{
    let len = b.len() as int;
    let o = outside();
    let l = run(o, b, 0, i);
    if i < len {
        lemma_nodes_in_range(s, a, b, i + 1);
        assert(run(o, b, 0, i + 1) == step(l, b[i]));
        assert(s.subrange(a, a + len)[i] == s[a + i]);
        let rest = nodes_from(b, i + 1, len, step(l, b[i]), 1);
        if opens(l, b[i], 1) {
            lemma_run_wellformed(o, b, 0, i);
            if close_position(b, i) is None {
                lemma_unclosed(b, i, len, l);
                lemma_run_split(o, b, 0, i, len);
                lemma_block(b, 0, len - 1, o);
            }
            let e = close_position(b, i)->0;
            lemma_block(b, i, e, l);
            assert(b.subrange(i, e + 1) =~= s.subrange(a + i, a + i + (e + 1 - i))) by {
                assert forall|k: int| 0 <= k < e + 1 - i implies #[trigger] b.subrange(
                    i,
                    e + 1,
                )[k] == s.subrange(a + i, a + i + (e + 1 - i))[k] by {
                    assert(s.subrange(a, a + len)[i + k] == s[a + i + k]);
                }
            }
            lemma_close_same(b, i, o, e, s, a + i);
            assert(shift(seq![Node { start: i, end: e }] + rest, a) =~= seq![
                Node { start: a + i, end: a + e },
            ] + shift(rest, a));
        }
    } else {
        assert(shift(Seq::<Node>::empty(), a) =~= Seq::<Node>::empty());
    }
}

/// The children of a node are those of its text, where the node stands.
pub proof fn lemma_children_of_text(s: Seq<char>, n: Node)
    requires
        0 <= n.start < s.len(),
        s[n.start] == '(',
        close_position(s, n.start) == Some(n.end),
    ensures
        ({
            let b = node_text(s, n);
            &&& is_block(b)
            &&& children(s, n) == shift(nodes_in(b, 0, b.len() as int, 1), n.start)
        }),
{
    lemma_node_is_block(s, n.start, n.end);
    let b = node_text(s, n);
    assert(s.subrange(n.start, n.start + b.len()) =~= b);
    lemma_nodes_in_range(s, n.start, b, 0);
}

/// Picking by tag in a block is picking by tag where the block stands.
pub proof fn lemma_tagged_shift(
    s: Seq<char>,
    a: int,
    b: Seq<char>,
    ns: Seq<Node>,
    tag: Seq<char>,
)
    requires
        0 <= a,
        a + b.len() <= s.len(),
        s.subrange(a, a + b.len()) == b,
        forall|k: int|
            0 <= k < ns.len() ==> 0 <= (#[trigger] ns[k]).start < ns[k].end < b.len() && is_block(
                node_text(b, ns[k]),
            ),
    ensures
        tagged(s, shift(ns, a), tag) == shift(tagged(b, ns, tag), a),
    decreases ns.len(),
{
    if ns.len() > 0 {
        let n = ns[0];
        let rest = ns.skip(1);
        assert forall|k: int| 0 <= k < rest.len() implies 0 <= (#[trigger] rest[k]).start
            < rest[k].end < b.len() && is_block(node_text(b, rest[k])) by {
            assert(rest[k] == ns[k + 1]);
        }
        lemma_tagged_shift(s, a, b, rest, tag);
        assert(shift(ns, a).skip(1) =~= shift(rest, a));
        let c = node_text(b, n);
        assert(b.subrange(n.start, n.start + c.len()) =~= c);
        assert(s.subrange(a + n.start, a + n.start + c.len()) =~= c) by {
            assert forall|k: int| 0 <= k < c.len() implies #[trigger] s.subrange(
                a + n.start,
                a + n.start + c.len(),
            )[k] == c[k] by {
                assert(s.subrange(a, a + b.len())[n.start + k] == s[a + n.start + k]);
            }
        }
        lemma_tag_of_block(b, n.start, c);
        lemma_tag_of_block(s, a + n.start, c);
        if tag_at(b, n.start) == tag {
            assert(shift(seq![n] + tagged(b, rest, tag), a) =~= seq![shifted(n, a)] + shift(
                tagged(b, rest, tag),
                a,
            ));
        }
    } else {
        assert(shift(ns, a) =~= Seq::<Node>::empty());
        assert(shift(tagged(b, ns, tag), a) =~= Seq::<Node>::empty());
    }
}

/// Patching a block's text is patching it where it stands.
pub proof fn lemma_patch_shift(
    s: Seq<char>,
    a: int,
    b: Seq<char>,
    i: int,
    ns: Seq<Node>,
    f: spec_fn(Node) -> Seq<char>,
)
    requires
        0 <= a,
        0 <= i,
        a + b.len() <= s.len(),
        s.subrange(a, a + b.len()) == b,
        laid_out(ns, i, b.len() as int),
    ensures
        patch(s, a + i, a + b.len(), shift(ns, a), f) == patch(
            b,
            i,
            b.len() as int,
            ns,
            |n: Node| f(shifted(n, a)),
        ),
    decreases ns.len(),
{
    let len = b.len() as int;
    if ns.len() == 0 {
        assert(s.subrange(a + i, a + len) =~= b.subrange(i, len)) by {
            assert forall|k: int| 0 <= k < len - i implies #[trigger] s.subrange(
                a + i,
                a + len,
            )[k] == b.subrange(i, len)[k] by {
                assert(s.subrange(a, a + len)[i + k] == s[a + i + k]);
            }
        }
    } else {
        let n = ns[0];
        assert(shift(ns, a).skip(1) =~= shift(ns.skip(1), a));
        lemma_patch_shift(s, a, b, n.end + 1, ns.skip(1), f);
        assert(s.subrange(a + i, a + n.start) =~= b.subrange(i, n.start)) by {
            assert forall|k: int| 0 <= k < n.start - i implies #[trigger] s.subrange(
                a + i,
                a + n.start,
            )[k] == b.subrange(i, n.start)[k] by {
                assert(s.subrange(a, a + len)[i + k] == s[a + i + k]);
            }
        }
    }
}

proof fn lemma_laid_out_shift(ns: Seq<Node>, i: int, hi: int, k: int)
    requires
        laid_out(ns, i, hi),
    ensures
        laid_out(shift(ns, k), i + k, hi + k),
    decreases ns.len(),
{
    if ns.len() > 0 {
        lemma_laid_out_shift(ns.skip(1), ns[0].end + 1, hi, k);
        assert(shift(ns, k).skip(1) =~= shift(ns.skip(1), k));
        assert(shift(ns, k)[0] == shifted(ns[0], k));
    }
}

/// The children of a node lie one behind the other inside it.
pub proof fn lemma_children_laid_out(s: Seq<char>, n: Node)
    requires
        0 <= n.start < s.len(),
        s[n.start] == '(',
        close_position(s, n.start) == Some(n.end),
    ensures
        laid_out(children(s, n), n.start, n.end + 1),
{
    let b = node_text(s, n);
    lemma_node_is_block(s, n.start, n.end);
    lemma_children_of_text(s, n);
    lemma_nodes_laid_out(b, 0, outside(), 1);
    lemma_laid_out_shift(nodes_in(b, 0, b.len() as int, 1), 0, b.len() as int, n.start);
}

/// The texts of a node's children with some tag are read off its own text.
pub proof fn lemma_tagged_children(s: Seq<char>, n: Node, tag: Seq<char>)
    requires
        0 <= n.start < s.len(),
        s[n.start] == '(',
        close_position(s, n.start) == Some(n.end),
    ensures
        ({
            let b = node_text(s, n);
            let inner = tagged(b, nodes_in(b, 0, b.len() as int, 1), tag);
            &&& is_block(b)
            &&& tagged(s, children(s, n), tag) == shift(inner, n.start)
            &&& node_texts(s, tagged(s, children(s, n), tag)) == node_texts(b, inner)
        }),
{
    let b = node_text(s, n);
    let ns = nodes_in(b, 0, b.len() as int, 1);
    let inner = tagged(b, ns, tag);
    lemma_node_is_block(s, n.start, n.end);
    lemma_children_of_text(s, n);
    lemma_nodes_bounds(b, 0, b.len() as int, outside(), 1);
    lemma_nodes_laid_out(b, 0, outside(), 1);
    lemma_tagged_shift(s, n.start, b, ns, tag);
    lemma_tagged(b, ns, tag);
    assert forall|k: int| 0 <= k < inner.len() implies node_text(
        s,
        shifted(#[trigger] inner[k], n.start),
    ) == node_text(b, inner[k]) by {
        assert(ns.contains(inner[k]));
        assert(node_text(s, shifted(inner[k], n.start)) =~= node_text(b, inner[k]));
    }
    assert(node_texts(s, shift(inner, n.start)) =~= node_texts(b, inner));
}

// ─── Children ────────────────────────────────────────────────────────────────

/// Whether `n` is a closed list in `s`.
pub open spec fn is_node(s: Seq<char>, n: Node) -> bool {
    &&& 0 <= n.start < n.end < s.len()
    &&& s[n.start] == '('
    &&& close_position(s, n.start) == Some(n.end)
}

/// The children of a node are nodes.
pub proof fn lemma_children_are_nodes(s: Seq<char>, n: Node)
    requires
        is_node(s, n),
    ensures
        forall|k: int|
            0 <= k < children(s, n).len() ==> is_node(s, #[trigger] children(s, n)[k]),
{
    lemma_nodes_bounds(s, n.start, n.end + 1, outside(), 1);
}

/// What is laid out in a range lies in it.
pub proof fn lemma_laid_out_bounds(ns: Seq<Node>, i: int, hi: int, k: int)
    requires
        laid_out(ns, i, hi),
        0 <= k < ns.len(),
    ensures
        i <= ns[k].start <= ns[k].end < hi,
    decreases ns.len(),
{
    if k > 0 {
        lemma_laid_out_bounds(ns.skip(1), ns[0].end + 1, hi, k - 1);
    }
}

/// A child starts behind its parent's parenthesis.
pub proof fn lemma_child_is_inside(s: Seq<char>, n: Node, child: Node)
    requires
        is_node(s, n),
        children(s, n).contains(child),
    ensures
        n.start < child.start,
{
    let k = choose|k: int| 0 <= k < children(s, n).len() && children(s, n)[k] == child;
    assert(children(s, n) == nodes_from(
        s,
        n.start + 1,
        n.end + 1,
        step(outside(), s[n.start]),
        1,
    ));
    lemma_nodes_bounds(s, n.start + 1, n.end + 1, step(outside(), s[n.start]), 1);
}

/// Where a node at `d` opens, the scanner stands outside strings at `d`.
pub proof fn lemma_node_state(s: Seq<char>, i: int, hi: int, l: Lex, d: nat, k: int)
    requires
        l.escaped ==> l.quoted,
        0 <= k < nodes_from(s, i, hi, l, d).len(),
    ensures
        run(l, s, i, nodes_from(s, i, hi, l, d)[k].start) == (Lex {
            depth: d,
            quoted: false,
            escaped: false,
        }),
    decreases hi - i,
{
    let all = nodes_from(s, i, hi, l, d);
    if i < hi {
        let next = step(l, s[i]);
        let rest = nodes_from(s, i + 1, hi, next, d);
        let here = close_position(s, i) is Some && opens(l, s[i], d);
        if here && k == 0 {
            assert(all[0].start == i);
        } else {
            let j = if here {
                k - 1
            } else {
                k
            };
            assert(all[k] == rest[j]);
            lemma_node_state(s, i + 1, hi, next, d, j);
            lemma_node_behind(s, i + 1, hi, next, d, j);
            lemma_run_front(l, s, i, all[k].start);
        }
    }
}

proof fn lemma_node_behind(s: Seq<char>, i: int, hi: int, l: Lex, d: nat, k: int)
    requires
        0 <= k < nodes_from(s, i, hi, l, d).len(),
    ensures
        i <= nodes_from(s, i, hi, l, d)[k].start < hi,
    decreases hi - i,
{
    if i < hi {
        let next = step(l, s[i]);
        let rest = nodes_from(s, i + 1, hi, next, d);
        let here = close_position(s, i) is Some && opens(l, s[i], d);
        if here && k > 0 {
            assert(nodes_from(s, i, hi, l, d)[k] == rest[k - 1]);
            lemma_node_behind(s, i + 1, hi, next, d, k - 1);
        } else if !here {
            lemma_node_behind(s, i + 1, hi, next, d, k);
        }
    }
}

// ─── Blocks by tag ───────────────────────────────────────────────────────────

/// Those of the blocks `bs` whose tag is `tag`.
pub open spec fn with_tag(bs: Seq<Seq<char>>, tag: Seq<char>) -> Seq<Seq<char>>
    decreases bs.len(),
{
    if bs.len() == 0 {
        Seq::empty()
    } else {
        let rest = with_tag(bs.skip(1), tag);
        if tag_at(bs[0], 0) == tag {
            seq![bs[0]] + rest
        } else {
            rest
        }
    }
}

/// Picking by tag goes list by list.
pub proof fn lemma_with_tag_concat(a: Seq<Seq<char>>, b: Seq<Seq<char>>, tag: Seq<char>)
    ensures
        with_tag(a + b, tag) == with_tag(a, tag) + with_tag(b, tag),
    decreases a.len(),
{
    if a.len() == 0 {
        assert(a + b =~= b);
        assert(with_tag(a, tag) + with_tag(b, tag) =~= with_tag(b, tag));
    } else {
        lemma_with_tag_concat(a.skip(1), b, tag);
        assert((a + b).skip(1) =~= a.skip(1) + b);
        assert(with_tag(a + b, tag) =~= with_tag(a, tag) + with_tag(b, tag));
    }
}

/// A node's tag is its block's.
pub proof fn lemma_tag_of_node(s: Seq<char>, n: Node)
    requires
        is_node(s, n),
    ensures
        is_block(node_text(s, n)),
        tag_at(node_text(s, n), 0) == tag_at(s, n.start),
{
    lemma_node_is_block(s, n.start, n.end);
    lemma_tag_of_block(s, n.start, node_text(s, n));
}

/// Picking nodes by tag is picking their blocks by tag.
pub proof fn lemma_with_tag_nodes(s: Seq<char>, ns: Seq<Node>, tag: Seq<char>)
    requires
        forall|k: int| 0 <= k < ns.len() ==> is_node(s, #[trigger] ns[k]),
    ensures
        node_texts(s, tagged(s, ns, tag)) == with_tag(node_texts(s, ns), tag),
    decreases ns.len(),
{
    if ns.len() > 0 {
        let rest = ns.skip(1);
        assert forall|k: int| 0 <= k < rest.len() implies is_node(s, #[trigger] rest[k]) by {
            assert(rest[k] == ns[k + 1]);
        }
        lemma_with_tag_nodes(s, rest, tag);
        lemma_tag_of_node(s, ns[0]);
        assert(node_texts(s, ns).skip(1) =~= node_texts(s, rest));
        assert(node_texts(s, ns)[0] == node_text(s, ns[0]));
        assert(node_texts(s, tagged(s, ns, tag)) =~= with_tag(node_texts(s, ns), tag));
    } else {
        assert(node_texts(s, tagged(s, ns, tag)) =~= with_tag(node_texts(s, ns), tag));
    }
}

/// Where replacements keep the tag of the nodes that they replace, picking by
/// tag finds exactly the replacements.
pub proof fn lemma_with_tag_map(
    s: Seq<char>,
    ns: Seq<Node>,
    tag: Seq<char>,
    f: spec_fn(Node) -> Seq<char>,
)
    requires
        forall|k: int|
            0 <= k < ns.len() ==> is_node(s, #[trigger] ns[k]) && (tag_at(s, ns[k].start) == tag
                ==> tag_at(f(ns[k]), 0) == tag),
    ensures
        with_tag(ns.map_values(only_tagged(s, tag, f)), tag) == tagged(s, ns, tag).map_values(f),
    decreases ns.len(),
{
    let g = only_tagged(s, tag, f);
    if ns.len() > 0 {
        let rest = ns.skip(1);
        assert forall|k: int| 0 <= k < rest.len() implies is_node(s, #[trigger] rest[k]) && (tag_at(
            s,
            rest[k].start,
        ) == tag ==> tag_at(f(rest[k]), 0) == tag) by {
            assert(rest[k] == ns[k + 1]);
        }
        lemma_with_tag_map(s, rest, tag, f);
        lemma_tag_of_node(s, ns[0]);
        assert(is_node(s, ns[0]));
        assert(ns.map_values(g).skip(1) =~= rest.map_values(g));
        assert(ns.map_values(g)[0] == g(ns[0]));
    }
    assert(with_tag(ns.map_values(g), tag) =~= tagged(s, ns, tag).map_values(f));
}

// ─── Texts side by side ──────────────────────────────────────────────────────

/// The texts of the nodes that `s` shows at `d`, entered in state `l`.
pub open spec fn texts_from(s: Seq<char>, l: Lex, d: nat) -> Seq<Seq<char>> {
    node_texts(s, nodes_from(s, 0, s.len() as int, l, d))
}

/// The texts of the children of a block.
pub open spec fn child_texts(b: Seq<char>) -> Seq<Seq<char>> {
    texts_from(b, outside(), 1)
}

/// Directly inside a block: one list open, no string.
pub open spec fn inside() -> Lex {
    Lex { depth: 1, quoted: false, escaped: false }
}

proof fn lemma_nodes_prefix(l0: Lex, x: Seq<char>, w: Seq<char>, i: int, d: nat)
    requires
        0 <= i <= x.len(),
        l0.escaped ==> l0.quoted,
        unquoted(run(l0, x, 0, x.len() as int)),
        run(l0, x, 0, x.len() as int).depth == d,
    ensures
        nodes_from(x + w, i, x.len() as int, run(l0, x, 0, i), d) == nodes_from(
            x,
            i,
            x.len() as int,
            run(l0, x, 0, i),
            d,
        ),
    decreases x.len() - i,
{
    let s = x + w;
    let len = x.len() as int;
    let l = run(l0, x, 0, i);
    if i < len {
        lemma_nodes_prefix(l0, x, w, i + 1, d);
        assert(run(l0, x, 0, i + 1) == step(l, x[i]));
        assert(s[i] == x[i]);
        if opens(l, x[i], d) {
            lemma_run_wellformed(l0, x, 0, i);
            if close_position(x, i) is None {
                lemma_unclosed(x, i, len, l);
                lemma_run_split(l0, x, 0, i, len);
            }
            let e = close_position(x, i)->0;
            lemma_block(x, i, e, l);
            assert(x.subrange(i, e + 1) =~= s.subrange(i, i + (e + 1 - i)));
            lemma_close_same(x, i, outside(), e, s, i);
        }
    }
}

proof fn lemma_nodes_split(s: Seq<char>, i: int, m: int, hi: int, l: Lex, d: nat)
    requires
        i <= m <= hi,
    ensures
        nodes_from(s, i, hi, l, d) == nodes_from(s, i, m, l, d) + nodes_from(
            s,
            m,
            hi,
            run(l, s, i, m),
            d,
        ),
    decreases m - i,
{
    if i < m {
        lemma_nodes_split(s, i + 1, m, hi, step(l, s[i]), d);
        lemma_run_front(l, s, i, m);
        assert(nodes_from(s, i, hi, l, d) =~= nodes_from(s, i, m, l, d) + nodes_from(
            s,
            m,
            hi,
            run(l, s, i, m),
            d,
        ));
    } else {
        assert(nodes_from(s, i, m, l, d) =~= Seq::<Node>::empty());
        assert(nodes_from(s, i, hi, l, d) =~= nodes_from(s, i, m, l, d) + nodes_from(
            s,
            m,
            hi,
            l,
            d,
        ));
    }
}

/// Where no list is left open at `d`, the nodes of two texts side by side are
/// those of the first and those of the second.
pub proof fn lemma_texts_concat(l0: Lex, x: Seq<char>, w: Seq<char>, d: nat)
    requires
        l0.escaped ==> l0.quoted,
        unquoted(run(l0, x, 0, x.len() as int)),
        run(l0, x, 0, x.len() as int).depth == d,
    ensures
        texts_from(x + w, l0, d) == texts_from(x, l0, d) + texts_from(
            w,
            run(l0, x, 0, x.len() as int),
            d,
        ),
{
    let s = x + w;
    let m = x.len() as int;
    let l = run(l0, x, 0, m);
    assert(s.subrange(0, m) =~= x.subrange(0, m));
    lemma_run_same(l0, x, 0, m, s, 0);
    lemma_nodes_split(s, 0, m, s.len() as int, l0, d);
    lemma_nodes_prefix(l0, x, w, 0, d);
    let first = nodes_from(x, 0, m, l0, d);
    let second = nodes_from(s, m, s.len() as int, l, d);
    lemma_nodes_bounds(x, 0, m, l0, d);
    assert forall|k: int| 0 <= k < first.len() implies node_text(s, #[trigger] first[k])
        == node_text(x, first[k]) by {
        assert(node_text(s, first[k]) =~= node_text(x, first[k]));
    }
    let f = |n: Node| node_text(w, n);
    let wn = nodes_from(w, 0, w.len() as int, l, d);
    lemma_nodes_bounds(w, 0, w.len() as int, l, d);
    lemma_nodes_laid_out(w, 0, l, d);
    lemma_patch_identity(w, 0, w.len() as int, wn);
    assert(w.subrange(0, w.len() as int) =~= w);
    assert(s.skip(m) =~= w);
    lemma_patch_nodes(w, 0, l, d, f, s, m);
    assert(texts_from(s, l0, d) =~= node_texts(s, first) + node_texts(s, second));
    assert(node_texts(s, first) =~= node_texts(x, first));
}

/// Replacing nodes by themselves changes nothing.
pub proof fn lemma_patch_identity(s: Seq<char>, i: int, hi: int, ns: Seq<Node>)
    requires
        0 <= i,
        hi <= s.len(),
        laid_out(ns, i, hi),
    ensures
        patch(s, i, hi, ns, |n: Node| node_text(s, n)) == s.subrange(i, hi),
    decreases ns.len(),
{
    if ns.len() > 0 {
        let n = ns[0];
        lemma_patch_identity(s, n.end + 1, hi, ns.skip(1));
        assert(s.subrange(i, hi) =~= s.subrange(i, n.start) + node_text(s, n) + s.subrange(
            n.end + 1,
            hi,
        ));
    }
}

/// Text that may stand between a block's children: the scanner leaves it as it
/// entered, and no list around it closes.
pub open spec fn is_level(u: Seq<char>) -> bool {
    &&& run(inside(), u, 0, u.len() as int) == inside()
    &&& close_from(u, 0, inside()) is None
}

/// Whether `u` is white space only.
pub open spec fn is_blank(u: Seq<char>) -> bool {
    forall|k: int| 0 <= k < u.len() ==> is_white_space(#[trigger] u[k])
}

proof fn lemma_run_blank(l: Lex, u: Seq<char>, i: int)
    requires
        is_blank(u),
        unquoted(l),
        0 <= i <= u.len(),
    ensures
        run(l, u, 0, i) == l,
    decreases i,
{
    if i > 0 {
        lemma_run_blank(l, u, i - 1);
        assert(is_white_space(u[i - 1]));
    }
}

proof fn lemma_blank_from(u: Seq<char>, i: int)
    requires
        is_blank(u),
        0 <= i <= u.len(),
    ensures
        close_from(u, i, inside()) is None,
        nodes_from(u, i, u.len() as int, inside(), 1) == Seq::<Node>::empty(),
    decreases u.len() - i,
{
    if i < u.len() {
        assert(is_white_space(u[i]));
        lemma_blank_from(u, i + 1);
    }
}

/// White space is level and holds no node.
pub proof fn lemma_blank_is_level(u: Seq<char>)
    requires
        is_blank(u),
    ensures
        is_level(u),
        texts_from(u, inside(), 1) == Seq::<Seq<char>>::empty(),
{
    lemma_run_blank(inside(), u, u.len() as int);
    lemma_blank_from(u, 0);
    assert(texts_from(u, inside(), 1) =~= Seq::<Seq<char>>::empty());
}

/// A block is level and is its one node.
pub proof fn lemma_block_is_level(b: Seq<char>)
    requires
        is_block(b),
    ensures
        is_level(b),
        texts_from(b, inside(), 1) == seq![b],
{
    let len = b.len() as int;
    let l = inside();
    lemma_block(b, 0, len - 1, l);
    lemma_skip_block(b, 0, len - 1, len, l);
    lemma_close_over_block(b, 0, len - 1, 0, l);
    assert(node_text(b, Node { start: 0, end: len - 1 }) =~= b);
    assert(texts_from(b, l, 1) =~= seq![b]);
}

proof fn lemma_close_skip(s: Seq<char>, i: int, m: int, l: Lex)
    requires
        0 <= i <= m <= s.len(),
        forall|j: int| i <= j < m ==> !closes(#[trigger] run(l, s, i, j), s[j]),
    ensures
        close_from(s, i, l) == close_from(s, m, run(l, s, i, m)),
    decreases m - i,
{
    if i < m {
        assert(run(l, s, i, i) == l);
        assert forall|j: int| i + 1 <= j < m implies !closes(
            #[trigger] run(step(l, s[i]), s, i + 1, j),
            s[j],
        ) by {
            lemma_run_front(l, s, i, j);
            assert(!closes(run(l, s, i, j), s[j]));
        }
        lemma_run_front(l, s, i, m);
        lemma_close_skip(s, i + 1, m, step(l, s[i]));
    }
}

/// Over level text nothing closes.
proof fn lemma_close_over_level(x: Seq<char>, u: Seq<char>, y: Seq<char>)
    requires
        is_level(u),
    ensures
        close_from(x + u + y, x.len() as int, inside()) == close_from(
            x + u + y,
            (x.len() + u.len()) as int,
            inside(),
        ),
{
    let s = x + u + y;
    let p = x.len() as int;
    let m = u.len() as int;
    let l = inside();
    lemma_close_from(u, 0, l);
    assert forall|j: int| p <= j < p + m implies !closes(#[trigger] run(l, s, p, j), s[j]) by {
        assert(u.subrange(0, j - p) =~= s.subrange(p, p + (j - p - 0)));
        lemma_run_same(l, u, 0, j - p, s, p);
        assert(!closes(run(l, u, 0, j - p), u[j - p]));
        assert(s[j] == u[j - p]);
    }
    assert(u.subrange(0, m) =~= s.subrange(p, p + (m - 0)));
    lemma_run_same(l, u, 0, m, s, p);
    lemma_close_skip(s, p, p + m, l);
}

/// Level texts side by side are level.
pub proof fn lemma_level_concat(u: Seq<char>, v: Seq<char>)
    requires
        is_level(u),
        is_level(v),
    ensures
        is_level(u + v),
        texts_from(u + v, inside(), 1) == texts_from(u, inside(), 1) + texts_from(v, inside(), 1),
{
    let s = u + v;
    let l = inside();
    let m = u.len() as int;
    let e = Seq::<char>::empty();
    lemma_texts_concat(l, u, v, 1);
    assert(u.subrange(0, m) =~= s.subrange(0, m));
    lemma_run_same(l, u, 0, m, s, 0);
    assert(v.subrange(0, v.len() as int) =~= s.subrange(m, m + v.len()));
    lemma_run_same(l, v, 0, v.len() as int, s, m);
    lemma_run_split(l, s, 0, m, s.len() as int);
    lemma_close_over_level(e, u, v);
    assert(e + u + v =~= s);
    assert(v.skip(0) =~= s.skip(m));
    lemma_close_none_same(v, 0, l, s, m);
}

/// Exchanging level text between a block's children for other level text gives
/// a block in which only the children in that text are exchanged.
pub proof fn lemma_exchange(x: Seq<char>, u: Seq<char>, y: Seq<char>, v: Seq<char>)
    requires
        is_block(x + u + y),
        x.len() > 0,
        run(outside(), x, 0, x.len() as int) == inside(),
        is_level(u),
        is_level(v),
    ensures
        is_block(x + v + y),
        child_texts(x + u + y) == child_texts(x) + texts_from(u, inside(), 1) + texts_from(
            y,
            inside(),
            1,
        ),
        child_texts(x + v + y) == child_texts(x) + texts_from(v, inside(), 1) + texts_from(
            y,
            inside(),
            1,
        ),
{
    let b = x + u + y;
    let c = x + v + y;
    let o = outside();
    let l = inside();
    let p = x.len() as int;
    let len = b.len() as int;
    assert(b =~= x + (u + y));
    assert(c =~= x + (v + y));
    lemma_texts_concat(o, x, u + y, 1);
    lemma_texts_concat(o, x, v + y, 1);
    lemma_texts_concat(l, u, y, 1);
    lemma_texts_concat(l, v, y, 1);
    assert(child_texts(b) =~= child_texts(x) + texts_from(u, l, 1) + texts_from(y, l, 1));
    assert(child_texts(c) =~= child_texts(x) + texts_from(v, l, 1) + texts_from(y, l, 1));
    // The outermost list does not close in `x`.
    lemma_close_from(b, 1, step(o, b[0]));
    assert(x.subrange(0, p) =~= b.subrange(0, p));
    lemma_run_same(o, x, 0, p, b, 0);
    lemma_block(b, 0, len - 1, o);
    if p == len {
        assert(run(o, b, 0, len) == o);
    }
    assert(x[0] == b[0]);
    assert forall|j: int| 0 <= j < p implies !closes(#[trigger] run(o, x, 0, j), x[j]) by {
        if j > 0 {
            assert(x.subrange(0, j) =~= b.subrange(0, j));
            lemma_run_same(o, x, 0, j, b, 0);
            lemma_run_front(o, b, 0, j);
            assert(x[j] == b[j]);
            assert(!closes(run(step(o, b[0]), b, 1, j), b[j]));
        }
    }
    assert forall|j: int| 0 <= j < p implies !closes(#[trigger] run(o, b, 0, j), b[j]) by {
        assert(x.subrange(0, j) =~= b.subrange(0, j));
        lemma_run_same(o, x, 0, j, b, 0);
        assert(!closes(run(o, x, 0, j), x[j]));
        assert(x[j] == b[j]);
    }
    assert forall|j: int| 0 <= j < p implies !closes(#[trigger] run(o, c, 0, j), c[j]) by {
        assert(x.subrange(0, j) =~= c.subrange(0, j));
        lemma_run_same(o, x, 0, j, c, 0);
        assert(!closes(run(o, x, 0, j), x[j]));
        assert(x[j] == c[j]);
    }
    assert(x.subrange(0, p) =~= c.subrange(0, p));
    lemma_run_same(o, x, 0, p, c, 0);
    lemma_close_skip(b, 0, p, o);
    lemma_close_skip(c, 0, p, o);
    lemma_close_over_level(x, u, y);
    lemma_close_over_level(x, v, y);
    // From there on both texts are `y`.
    let q = (p + u.len()) as int;
    let r = (p + v.len()) as int;
    lemma_close_bound(b, q, l);
    assert(b.subrange(q, len) =~= c.subrange(r, r + (len - q)));
    lemma_close_same(b, q, l, len - 1, c, r);
}

/// Where the scanner stands between two children, the nodes split.
pub proof fn lemma_nodes_before(p: Seq<char>, a: int)
    requires
        0 <= a <= p.len(),
        run(outside(), p, 0, a) == inside(),
    ensures
        nodes_in(p, 0, p.len() as int, 1) == nodes_in(p.take(a), 0, a, 1) + nodes_from(
            p,
            a,
            p.len() as int,
            inside(),
            1,
        ),
        child_texts(p.take(a)) == node_texts(p, nodes_in(p.take(a), 0, a, 1)),
        forall|k: int|
            0 <= k < nodes_in(p.take(a), 0, a, 1).len() ==> {
                let n = #[trigger] nodes_in(p.take(a), 0, a, 1)[k];
                is_node(p, n) && n.end < a
            },
{
    let x = p.take(a);
    let w = p.skip(a);
    let o = outside();
    assert(x + w =~= p);
    assert(p.subrange(0, a) =~= x.subrange(0, a));
    lemma_run_same(o, p, 0, a, x, 0);
    lemma_nodes_split(p, 0, a, p.len() as int, o, 1);
    lemma_nodes_prefix(o, x, w, 0, 1);
    let first = nodes_in(x, 0, a, 1);
    lemma_nodes_bounds(x, 0, a, o, 1);
    assert forall|k: int| 0 <= k < first.len() implies {
        let n = #[trigger] first[k];
        is_node(p, n) && n.end < a && node_text(x, n) == node_text(p, n)
    } by {
        let n = first[k];
        assert(node_text(x, n) =~= node_text(p, n));
        lemma_block_is_node(p, n.start, node_text(x, n));
    }
    assert(child_texts(x) =~= node_texts(p, first));
}

/// Picking nodes by tag goes list by list.
pub proof fn lemma_tagged_concat(s: Seq<char>, a: Seq<Node>, b: Seq<Node>, tag: Seq<char>)
    ensures
        tagged(s, a + b, tag) == tagged(s, a, tag) + tagged(s, b, tag),
    decreases a.len(),
{
    if a.len() == 0 {
        assert(a + b =~= b);
        assert(tagged(s, a, tag) + tagged(s, b, tag) =~= tagged(s, b, tag));
    } else {
        lemma_tagged_concat(s, a.skip(1), b, tag);
        assert((a + b).skip(1) =~= a.skip(1) + b);
        assert(tagged(s, a + b, tag) =~= tagged(s, a, tag) + tagged(s, b, tag));
    }
}

/// Before the first child with some tag there is no other.
pub proof fn lemma_first_tagged(p: Seq<char>, tag: Seq<char>)
    requires
        is_block(p),
        tagged(p, nodes_in(p, 0, p.len() as int, 1), tag).len() > 0,
    ensures
        ({
            let n = tagged(p, nodes_in(p, 0, p.len() as int, 1), tag)[0];
            &&& 0 < n.start
            &&& is_node(p, n)
            &&& n.end < p.len() - 1
            &&& tag_at(p, n.start) == tag
            &&& run(outside(), p, 0, n.start) == inside()
            &&& with_tag(child_texts(p.take(n.start)), tag) == Seq::<Seq<char>>::empty()
        }),
{
    let len = p.len() as int;
    let kids = nodes_in(p, 0, len, 1);
    let n = tagged(p, kids, tag)[0];
    lemma_tagged(p, kids, tag);
    assert(kids.contains(n));
    let k = choose|k: int| 0 <= k < kids.len() && kids[k] == n;
    lemma_nodes_bounds(p, 0, len, outside(), 1);
    lemma_node_state(p, 0, len, outside(), 1, k);
    let a = n.start;
    lemma_nodes_before(p, a);
    let first = nodes_in(p.take(a), 0, a, 1);
    let rest = nodes_from(p, a, len, inside(), 1);
    lemma_tagged_concat(p, first, rest, tag);
    if tagged(p, first, tag).len() > 0 {
        lemma_tagged(p, first, tag);
        assert(first.contains(tagged(p, first, tag)[0]));
        assert(tagged(p, kids, tag)[0] == tagged(p, first, tag)[0]);
        assert(false);
    }
    lemma_with_tag_nodes(p, first, tag);
    assert(node_texts(p, tagged(p, first, tag)) =~= Seq::<Seq<char>>::empty());
    // The child closes before the block does.
    lemma_block(p, 0, len - 1, outside());
    lemma_block(p, n.start, n.end, inside());
    if n.end == len - 1 {
        lemma_run_split(outside(), p, 0, n.start, len);
        assert(run(outside(), p, 0, len) == inside());
    }
}

// ─── Edits of top-level nodes ────────────────────────────────────────────────

/// A node with the tag is among those picked by the tag.
pub proof fn lemma_tagged_keeps(s: Seq<char>, ns: Seq<Node>, tag: Seq<char>, k: int)
    requires
        0 <= k < ns.len(),
        tag_at(s, ns[k].start) == tag,
    ensures
        tagged(s, ns, tag).contains(ns[k]),
    decreases ns.len(),
{
    let rest = tagged(s, ns.skip(1), tag);
    if k == 0 {
        assert(tagged(s, ns, tag)[0] == ns[0]);
    } else {
        lemma_tagged_keeps(s, ns.skip(1), tag, k - 1);
        let j = choose|j: int| 0 <= j < rest.len() && rest[j] == ns.skip(1)[k - 1];
        if tag_at(s, ns[0].start) == tag {
            assert(tagged(s, ns, tag)[j + 1] == rest[j]);
        } else {
            assert(tagged(s, ns, tag)[j] == rest[j]);
        }
    }
}

/// Replacing the top-level nodes of some tag by blocks of that tag: the text that
/// comes out has exactly the replacements for its nodes of that tag.
pub proof fn lemma_patch_top(s: Seq<char>, tag: Seq<char>, f: spec_fn(Node) -> Seq<char>)
    requires
        ({
            let ns = tagged(s, nodes_in(s, 0, s.len() as int, 1), tag);
            forall|k: int|
                0 <= k < ns.len() ==> is_block(f(#[trigger] ns[k])) && tag_at(f(ns[k]), 0) == tag
        }),
    ensures
        ({
            let ns = tagged(s, nodes_in(s, 0, s.len() as int, 1), tag);
            let t = patch(s, 0, s.len() as int, ns, f);
            node_texts(t, tagged(t, nodes_in(t, 0, t.len() as int, 1), tag)) == ns.map_values(f)
        }),
{
    let all = nodes_in(s, 0, s.len() as int, 1);
    let ns = tagged(s, all, tag);
    let g = only_tagged(s, tag, f);
    let t = patch(s, 0, s.len() as int, ns, f);
    lemma_nodes_bounds(s, 0, s.len() as int, outside(), 1);
    lemma_nodes_bounds(t, 0, t.len() as int, outside(), 1);
    lemma_nodes_laid_out(s, 0, outside(), 1);
    lemma_patch_tagged(s, 0, s.len() as int, all, tag, f);
    assert(t == patch(s, 0, s.len() as int, all, g));
    assert(t.skip(0) =~= t);
    assert forall|k: int| 0 <= k < all.len() implies is_block(g(#[trigger] all[k])) && (tag_at(
        s,
        all[k].start,
    ) == tag ==> tag_at(f(all[k]), 0) == tag) by {
        lemma_node_is_block(s, all[k].start, all[k].end);
        if tag_at(s, all[k].start) == tag {
            lemma_tagged_keeps(s, all, tag, k);
            let j = choose|j: int| 0 <= j < ns.len() && ns[j] == all[k];
            assert(is_block(f(ns[j])));
        }
    }
    lemma_patch_nodes(s, 0, outside(), 1, g, t, 0);
    lemma_with_tag_nodes(t, nodes_in(t, 0, t.len() as int, 1), tag);
    lemma_with_tag_map(s, all, tag, f);
}

/// Where only one of the nodes is replaced by something else, a patch is an edit
/// of that node alone.
pub proof fn lemma_patch_one(
    s: Seq<char>,
    i: int,
    hi: int,
    ns: Seq<Node>,
    k: int,
    f: spec_fn(Node) -> Seq<char>,
)
    requires
        0 <= i,
        hi <= s.len(),
        laid_out(ns, i, hi),
        0 <= k < ns.len(),
        forall|j: int| 0 <= j < ns.len() && j != k ==> f(#[trigger] ns[j]) == node_text(s, ns[j]),
    ensures
        patch(s, i, hi, ns, f) == s.subrange(i, ns[k].start) + f(ns[k]) + s.subrange(
            ns[k].end + 1,
            hi,
        ),
    decreases ns.len(),
{
    let rest = ns.skip(1);
    let same = |n: Node| node_text(s, n);
    if k == 0 {
        assert forall|j: int| 0 <= j < rest.len() implies f(#[trigger] rest[j]) == same(rest[j]) by {
            assert(rest[j] == ns[j + 1]);
        }
        lemma_patch_same(s, ns[0].end + 1, hi, rest, f, same);
        lemma_patch_identity(s, ns[0].end + 1, hi, rest);
    } else {
        assert forall|j: int| 0 <= j < rest.len() && j != k - 1 implies f(#[trigger] rest[j])
            == node_text(s, rest[j]) by {
            assert(rest[j] == ns[j + 1]);
        }
        lemma_patch_one(s, ns[0].end + 1, hi, rest, k - 1, f);
        lemma_laid_out_bounds(rest, ns[0].end + 1, hi, k - 1);
        assert(f(ns[0]) == node_text(s, ns[0]));
        assert(rest[k - 1] == ns[k]);
        assert(patch(s, i, hi, ns, f) =~= s.subrange(i, ns[k].start) + f(ns[k]) + s.subrange(
            ns[k].end + 1,
            hi,
        ));
    }
}

/// A patch depends on what it puts for the nodes alone.
pub proof fn lemma_patch_same(
    s: Seq<char>,
    i: int,
    hi: int,
    ns: Seq<Node>,
    f: spec_fn(Node) -> Seq<char>,
    g: spec_fn(Node) -> Seq<char>,
)
    requires
        forall|k: int| 0 <= k < ns.len() ==> f(#[trigger] ns[k]) == g(ns[k]),
    ensures
        patch(s, i, hi, ns, f) == patch(s, i, hi, ns, g),
    decreases ns.len(),
{
    if ns.len() > 0 {
        let rest = ns.skip(1);
        assert forall|k: int| 0 <= k < rest.len() implies f(#[trigger] rest[k]) == g(rest[k]) by {
            assert(rest[k] == ns[k + 1]);
        }
        lemma_patch_same(s, ns[0].end + 1, hi, rest, f, g);
        assert(f(ns[0]) == g(ns[0]));
    }
}

// ─── Edits inside a string ───────────────────────────────────────────────────

/// Text that a quoted string can hold as it is.
pub open spec fn is_plain_text(u: Seq<char>) -> bool {
    forall|k: int| 0 <= k < u.len() ==> #[trigger] u[k] != '"' && u[k] != '\\'
}

proof fn lemma_run_in_string(l: Lex, u: Seq<char>, i: int)
    requires
        is_plain_text(u),
        l.quoted,
        !l.escaped,
        0 <= i <= u.len(),
    ensures
        run(l, u, 0, i) == l,
    decreases i,
{
    if i > 0 {
        lemma_run_in_string(l, u, i - 1);
        assert(u[i - 1] != '"' && u[i - 1] != '\\');
    }
}

proof fn lemma_close_in_string(x: Seq<char>, u: Seq<char>, y: Seq<char>, l: Lex)
    requires
        is_plain_text(u),
        l.quoted,
        !l.escaped,
    ensures
        close_from(x + u + y, x.len() as int, l) == close_from(
            x + u + y,
            (x.len() + u.len()) as int,
            l,
        ),
{
    let s = x + u + y;
    let p = x.len() as int;
    let m = u.len() as int;
    assert forall|j: int| p <= j < p + m implies !closes(#[trigger] run(l, s, p, j), s[j]) by {
        assert(u.subrange(0, j - p) =~= s.subrange(p, p + (j - p - 0)));
        lemma_run_same(l, u, 0, j - p, s, p);
        lemma_run_in_string(l, u, j - p);
    }
    assert(u.subrange(0, m) =~= s.subrange(p, p + (m - 0)));
    lemma_run_same(l, u, 0, m, s, p);
    lemma_run_in_string(l, u, m);
    lemma_close_skip(s, p, p + m, l);
}

/// Exchanging what a quoted string holds leaves a block a block.
pub proof fn lemma_string_exchange(x: Seq<char>, u: Seq<char>, y: Seq<char>, v: Seq<char>)
    requires
        is_block(x + u + y),
        x.len() > 0,
        run(outside(), x, 0, x.len() as int).quoted,
        !run(outside(), x, 0, x.len() as int).escaped,
        is_plain_text(u),
        is_plain_text(v),
    ensures
        is_block(x + v + y),
        y.len() > 0,
{
    let b = x + u + y;
    let c = x + v + y;
    let o = outside();
    let p = x.len() as int;
    let len = b.len() as int;
    let l = run(o, x, 0, p);
    lemma_close_from(b, 1, step(o, b[0]));
    lemma_block(b, 0, len - 1, o);
    assert(x.subrange(0, p) =~= b.subrange(0, p));
    lemma_run_same(o, x, 0, p, b, 0);
    assert(x[0] == b[0]);
    // The block does not end inside the string.
    if p + u.len() >= len {
        assert(u.subrange(0, len - p) =~= b.subrange(p, p + (len - p)));
        lemma_run_same(l, u, 0, len - p, b, p);
        lemma_run_in_string(l, u, len - p);
        lemma_run_split(o, b, 0, p, len);
    }
    assert forall|j: int| 0 <= j < p implies !closes(#[trigger] run(o, b, 0, j), b[j]) by {
        if j > 0 {
            lemma_run_front(o, b, 0, j);
            assert(!closes(run(step(o, b[0]), b, 1, j), b[j]));
        }
    }
    assert forall|j: int| 0 <= j < p implies !closes(#[trigger] run(o, c, 0, j), c[j]) by {
        assert(b.subrange(0, j) =~= c.subrange(0, j));
        lemma_run_same(o, b, 0, j, c, 0);
        assert(!closes(run(o, b, 0, j), b[j]));
        assert(b[j] == c[j]);
    }
    assert(b.subrange(0, p) =~= c.subrange(0, p));
    lemma_run_same(o, b, 0, p, c, 0);
    lemma_close_skip(b, 0, p, o);
    lemma_close_skip(c, 0, p, o);
    lemma_close_in_string(x, u, y, l);
    lemma_close_in_string(x, v, y, l);
    let q = (p + u.len()) as int;
    let r = (p + v.len()) as int;
    lemma_close_bound(b, q, l);
    assert(b.subrange(q, len) =~= c.subrange(r, r + (len - q)));
    lemma_close_same(b, q, l, len - 1, c, r);
}

// ─── Passing over text ───────────────────────────────────────────────────────

/// Whether the scanner, entering `u` in state `l`, leaves it in state `m` without
/// closing the outermost list.
#[verifier::opaque]
pub open spec fn passes(l: Lex, u: Seq<char>, m: Lex) -> bool {
    &&& run(l, u, 0, u.len() as int) == m
    &&& close_from(u, 0, l) is None
}

/// Passing over two texts is passing over the one and then the other.
pub proof fn lemma_pass_concat(l: Lex, u: Seq<char>, m: Lex, v: Seq<char>, n: Lex)
    requires
        l.depth >= 1,
        passes(l, u, m),
        passes(m, v, n),
    ensures
        passes(l, u + v, n),
{
    reveal(passes);
    let s = u + v;
    let k = u.len() as int;
    assert(u.subrange(0, k) =~= s.subrange(0, k));
    lemma_run_same(l, u, 0, k, s, 0);
    assert(v.subrange(0, v.len() as int) =~= s.subrange(k, k + v.len()));
    lemma_run_same(m, v, 0, v.len() as int, s, k);
    lemma_run_split(l, s, 0, k, s.len() as int);
    lemma_close_from(u, 0, l);
    assert forall|j: int| 0 <= j < k implies !closes(#[trigger] run(l, s, 0, j), s[j]) by {
        assert(u.subrange(0, j) =~= s.subrange(0, j));
        lemma_run_same(l, u, 0, j, s, 0);
        assert(!closes(run(l, u, 0, j), u[j]));
        assert(s[j] == u[j]);
    }
    lemma_close_skip(s, 0, k, l);
    assert(v.skip(0) =~= s.skip(k));
    lemma_close_none_same(v, 0, m, s, k);
}

/// Text without parentheses and quotes.
pub open spec fn is_flat(u: Seq<char>) -> bool {
    forall|k: int| 0 <= k < u.len() ==> #[trigger] u[k] != '"' && u[k] != '(' && u[k] != ')'
}

/// Outside strings the scanner passes over flat text unmoved.
pub proof fn lemma_pass_flat(l: Lex, u: Seq<char>)
    requires
        is_flat(u),
        unquoted(l),
    ensures
        passes(l, u, l),
{
    reveal(passes);
    lemma_pass_flat_from(l, u, 0);
}

proof fn lemma_pass_flat_from(l: Lex, u: Seq<char>, i: int)
    requires
        is_flat(u),
        unquoted(l),
        0 <= i <= u.len(),
    ensures
        run(l, u, i, u.len() as int) == l,
        close_from(u, i, l) is None,
    decreases u.len() - i,
{
    if i < u.len() {
        assert(u[i] != '"' && u[i] != '(' && u[i] != ')');
        lemma_pass_flat_from(l, u, i + 1);
        lemma_run_front(l, u, i, u.len() as int);
    }
}

/// Outside strings the scanner passes over white space unmoved.
pub proof fn lemma_pass_blank(l: Lex, u: Seq<char>)
    requires
        is_blank(u),
        unquoted(l),
    ensures
        passes(l, u, l),
{
    assert forall|k: int| 0 <= k < u.len() implies #[trigger] u[k] != '"' && u[k] != '(' && u[k]
        != ')' by {
        assert(is_white_space(u[k]));
    }
    lemma_pass_flat(l, u);
}

/// In a string the scanner passes over plain text unmoved.
pub proof fn lemma_pass_plain(l: Lex, u: Seq<char>)
    requires
        is_plain_text(u),
        l.quoted,
        !l.escaped,
    ensures
        passes(l, u, l),
{
    reveal(passes);
    lemma_pass_plain_from(l, u, 0);
}

proof fn lemma_pass_plain_from(l: Lex, u: Seq<char>, i: int)
    requires
        is_plain_text(u),
        l.quoted,
        !l.escaped,
        0 <= i <= u.len(),
    ensures
        run(l, u, i, u.len() as int) == l,
        close_from(u, i, l) is None,
    decreases u.len() - i,
{
    if i < u.len() {
        assert(u[i] != '"' && u[i] != '\\');
        lemma_pass_plain_from(l, u, i + 1);
        lemma_run_front(l, u, i, u.len() as int);
    }
}

/// Up to where the outermost list closes, the scanner passes over every prefix.
pub proof fn lemma_pass_prefix(s: Seq<char>, i: int, k: int, l: Lex)
    requires
        l.depth >= 1,
        l.escaped ==> l.quoted,
        0 <= i <= k < s.len(),
        close_from(s, i, l) == Some(s.len() - 1),
    ensures
        passes(l, s.subrange(i, k), run(l, s, i, k)),
        run(l, s, i, k).depth >= 1,
        run(l, s, i, k).escaped ==> run(l, s, i, k).quoted,
        close_from(s, k, run(l, s, i, k)) == Some(s.len() - 1),
{
    reveal(passes);
    let u = s.subrange(i, k);
    let m = k - i;
    lemma_close_from(s, i, l);
    lemma_close_skip(s, i, k, l);
    lemma_run_wellformed(l, s, i, k);
    assert(s.subrange(i, k) =~= u.subrange(0, m));
    lemma_run_same(l, s, i, k, u, 0);
    assert forall|j: int| 0 <= j < m implies !closes(#[trigger] run(l, u, 0, j), u[j]) by {
        assert(s.subrange(i, i + j) =~= u.subrange(0, j));
        lemma_run_same(l, s, i, i + j, u, 0);
        assert(!closes(run(l, s, i, i + j), s[i + j]));
    }
    lemma_close_skip(u, 0, m, l);
}

/// Behind text that the scanner passes over, a list closes where it closes in
/// what follows.
pub proof fn lemma_close_behind(l: Lex, u: Seq<char>, m: Lex, v: Seq<char>)
    requires
        l.depth >= 1,
        passes(l, u, m),
        v.len() > 0,
        close_from(v, 0, m) == Some(v.len() - 1),
    ensures
        close_from(u + v, 0, l) == Some((u + v).len() - 1),
{
    reveal(passes);
    let s = u + v;
    let k = u.len() as int;
    assert(u.subrange(0, k) =~= s.subrange(0, k));
    lemma_run_same(l, u, 0, k, s, 0);
    lemma_close_from(u, 0, l);
    assert forall|j: int| 0 <= j < k implies !closes(#[trigger] run(l, s, 0, j), s[j]) by {
        assert(u.subrange(0, j) =~= s.subrange(0, j));
        lemma_run_same(l, u, 0, j, s, 0);
        assert(!closes(run(l, u, 0, j), u[j]));
        assert(s[j] == u[j]);
    }
    lemma_close_skip(s, 0, k, l);
    assert(v.subrange(0, v.len() as int) =~= s.subrange(k, k + v.len()));
    lemma_close_same(v, 0, m, v.len() - 1, s, k);
}

/// Before a block's closing parenthesis the scanner stands between children.
pub proof fn lemma_before_close(b: Seq<char>)
    requires
        is_block(b),
    ensures
        run(outside(), b, 0, b.len() - 1) == inside(),
        b.len() >= 2,
        b.last() == ')',
{
    let l = step(outside(), b[0]);
    lemma_block(b, 0, b.len() - 1, outside());
    lemma_close_from(b, 1, l);
    lemma_run_front(outside(), b, 0, b.len() - 1);
    lemma_run_wellformed(outside(), b, 0, b.len() - 1);
}

} // verus!
