//! What locating lists in text promises as a whole.

use crate::component_edit::escaped;
use crate::report_laws::law_quotes_and_backslashes_are_escaped;
use crate::scan::{
    child_tagged, close_from, close_position, closes, nodes_from, nodes_in, opens, outside, run,
    step, tag_at, tag_end, tagged, Lex, Node,
};
use crate::structure::{ends_tag, lemma_run_front, lemma_run_same, lemma_run_split, lemma_tag_end};
use vstd::prelude::*;

verus! {

/// What stands in a string does not count: behind a quoted string, with whatever in
/// it, the scanner is where it was before.
pub proof fn law_strings_do_not_count(l: Lex, head: Seq<char>, text: Seq<char>, rest: Seq<char>)
    requires
        !l.quoted,
        !l.escaped,
    ensures
        run(
            l,
            head + seq!['"'] + escaped(text) + seq!['"'] + rest,
            head.len() as int,
            (head.len() + escaped(text).len() + 2) as int,
        ) == l,
{
    let s = head + seq!['"'] + escaped(text) + seq!['"'] + rest;
    let i = head.len() as int;
    let end = i + 1 + escaped(text).len();
    let inner = Lex { quoted: true, ..l };
    assert(s[i] == '"');
    assert(run(l, s, i, i) == l);
    assert(run(l, s, i, i + 1) == step(run(l, s, i, i), s[i]));
    assert(run(l, s, i, i + 1) == inner);
    assert(s.subrange(i + 1, end) =~= escaped(text).subrange(0, escaped(text).len() as int));
    lemma_run_same(inner, s, i + 1, end, escaped(text), 0);
    lemma_escaped_run(inner, text);
    lemma_run_split(l, s, i, i + 1, end);
    assert(s[end] == '"');
    assert(run(l, s, i, end + 1) == step(run(l, s, i, end), s[end]));
}

proof fn lemma_escaped_run(l: Lex, text: Seq<char>)
    requires
        l.quoted,
        !l.escaped,
    ensures
        run(l, escaped(text), 0, escaped(text).len() as int) == l,
    decreases text.len(),
{
    let t = escaped(text);
    if text.len() > 0 {
        let front = escaped(text.drop_last());
        let c = text.last();
        let n = front.len() as int;
        lemma_escaped_run(l, text.drop_last());
        assert(t.subrange(0, n) =~= front.subrange(0, n));
        lemma_run_same(l, t, 0, n, front, 0);
        if c == '\\' || c == '"' {
            assert(t[n] == '\\' && t[n + 1] == c);
            assert(run(l, t, 0, n + 1) == step(run(l, t, 0, n), t[n]));
            assert(run(l, t, 0, n + 2) == step(run(l, t, 0, n + 1), t[n + 1]));
        } else {
            assert(t[n] == c);
            assert(run(l, t, 0, n + 1) == step(run(l, t, 0, n), t[n]));
        }
    }
}

proof fn lemma_open_lists(s: Seq<char>, i: int, hi: int, l: Lex, depth: nat, n: Node)
    ensures
        nodes_from(s, i, hi, l, depth).contains(n) <==> {
            &&& i <= n.start < hi
            &&& opens(run(l, s, i, n.start), s[n.start], depth)
            &&& close_position(s, n.start) == Some(n.end)
        },
    decreases hi - i,
{
    if i < hi {
        let next = step(l, s[i]);
        let all = nodes_from(s, i, hi, l, depth);
        let rest = nodes_from(s, i + 1, hi, next, depth);
        lemma_open_lists(s, i + 1, hi, next, depth, n);
        if i < n.start {
            lemma_run_front(l, s, i, n.start);
        }
        assert(run(l, s, i, i) == l);
        if close_position(s, i) is Some && opens(l, s[i], depth) {
            let first = Node { start: i, end: close_position(s, i)->0 };
            assert(all == seq![first] + rest);
            if all.contains(n) {
                let k = choose|k: int| 0 <= k < all.len() && all[k] == n;
                if k > 0 {
                    assert(rest[k - 1] == n);
                } else {
                    assert(n == first);
                }
            }
            if rest.contains(n) {
                let k = choose|k: int| 0 <= k < rest.len() && rest[k] == n;
                assert(all[k + 1] == n);
            }
            if n == first {
                assert(all[0] == n);
            }
        } else {
            assert(all == rest);
        }
    }
}

/// The lists that are found at a depth are exactly those that open there, outside
/// strings, and are closed.
pub proof fn law_every_list_is_found(s: Seq<char>, lo: int, hi: int, depth: nat, n: Node)
    ensures
        nodes_in(s, lo, hi, depth).contains(n) <==> {
            &&& lo <= n.start < hi
            &&& s[n.start] == '('
            &&& !run(outside(), s, lo, n.start).quoted
            &&& run(outside(), s, lo, n.start).depth == depth
            &&& close_position(s, n.start) == Some(n.end)
        },
{
    lemma_open_lists(s, lo, hi, outside(), depth, n);
}

proof fn lemma_lists_in_order(s: Seq<char>, i: int, hi: int, l: Lex, depth: nat)
    ensures
        forall|a: int, b: int|
            0 <= a < b < nodes_from(s, i, hi, l, depth).len() ==> (#[trigger] nodes_from(
                s,
                i,
                hi,
                l,
                depth,
            )[a]).start < (#[trigger] nodes_from(s, i, hi, l, depth)[b]).start,
        forall|a: int|
            0 <= a < nodes_from(s, i, hi, l, depth).len() ==> i <= (#[trigger] nodes_from(
                s,
                i,
                hi,
                l,
                depth,
            )[a]).start,
    decreases hi - i,
{
    if i < hi {
        let next = step(l, s[i]);
        let all = nodes_from(s, i, hi, l, depth);
        let rest = nodes_from(s, i + 1, hi, next, depth);
        lemma_lists_in_order(s, i + 1, hi, next, depth);
        if close_position(s, i) is Some && opens(l, s[i], depth) {
            let first = Node { start: i, end: close_position(s, i)->0 };
            assert(all == seq![first] + rest);
            assert forall|a: int| 0 <= a < all.len() implies i <= (#[trigger] all[a]).start by {
                if a > 0 {
                    assert(all[a] == rest[a - 1]);
                }
            }
            assert forall|a: int, b: int| 0 <= a < b < all.len() implies (#[trigger] all[a]).start
                < (#[trigger] all[b]).start by {
                assert(all[b] == rest[b - 1]);
                if a > 0 {
                    assert(all[a] == rest[a - 1]);
                }
            }
        } else {
            assert(all == rest);
        }
    }
}

/// Lists are found in the order in which they open.
pub proof fn law_lists_come_in_order(s: Seq<char>, lo: int, hi: int, depth: nat, a: int, b: int)
    requires
        0 <= a < b < nodes_in(s, lo, hi, depth).len(),
    ensures
        nodes_in(s, lo, hi, depth)[a].start < nodes_in(s, lo, hi, depth)[b].start,
{
    lemma_lists_in_order(s, lo, hi, outside(), depth);
}

/// A list closes at the first parenthesis, outside strings, that brings the depth
/// back to where it was before the list.
pub proof fn law_a_list_closes_where_it_balances(s: Seq<char>, open: int, end: int)
    requires
        0 <= open < s.len(),
        s[open] == '(',
    ensures
        close_position(s, open) == Some(end) <==> {
            &&& open < end < s.len()
            &&& s[end] == ')'
            &&& !run(outside(), s, open, end).quoted
            &&& run(outside(), s, open, end).depth == 1
            &&& forall|k: int|
                open < k < end ==> (#[trigger] run(outside(), s, open, k)).quoted || s[k] != ')'
                    || run(outside(), s, open, k).depth != 1
        },
{
    lemma_close_found(s, open, outside(), end);
    assert(run(outside(), s, open, open) == outside());
    if close_position(s, open) == Some(end) {
        assert forall|k: int| open < k < end implies (#[trigger] run(outside(), s, open, k)).quoted
            || s[k] != ')' || run(outside(), s, open, k).depth != 1 by {
            assert(!closes(run(outside(), s, open, k), s[k]));
        }
    }
}

proof fn lemma_close_found(s: Seq<char>, i: int, l: Lex, end: int)
    requires
        0 <= i,
    ensures
        close_from(s, i, l) == Some(end) <==> {
            &&& i <= end < s.len()
            &&& closes(run(l, s, i, end), s[end])
            &&& forall|k: int| i <= k < end ==> !closes(#[trigger] run(l, s, i, k), s[k])
        },
    decreases s.len() - i,
{
    if i < s.len() {
        let next = step(l, s[i]);
        lemma_close_found(s, i + 1, next, end);
        assert(run(l, s, i, i) == l);
        assert forall|k: int| i < k implies #[trigger] run(l, s, i, k) == run(
            next,
            s,
            i + 1,
            k,
        ) by {
            lemma_run_front(l, s, i, k);
        }
        if closes(l, s[i]) {
            if i < end {
                assert(closes(run(l, s, i, i), s[i]));
            }
        } else {
            if close_from(s, i, l) == Some(end) {
                assert forall|k: int| i <= k < end implies !closes(#[trigger] run(l, s, i, k), s[k]) by {
                    if k > i {
                        assert(!closes(run(next, s, i + 1, k), s[k]));
                    }
                }
            } else if i <= end < s.len() && closes(run(l, s, i, end), s[end]) && (forall|k: int|
                i <= k < end ==> !closes(#[trigger] run(l, s, i, k), s[k])) {
                assert(i < end);
                assert forall|k: int| i + 1 <= k < end implies !closes(
                    #[trigger] run(next, s, i + 1, k),
                    s[k],
                ) by {
                    assert(!closes(run(l, s, i, k), s[k]));
                }
            }
        }
    }
}

/// The tag of a list is what stands behind its parenthesis, up to the next white
/// space or parenthesis.
pub proof fn law_a_tag_ends_at_white_space(
    head: Seq<char>,
    tag: Seq<char>,
    c: char,
    rest: Seq<char>,
)
    requires
        forall|k: int| 0 <= k < tag.len() ==> !ends_tag(#[trigger] tag[k]),
        ends_tag(c),
    ensures
        tag_at(head + seq!['('] + tag + seq![c] + rest, head.len() as int) == tag,
{
    let s = head + seq!['('] + tag + seq![c] + rest;
    let open = head.len() as int;
    let end = open + 1 + tag.len();
    lemma_tag_end(s, open + 1);
    assert(s[end] == c);
    let e = tag_end(s, open + 1)->0;
    if e < end {
        assert(s[e] == tag[e - open - 1]);
    }
    assert(s.subrange(open + 1, end) =~= tag);
}

/// Those with a tag are all that have it, in order.
pub proof fn law_those_with_a_tag_are_picked(s: Seq<char>, nodes: Seq<Node>, tag: Seq<char>)
    ensures
        tagged(s, nodes, tag) == nodes.filter(|n: Node| tag_at(s, n.start) == tag),
    decreases nodes.len(),
{
    let p = |n: Node| tag_at(s, n.start) == tag;
    if nodes.len() == 0 {
        reveal(Seq::filter);
        assert(tagged(s, nodes, tag) =~= nodes.filter(p));
    } else {
        let one = seq![nodes[0]];
        let rest = nodes.skip(1);
        law_those_with_a_tag_are_picked(s, rest, tag);
        assert(one + rest =~= nodes);
        Seq::filter_distributes_over_add(one, rest, p);
        reveal_with_fuel(Seq::filter, 2);
        assert(one.drop_last() =~= Seq::<Node>::empty());
        assert(one.last() == nodes[0]);
        assert(tagged(s, nodes, tag) =~= nodes.filter(p));
    }
}

/// The child that is found is the first direct child with the tag.
pub proof fn law_the_first_child_with_the_tag_is_found(b: Seq<char>, tag: Seq<char>, k: int)
    requires
        0 <= k < nodes_in(b, 0, b.len() as int, 1).len(),
        tag_at(b, nodes_in(b, 0, b.len() as int, 1)[k].start) == tag,
        forall|i: int|
            0 <= i < k ==> tag_at(
                b,
                (#[trigger] nodes_in(b, 0, b.len() as int, 1)[i]).start,
            ) != tag,
    ensures
        child_tagged(b, tag) == Some(nodes_in(b, 0, b.len() as int, 1)[k]),
{
    lemma_first_tagged(b, nodes_in(b, 0, b.len() as int, 1), tag, k);
}

proof fn lemma_first_tagged(s: Seq<char>, nodes: Seq<Node>, tag: Seq<char>, k: int)
    requires
        0 <= k < nodes.len(),
        tag_at(s, nodes[k].start) == tag,
        forall|i: int| 0 <= i < k ==> tag_at(s, (#[trigger] nodes[i]).start) != tag,
    ensures
        tagged(s, nodes, tag).len() > 0,
        tagged(s, nodes, tag)[0] == nodes[k],
    decreases nodes.len(),
{
    if k > 0 {
        let rest = nodes.skip(1);
        assert(tag_at(s, nodes[0].start) != tag);
        assert(rest[k - 1] == nodes[k]);
        assert forall|i: int| 0 <= i < k - 1 implies tag_at(s, (#[trigger] rest[i]).start)
            != tag by {
            assert(rest[i] == nodes[i + 1]);
        }
        lemma_first_tagged(s, rest, tag, k - 1);
    }
}

/// Outside strings a parenthesis opens or closes a list and a quote begins a string;
/// nothing is closed where nothing is open. In a string only an unescaped quote
/// counts.
pub proof fn law_what_counts(l: Lex, c: char)
    ensures
        !l.quoted && c == '(' ==> step(l, c).depth == l.depth + 1 && !step(l, c).quoted,
        !l.quoted && c == ')' && l.depth > 0 ==> step(l, c).depth == l.depth - 1,
        !l.quoted && c == ')' && l.depth == 0 ==> step(l, c) == l,
        !l.quoted && c == '"' ==> step(l, c).quoted && step(l, c).depth == l.depth,
        !l.quoted && c != '(' && c != ')' && c != '"' ==> step(l, c) == l,
        l.quoted ==> step(l, c).depth == l.depth,
        l.quoted ==> (!step(l, c).quoted <==> c == '"' && !l.escaped),
        l.quoted ==> (step(l, c).escaped <==> c == '\\' && !l.escaped),
{
}

} // verus!
