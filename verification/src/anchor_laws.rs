//! What comes before the properties of a symbol stays while they are edited.

use crate::component_edit::{placement_of, token_end, with_value};
use crate::edit_laws::{grown, lemma_marker, value_of};
use crate::scan::{child_tagged, node_text, nodes_from, nodes_in, outside, tag_at, tagged, Node};
use crate::structure::{
    inside, is_block, is_node, lemma_before_close, lemma_first_tagged, lemma_nodes_before,
    lemma_nodes_bounds, lemma_run_block, lemma_run_same, lemma_run_split, lemma_tag_of_node,
    lemma_tagged, lemma_tagged_concat,
};
use crate::symbols::property_marker;
use crate::text::{
    first_match, lemma_first_char, lemma_first_match, lemma_white_end, occurs_at, white_end,
};
use vstd::prelude::*;

verus! {

/// Where the properties of a symbol block begin.
pub open spec fn properties_from(b: Seq<char>) -> Option<int> {
    first_match(b, 0, b.len() as int, "(property \""@)
}

/// Whether two symbol blocks are the same up to where their properties begin.
pub open spec fn same_front(was: Seq<char>, block: Seq<char>) -> bool {
    properties_from(was) matches Some(from) && {
        &&& properties_from(block) == Some(from)
        &&& block.take(from) == was.take(from)
    }
}

/// Whether a symbol block has its placement before its properties, as eeschema
/// writes it.
pub open spec fn is_placed_first(b: Seq<char>) -> bool {
    match (child_tagged(b, "at"@), properties_from(b)) {
        (Some(n), Some(from)) => n.end < from,
        _ => false,
    }
}

/// Blocks that agree from their first property's place on agree up to there.
proof fn lemma_same_front(was: Seq<char>, block: Seq<char>, limit: int)
    requires
        0 <= limit <= was.len(),
        limit <= block.len(),
        was.take(limit) == block.take(limit),
        properties_from(was) matches Some(from) && from + 11 <= limit,
    ensures
        same_front(was, block),
{
    let pat = "(property \""@;
    let from = properties_from(was)->0;
    reveal_strlit("(property \"");
    lemma_first_match(was, 0, was.len() as int, pat);
    lemma_first_match(block, 0, block.len() as int, pat);
    assert forall|i: int| 0 <= i < limit implies was[i] == #[trigger] block[i] by {
        assert(was.take(limit)[i] == was[i]);
        assert(block.take(limit)[i] == block[i]);
    }
    assert(block.subrange(from, from + 11) =~= was.subrange(from, from + 11));
    assert(occurs_at(block, from, pat));
    let found = properties_from(block)->0;
    if found < from {
        assert(block.subrange(found, found + 11) =~= was.subrange(found, found + 11));
        assert(occurs_at(was, found, pat));
    }
    assert(block.take(from) =~= was.take(from));
}

/// A property's marker is a place where properties begin, or behind it.
proof fn lemma_marker_behind(b: Seq<char>, field: Seq<char>, m: int)
    requires
        occurs_at(b, m, property_marker(field)),
    ensures
        properties_from(b) matches Some(from) && from <= m && (from < m ==> from + 11 <= m),
{
    let pat = "(property \""@;
    let p = property_marker(field);
    reveal_strlit("(property \"");
    lemma_marker(field);
    lemma_first_match(b, 0, b.len() as int, pat);
    let here = b.subrange(m, m + p.len());
    assert(here == p);
    assert(b.subrange(m, m + 11) =~= p.subrange(0, 11)) by {
        assert forall|i: int| 0 <= i < 11 implies b[m + i] == p[i] by {
            assert(here[i] == b[m + i]);
        }
    }
    assert(occurs_at(b, m, pat));
    let from = properties_from(b)->0;
    if from < m < from + 11 {
        assert(b.subrange(from, from + 11)[m - from] == b[m]);
        assert(here[0] == b[m]);
    }
}

/// Setting a property leaves what comes before the properties.
pub proof fn lemma_set_keeps_front(b: Seq<char>, field: Seq<char>, new_val: Seq<char>)
    requires
        value_of(b, field) is Some,
    ensures
        same_front(b, with_value(b, field, new_val)),
{
    let p = property_marker(field);
    let len = b.len() as int;
    lemma_marker(field);
    lemma_first_match(b, 0, len, p);
    let m = first_match(b, 0, len, p)->0;
    let at = m + p.len();
    lemma_first_char(b, at, len, '"');
    lemma_marker_behind(b, field, m);
    let c = with_value(b, field, new_val);
    assert(c.take(at) =~= b.take(at));
    lemma_same_front(b, c, at);
}

/// Adding to the end of a block leaves what comes before its properties.
pub proof fn lemma_added_keeps_front(b: Seq<char>, v: Seq<char>)
    requires
        is_block(b),
        value_of(b, "Reference"@) is Some,
    ensures
        same_front(b, grown(b, b.len() - 1, v)),
{
    let p = property_marker("Reference"@);
    let len = b.len() as int;
    lemma_marker("Reference"@);
    lemma_first_match(b, 0, len, p);
    let m = first_match(b, 0, len, p)->0;
    lemma_marker_behind(b, "Reference"@, m);
    lemma_before_close(b);
    let here = b.subrange(m, m + p.len());
    assert(here[p.len() - 1] == b[m + p.len() - 1]);
    let c = grown(b, len - 1, v);
    assert(c.take(len - 1) =~= b.take(len - 1));
    lemma_same_front(b, c, len - 1);
}

proof fn lemma_same_tags(s: Seq<char>, t: Seq<char>, ns: Seq<Node>, tag: Seq<char>)
    requires
        forall|k: int|
            0 <= k < ns.len() ==> tag_at(s, (#[trigger] ns[k]).start) == tag_at(t, ns[k].start),
    ensures
        tagged(s, ns, tag) == tagged(t, ns, tag),
    decreases ns.len(),
{
    if ns.len() > 0 {
        let rest = ns.skip(1);
        assert forall|k: int| 0 <= k < rest.len() implies tag_at(s, (#[trigger] rest[k]).start)
            == tag_at(t, rest[k].start) by {
            assert(rest[k] == ns[k + 1]);
        }
        lemma_same_tags(s, t, rest, tag);
        assert(tag_at(s, ns[0].start) == tag_at(t, ns[0].start));
    }
}

proof fn lemma_same_white(s: Seq<char>, t: Seq<char>, from: int, to: int)
    requires
        forall|i: int| from <= i < to ==> #[trigger] s[i] == t[i],
    ensures
        white_end(s, from, to) == white_end(t, from, to),
    decreases to - from,
{
    if from < to {
        assert(s[from] == t[from]);
        lemma_same_white(s, t, from + 1, to);
    }
}

proof fn lemma_same_token(s: Seq<char>, t: Seq<char>, from: int, to: int)
    requires
        forall|i: int| from <= i < to ==> #[trigger] s[i] == t[i],
    ensures
        token_end(s, from, to) == token_end(t, from, to),
        from <= token_end(s, from, to),
        from <= to ==> token_end(s, from, to) <= to,
    decreases to - from,
{
    if from < to {
        assert(s[from] == t[from]);
        lemma_same_token(s, t, from + 1, to);
    }
}

proof fn lemma_same_placement(s: Seq<char>, t: Seq<char>, n: Node)
    requires
        0 <= n.start <= n.end <= s.len(),
        n.end <= t.len(),
        forall|i: int| 0 <= i < n.end ==> #[trigger] s[i] == t[i],
        child_tagged(s, "at"@) == Some(n),
        child_tagged(t, "at"@) == Some(n),
    ensures
        placement_of(s) == placement_of(t),
{
    let from = n.start + 3;
    let to = n.end;
    if from <= to {
        lemma_white_end(s, from, to);
        lemma_same_white(s, t, from, to);
        let a = white_end(s, from, to);
        lemma_same_token(s, t, a, to);
        let b = token_end(s, a, to);
        lemma_white_end(s, b, to);
        lemma_same_white(s, t, b, to);
        let c = white_end(s, b, to);
        lemma_same_token(s, t, c, to);
        let d = token_end(s, c, to);
        assert(s.subrange(a, b) =~= t.subrange(a, b));
        assert(s.subrange(c, d) =~= t.subrange(c, d));
    }
}

/// A symbol block's placement is read from what comes before its properties.
pub proof fn lemma_front_holds_placement(was: Seq<char>, block: Seq<char>)
    requires
        is_block(was),
        is_block(block),
        is_placed_first(was),
        same_front(was, block),
    ensures
        placement_of(block) == placement_of(was),
        is_placed_first(block),
{
    let tag = "at"@;
    let o = outside();
    let from = properties_from(was)->0;
    reveal_strlit("(property \"");
    lemma_first_match(was, 0, was.len() as int, "(property \""@);
    lemma_first_match(block, 0, block.len() as int, "(property \""@);
    lemma_first_tagged(was, tag);
    let n = child_tagged(was, tag)->0;
    let a = n.end + 1;
    assert forall|i: int| 0 <= i < from implies #[trigger] was[i] == block[i] by {
        assert(was.take(from)[i] == was[i]);
        assert(block.take(from)[i] == block[i]);
    }
    // Behind the placement the scanner stands between two children.
    lemma_tag_of_node(was, n);
    lemma_run_block(inside(), was, n.start, node_text(was, n));
    lemma_run_split(o, was, 0, n.start, a);
    assert(was.subrange(0, a) =~= block.subrange(0, a));
    lemma_run_same(o, was, 0, a, block, 0);
    lemma_nodes_before(was, a);
    lemma_nodes_before(block, a);
    assert(was.take(a) =~= block.take(a));
    let first = nodes_in(was.take(a), 0, a, 1);
    let rest = nodes_from(was, a, was.len() as int, inside(), 1);
    let others = nodes_from(block, a, block.len() as int, inside(), 1);
    assert forall|k: int| 0 <= k < first.len() implies tag_at(was, (#[trigger] first[k]).start)
        == tag_at(block, first[k].start) by {
        let m = first[k];
        assert(is_node(was, m) && is_node(block, m));
        lemma_tag_of_node(was, m);
        lemma_tag_of_node(block, m);
        assert(node_text(was, m) =~= node_text(block, m));
    }
    lemma_same_tags(was, block, first, tag);
    lemma_tagged_concat(was, first, rest, tag);
    lemma_tagged_concat(block, first, others, tag);
    if tagged(was, first, tag).len() == 0 {
        lemma_tagged(was, rest, tag);
        assert(tagged(was, rest, tag)[0] == n);
        let k = choose|k: int| 0 <= k < rest.len() && rest[k] == n;
        lemma_nodes_bounds(was, a, was.len() as int, inside(), 1);
        assert(rest[k].start >= a);
        assert(false);
    }
    assert(tagged(was, first, tag)[0] == n);
    assert(child_tagged(block, tag) == Some(n));
    lemma_same_placement(was, block, n);
}

} // verus!
