//! What swapping a component's library symbol promises as a whole.

use crate::edit_laws::{lemma_marker, lemma_match_in_part, lemma_run_letters_in};
use crate::field_laws::{ends_with, quote_free};
use crate::names::{lemma_less_irreflexive, lemma_less_transitive, text_less};
use crate::placement::unit_refusal;
use crate::rename_laws::{
    lemma_entry_opens, lemma_occurrence_kept, lemma_shown_opens, opens_list, opens_nothing,
};
use crate::replace::{
    block_entries, entry_less, law_also_affects_lists_every_other_reference, list_name, opens_unit,
    others, path_entries, project_entries, same_entry, swapped, units_set, with_unit, RefEntry,
    Swap,
};
use crate::scan::{
    node_text, nodes_from, nodes_in, opens, outside, run, step, tag_at, tag_end, tagged, Lex, Node,
};
use crate::sexp::{document, tagged_item, tagged_items, tagged_value, Tree};
use crate::structure::{
    ends_tag, inside, is_block, is_flat, is_node, is_plain_text, lemma_block_is_node,
    lemma_node_state, lemma_nodes_before, lemma_nodes_bounds, lemma_run_front, lemma_run_same,
    lemma_run_split, lemma_run_wellformed, lemma_string_exchange, lemma_tag_end, lemma_tag_is,
    lemma_tag_of_block, lemma_tag_of_node, lemma_tagged, lemma_tagged_concat,
};
use crate::symbols::{
    answering, answering_block, answers, instance_entry, lemma_answering_block, property_marker,
    reference_property, shows, symbols,
};
use crate::text::{
    contains_text, decimal, first_char, first_match, lemma_first_char, lemma_first_match, occurs_at,
};
use vstd::prelude::*;

verus! {

// ─── Reading a library symbol ────────────────────────────────────────────────

/// The library symbol of a symbol block: what its first `(lib_id "…")` holds.
pub open spec fn lib_id_of(b: Seq<char>) -> Option<Seq<char>> {
    match first_match(b, 0, b.len() as int, "(lib_id \""@) {
        None => None,
        Some(m) => match first_char(b, m + 9, b.len() as int, '"') {
            None => None,
            Some(end) => Some(b.subrange(m + 9, end)),
        },
    }
}

/// A block with another library symbol.
pub open spec fn with_lib_id(b: Seq<char>, new_lib_id: Seq<char>) -> Seq<char> {
    let m = first_match(b, 0, b.len() as int, "(lib_id \""@)->0;
    b.take(m + 9) + new_lib_id + b.skip(m + 9 + (lib_id_of(b)->0).len())
}

/// What starts with the library symbol up to its closing quote reads it.
proof fn lemma_reads_lib_id(b: Seq<char>, m: int, lib_id: Seq<char>)
    requires
        0 <= m,
        m + 9 + lib_id.len() < b.len(),
        occurs_at(b, m, "(lib_id \""@),
        forall|k: int| 0 <= k < m ==> !#[trigger] occurs_at(b, k, "(lib_id \""@),
        b.subrange(m + 9, m + 9 + lib_id.len()) == lib_id,
        b[m + 9 + lib_id.len()] == '"',
        !lib_id.contains('"'),
    ensures
        first_match(b, 0, b.len() as int, "(lib_id \""@) == Some(m),
        lib_id_of(b) == Some(lib_id),
{
    let pat = "(lib_id \""@;
    reveal_strlit("(lib_id \"");
    lemma_first_match(b, 0, b.len() as int, pat);
    let end = m + 9 + lib_id.len();
    lemma_first_char(b, m + 9, b.len() as int, '"');
    let found = first_char(b, m + 9, b.len() as int, '"')->0;
    if found < end {
        assert(b.subrange(m + 9, end)[found - m - 9] == b[found]);
        assert(lib_id[found - m - 9] == '"');
    }
}

/// The library symbol is written where it was, and reads as it was given.
proof fn lemma_with_lib_id(b: Seq<char>, new_lib_id: Seq<char>)
    requires
        lib_id_of(b) is Some,
        !new_lib_id.contains('"'),
    ensures
        ({
            let m = first_match(b, 0, b.len() as int, "(lib_id \""@)->0;
            let c = with_lib_id(b, new_lib_id);
            &&& 0 <= m
            &&& m + 9 + (lib_id_of(b)->0).len() < b.len()
            &&& b[m + 9 + (lib_id_of(b)->0).len()] == '"'
            &&& !(lib_id_of(b)->0).contains('"')
            &&& first_match(c, 0, c.len() as int, "(lib_id \""@) == Some(m)
            &&& lib_id_of(c) == Some(new_lib_id)
        }),
{
    let pat = "(lib_id \""@;
    let len = b.len() as int;
    reveal_strlit("(lib_id \"");
    lemma_first_match(b, 0, len, pat);
    let m = first_match(b, 0, len, pat)->0;
    lemma_first_char(b, m + 9, len, '"');
    let end = first_char(b, m + 9, len, '"')->0;
    let old = b.subrange(m + 9, end);
    let c = with_lib_id(b, new_lib_id);
    let here = b.subrange(m, m + 9);
    assert(here == pat);
    assert(c.subrange(m, m + 9) =~= here);
    assert forall|k: int| 0 <= k < m implies !#[trigger] occurs_at(c, k, pat) by {
        if occurs_at(c, k, pat) {
            assert(b.subrange(k, k + 9) =~= c.subrange(k, k + 9));
            assert(occurs_at(b, k, pat));
        }
    }
    assert(c.subrange(m + 9, m + 9 + new_lib_id.len()) =~= new_lib_id);
    assert(c[m + 9 + new_lib_id.len()] == b[end]);
    lemma_reads_lib_id(c, m, new_lib_id);
    if old.contains('"') {
        let i = choose|i: int| 0 <= i < old.len() && old[i] == '"';
        assert(b[m + 9 + i] == '"');
    }
}

proof fn lemma_match_in_block(s: Seq<char>, n: Node)
    requires
        is_node(s, n),
    ensures
        ({
            let b = node_text(s, n);
            let pat = "(lib_id \""@;
            &&& match (first_match(s, n.start, n.end + 1, pat), first_match(
                b,
                0,
                b.len() as int,
                pat,
            )) {
                (Some(m), Some(k)) => m == n.start + k && match (
                    first_char(s, m + 9, n.end + 1, '"'),
                    first_char(b, k + 9, b.len() as int, '"'),
                ) {
                    (Some(e), Some(f)) => e == n.start + f,
                    (None, None) => true,
                    _ => false,
                },
                (None, None) => true,
                _ => false,
            }
        }),
{
    let b = node_text(s, n);
    let pat = "(lib_id \""@;
    let len = b.len() as int;
    reveal_strlit("(lib_id \"");
    lemma_match_in_part(s, n.start, n.end + 1, 0, pat);
    lemma_first_match(b, 0, len, pat);
    if let Some(k) = first_match(b, 0, len, pat) {
        let m = n.start + k;
        lemma_first_char(s, m + 9, n.end + 1, '"');
        lemma_first_char(b, k + 9, len, '"');
        assert forall|i: int| 0 <= i < len implies b[i] == #[trigger] s[n.start + i] by {}
        match (first_char(s, m + 9, n.end + 1, '"'), first_char(b, k + 9, len, '"')) {
            (Some(e), Some(f)) => {
                assert(b[e - n.start] == s[n.start + (e - n.start)]);
                assert(b[f] == s[n.start + f]);
            },
            (Some(e), None) => {
                assert(b[e - n.start] == s[n.start + (e - n.start)]);
            },
            (None, Some(f)) => {
                assert(b[f] == s[n.start + f]);
            },
            _ => {},
        }
    }
}

/// Swapping without a new unit is writing the library symbol in the block of the
/// symbol that answers.
proof fn lemma_swap_is_local(
    s: Seq<char>,
    reference: Seq<char>,
    new_lib_id: Seq<char>,
    unit_count: Option<u32>,
)
    requires
        swapped(s, reference, new_lib_id, None, unit_count) is Ok,
    ensures
        answering_block(s, reference) is Some,
        ({
            let n = answering_block(s, reference)->0;
            let b = node_text(s, n);
            let swap = swapped(s, reference, new_lib_id, None, unit_count)->Ok_0;
            &&& is_node(s, n)
            &&& lib_id_of(b) == Some(swap.old_lib_id)
            &&& swap.content == s.take(n.start) + with_lib_id(b, new_lib_id) + s.skip(n.end + 1)
        }),
{
    let n = answering_block(s, reference)->0;
    let b = node_text(s, n);
    let pat = "(lib_id \""@;
    reveal_strlit("(lib_id \"");
    lemma_answering_block(s, reference);
    lemma_match_in_block(s, n);
    let m = first_match(s, n.start, n.end + 1, pat)->0;
    let k = first_match(b, 0, b.len() as int, pat)->0;
    lemma_first_match(s, n.start, n.end + 1, pat);
    lemma_first_char(s, m + 9, n.end + 1, '"');
    let e = first_char(s, m + 9, n.end + 1, '"')->0;
    let f = first_char(b, k + 9, b.len() as int, '"')->0;
    assert(b.subrange(k + 9, f) =~= s.subrange(m + 9, e));
    let swap = swapped(s, reference, new_lib_id, None, unit_count)->Ok_0;
    assert(swap.content =~= s.take(n.start) + with_lib_id(b, new_lib_id) + s.skip(n.end + 1));
}

// ─── Finding the symbol again ────────────────────────────────────────────────

proof fn lemma_answering_concat(s: Seq<char>, a: Seq<Node>, b: Seq<Node>, reference: Seq<char>)
    ensures
        answering(s, a + b, reference) == answering(s, a, reference) + answering(s, b, reference),
    decreases b.len(),
{
    if b.len() == 0 {
        assert(a + b =~= a);
        assert(answering(s, a, reference) + answering(s, b, reference) =~= answering(
            s,
            a,
            reference,
        ));
    } else {
        lemma_answering_concat(s, a, b.drop_last(), reference);
        assert((a + b).drop_last() =~= a + b.drop_last());
        assert(answering(s, a + b, reference) =~= answering(s, a, reference) + answering(
            s,
            b,
            reference,
        ));
    }
}

proof fn lemma_answering_within(s: Seq<char>, ns: Seq<Node>, reference: Seq<char>)
    ensures
        forall|k: int|
            0 <= k < answering(s, ns, reference).len() ==> ns.contains(
                #[trigger] answering(s, ns, reference)[k],
            ) && answers(node_text(s, answering(s, ns, reference)[k]), reference),
    decreases ns.len(),
{
    if ns.len() > 0 {
        let front = ns.drop_last();
        lemma_answering_within(s, front, reference);
        let all = answering(s, ns, reference);
        let some = answering(s, front, reference);
        assert forall|k: int| 0 <= k < all.len() implies ns.contains(#[trigger] all[k]) && answers(
            node_text(s, all[k]),
            reference,
        ) by {
            if k < some.len() {
                assert(some[k] == all[k]);
                let j = choose|j: int| 0 <= j < front.len() && front[j] == some[k];
                assert(ns[j] == all[k]);
            } else {
                assert(ns[ns.len() - 1] == all[k]);
            }
        }
    }
}

/// A symbol answers exactly where it is picked.
proof fn lemma_answering_all(s: Seq<char>, ns: Seq<Node>, reference: Seq<char>)
    ensures
        answering(s, ns, reference).len() == 0 <==> forall|k: int|
            0 <= k < ns.len() ==> !answers(node_text(s, #[trigger] ns[k]), reference),
    decreases ns.len(),
{
    if ns.len() > 0 {
        let front = ns.drop_last();
        lemma_answering_all(s, front, reference);
        assert forall|k: int| 0 <= k < front.len() implies front[k] == #[trigger] ns[k] by {}
        if answering(s, ns, reference).len() == 0 {
            assert forall|k: int| 0 <= k < ns.len() implies !answers(
                node_text(s, #[trigger] ns[k]),
                reference,
            ) by {
                if k < front.len() {
                    assert(front[k] == ns[k]);
                }
            }
        } else if forall|k: int|
            0 <= k < ns.len() ==> !answers(node_text(s, #[trigger] ns[k]), reference) {
            assert(!answers(node_text(s, ns[ns.len() - 1]), reference));
            assert forall|k: int| 0 <= k < front.len() implies !answers(
                node_text(s, #[trigger] front[k]),
                reference,
            ) by {
                assert(!answers(node_text(s, ns[k]), reference));
            }
        }
    }
}

/// A symbol answers to a reference, by a property that shows it or by an instance
/// entry, exactly where one is found; and the first of those that do is found.
pub proof fn law_the_first_that_answers_is_found(s: Seq<char>, reference: Seq<char>, j: int)
    requires
        0 <= j < symbols(s).len(),
        contains_text(node_text(s, symbols(s)[j]), reference_property(reference)) || contains_text(
            node_text(s, symbols(s)[j]),
            instance_entry(reference),
        ),
        forall|i: int|
            0 <= i < j ==> !contains_text(
                node_text(s, #[trigger] symbols(s)[i]),
                reference_property(reference),
            ) && !contains_text(node_text(s, symbols(s)[i]), instance_entry(reference)),
    ensures
        answering_block(s, reference) == Some(symbols(s)[j]),
{
    let ns = symbols(s);
    let a = ns.take(j);
    let b = ns.skip(j);
    assert(a + b =~= ns);
    lemma_answering_concat(s, a, b, reference);
    lemma_answering_all(s, a, reference);
    assert forall|k: int| 0 <= k < a.len() implies !answers(
        node_text(s, #[trigger] a[k]),
        reference,
    ) by {
        assert(a[k] == ns[k]);
    }
    assert(answering(s, a, reference).len() == 0);
    let one = seq![ns[j]];
    let rest = ns.skip(j + 1);
    assert(one + rest =~= b);
    lemma_answering_concat(s, one, rest, reference);
    assert(one.drop_last() =~= Seq::<Node>::empty());
    assert(one.last() == ns[j]);
    reveal_with_fuel(answering, 2);
    assert(answering(s, one, reference) =~= seq![ns[j]]);
    assert(answering(s, ns, reference)[0] == ns[j]);
}

/// No symbol is found where none answers.
pub proof fn law_nothing_answers(s: Seq<char>, reference: Seq<char>)
    ensures
        answering_block(s, reference) is None <==> forall|k: int|
            0 <= k < symbols(s).len() ==> !contains_text(
                node_text(s, #[trigger] symbols(s)[k]),
                reference_property(reference),
            ) && !contains_text(node_text(s, symbols(s)[k]), instance_entry(reference)),
{
    lemma_answering_all(s, symbols(s), reference);
    if answering_block(s, reference) is None {
        assert forall|k: int| 0 <= k < symbols(s).len() implies !contains_text(
            node_text(s, #[trigger] symbols(s)[k]),
            reference_property(reference),
        ) && !contains_text(node_text(s, symbols(s)[k]), instance_entry(reference)) by {
            assert(!answers(node_text(s, symbols(s)[k]), reference));
        }
    } else if forall|k: int|
        0 <= k < symbols(s).len() ==> !contains_text(
            node_text(s, #[trigger] symbols(s)[k]),
            reference_property(reference),
        ) && !contains_text(node_text(s, symbols(s)[k]), instance_entry(reference)) {
        assert forall|k: int| 0 <= k < symbols(s).len() implies !answers(
            node_text(s, #[trigger] symbols(s)[k]),
            reference,
        ) by {
            assert(!contains_text(node_text(s, symbols(s)[k]), reference_property(reference)));
        }
    }
}

proof fn lemma_same_tags(s: Seq<char>, t: Seq<char>, ns: Seq<Node>, tag: Seq<char>)
    requires
        forall|k: int|
            0 <= k < ns.len() ==> tag_at(s, (#[trigger] ns[k]).start) == tag_at(t, ns[k].start),
    ensures
        tagged(s, ns, tag) == tagged(t, ns, tag),
    decreases ns.len(),
{
    if ns.len() > 0 {
        let rest = ns.skip(1);
        assert forall|k: int| 0 <= k < rest.len() implies tag_at(s, (#[trigger] rest[k]).start)
            == tag_at(t, rest[k].start) by {
            assert(rest[k] == ns[k + 1]);
        }
        lemma_same_tags(s, t, rest, tag);
        assert(tag_at(s, ns[0].start) == tag_at(t, ns[0].start));
    }
}

/// Where the block of the symbol that answers is exchanged for one that answers
/// too, that one is found, in the same place.
#[verifier::spinoff_prover]
proof fn lemma_answering_replaced(s: Seq<char>, reference: Seq<char>, c: Seq<char>)
    requires
        answering_block(s, reference) is Some,
        is_block(c),
        tag_at(c, 0) == "symbol"@,
        answers(c, reference),
    ensures
        ({
            let n = answering_block(s, reference)->0;
            let t = s.take(n.start) + c + s.skip(n.end + 1);
            answering_block(t, reference) == Some(
                Node { start: n.start, end: n.start + c.len() - 1 },
            )
        }),
{
    let tag = "symbol"@;
    let o = outside();
    let n = answering_block(s, reference)->0;
    let a = n.start;
    let t = s.take(a) + c + s.skip(n.end + 1);
    let new = Node { start: a, end: a + c.len() - 1 };
    let slen = s.len() as int;
    let tlen = t.len() as int;
    lemma_answering_block(s, reference);
    lemma_answering_within(s, symbols(s), reference);
    let all = nodes_in(s, 0, slen, 1);
    lemma_tagged(s, all, tag);
    assert(symbols(s).contains(n));
    let h = choose|h: int| 0 <= h < symbols(s).len() && symbols(s)[h] == n;
    assert(all.contains(symbols(s)[h]));
    let i = choose|i: int| 0 <= i < all.len() && all[i] == n;
    lemma_nodes_bounds(s, 0, slen, o, 1);
    lemma_node_state(s, 0, slen, o, 1, i);
    assert(run(o, s, 0, a) == inside());
    assert(s.subrange(0, a) =~= t.subrange(0, a));
    lemma_run_same(o, s, 0, a, t, 0);
    lemma_nodes_before(s, a);
    lemma_nodes_before(t, a);
    assert(s.take(a) =~= t.take(a));
    let first = nodes_in(s.take(a), 0, a, 1);
    let rest = nodes_from(s, a, slen, inside(), 1);
    let behind = nodes_from(t, a, tlen, inside(), 1);
    // No symbol before it answers.
    assert forall|k: int| 0 <= k < first.len() implies tag_at(s, (#[trigger] first[k]).start)
        == tag_at(t, first[k].start) && node_text(s, first[k]) == node_text(t, first[k]) by {
        let m = first[k];
        assert(is_node(s, m) && is_node(t, m));
        lemma_tag_of_node(s, m);
        lemma_tag_of_node(t, m);
        assert(node_text(s, m) =~= node_text(t, m));
    }
    lemma_same_tags(s, t, first, tag);
    let pre = tagged(s, first, tag);
    lemma_tagged(s, first, tag);
    lemma_tagged_concat(s, first, rest, tag);
    lemma_tagged_concat(t, first, behind, tag);
    lemma_answering_concat(s, pre, tagged(s, rest, tag), reference);
    lemma_answering_concat(t, pre, tagged(t, behind, tag), reference);
    lemma_answering_within(s, pre, reference);
    if answering(s, pre, reference).len() > 0 {
        assert(answering(s, pre, reference)[0] == n);
        assert(pre.contains(n));
        let k = choose|k: int| 0 <= k < pre.len() && pre[k] == n;
        assert(first.contains(pre[k]));
        let g = choose|g: int| 0 <= g < first.len() && first[g] == n;
        assert(first[g].end < a);
        assert(false);
    }
    lemma_answering_all(s, pre, reference);
    lemma_answering_all(t, pre, reference);
    assert forall|k: int| 0 <= k < pre.len() implies !answers(
        node_text(t, #[trigger] pre[k]),
        reference,
    ) by {
        assert(first.contains(pre[k]));
        let g = choose|g: int| 0 <= g < first.len() && first[g] == pre[k];
        assert(node_text(s, first[g]) == node_text(t, first[g]));
        assert(!answers(node_text(s, pre[k]), reference));
    }
    // The new block comes next, and it answers.
    assert(t.subrange(a, a + c.len()) =~= c);
    lemma_block_is_node(t, a, c);
    assert(opens(inside(), t[a], 1));
    let after = nodes_from(t, a + 1, tlen, step(inside(), t[a]), 1);
    assert(behind == seq![new] + after);
    lemma_tag_of_block(t, a, c);
    lemma_tagged_concat(t, seq![new], after, tag);
    let one = seq![new];
    assert(one.skip(1) =~= Seq::<Node>::empty());
    reveal_with_fuel(tagged, 2);
    assert(tagged(t, one, tag) =~= one);
    assert(node_text(t, new) =~= c);
    lemma_answering_concat(t, one, tagged(t, after, tag), reference);
    assert(one.drop_last() =~= Seq::<Node>::empty());
    assert(one.last() == new);
    reveal_with_fuel(answering, 2);
    assert(answering(t, one, reference) =~= one);
    assert(answering(t, symbols(t), reference)[0] == new);
}

/// A block still answers once its library symbol is another.
#[verifier::spinoff_prover]
proof fn lemma_still_answers(b: Seq<char>, reference: Seq<char>, new_lib_id: Seq<char>)
    requires
        is_flat(reference),
        answers(b, reference),
        lib_id_of(b) is Some,
        opens_nothing(lib_id_of(b)->0),
        !new_lib_id.contains('"'),
    ensures
        answers(with_lib_id(b, new_lib_id), reference),
{
    let mark = "(lib_id \""@;
    reveal_strlit("(lib_id \"");
    lemma_with_lib_id(b, new_lib_id);
    lemma_first_match(b, 0, b.len() as int, mark);
    let m = first_match(b, 0, b.len() as int, mark)->0;
    let u = lib_id_of(b)->0;
    let z = b.take(m);
    let y = b.skip(m + 9 + u.len());
    let c = with_lib_id(b, new_lib_id);
    lemma_first_char(b, m + 9, b.len() as int, '"');
    assert(b.subrange(m, m + 9) == mark);
    assert(b =~= z + mark + u + y);
    assert(c =~= z + mark + new_lib_id + y);
    assert(quote_free(u));
    if shows(b, reference) {
        let q = reference_property(reference);
        lemma_shown_opens(reference);
        lemma_marker("Reference"@);
        let head = property_marker("Reference"@);
        reveal_strlit("(property \"");
        reveal_strlit("(property ");
        assert(q[10] == head[10]);
        assert forall|j: int| 0 <= j < 10 implies #[trigger] q[j] != '"' by {
            assert(q[j] == head.subrange(0, 11)[j]);
        }
        assert(opens_list(q, 10));
        assert(q.take(10) =~= "(property "@) by {
            assert forall|j: int| 0 <= j < 10 implies q[j] == "(property "@[j] by {
                assert(q[j] == head.subrange(0, 11)[j]);
            }
        }
        let k = choose|k: int| #[trigger] occurs_at(b, k, q);
        assert(occurs_at(b, k, q));
        lemma_occurrence_kept(z, mark, u, new_lib_id, y, q, 10, 1, k);
    } else {
        let e = instance_entry(reference);
        lemma_entry_opens(reference);
        let k = choose|k: int| #[trigger] occurs_at(b, k, e);
        assert(occurs_at(b, k, e));
        lemma_occurrence_kept(z, mark, u, new_lib_id, y, e, 11, 1, k);
    }
}

/// A symbol block stays one once its library symbol is another.
#[verifier::spinoff_prover]
proof fn lemma_still_a_block(b: Seq<char>, new_lib_id: Seq<char>)
    requires
        is_block(b),
        lib_id_of(b) is Some,
        is_plain_text(lib_id_of(b)->0),
        is_plain_text(new_lib_id),
        !run(outside(), b, 0, first_match(b, 0, b.len() as int, "(lib_id \""@)->0).quoted,
    ensures
        is_block(with_lib_id(b, new_lib_id)),
        tag_at(with_lib_id(b, new_lib_id), 0) == tag_at(b, 0),
        ({
            let m = first_match(b, 0, b.len() as int, "(lib_id \""@)->0;
            &&& run(outside(), b, 0, m + 9).quoted
            &&& !run(outside(), b, 0, m + 9).escaped
        }),
{
    let mark = "(lib_id \""@;
    let o = outside();
    reveal_strlit("(lib_id \"");
    assert(!new_lib_id.contains('"'));
    lemma_with_lib_id(b, new_lib_id);
    lemma_first_match(b, 0, b.len() as int, mark);
    let m = first_match(b, 0, b.len() as int, mark)->0;
    let u = lib_id_of(b)->0;
    let c = with_lib_id(b, new_lib_id);
    lemma_first_char(b, m + 9, b.len() as int, '"');
    let at = m + 9;
    let here = b.subrange(m, at);
    assert(here == mark);
    assert forall|i: int| 0 <= i < 9 implies #[trigger] b[m + i] == mark[i] by {
        assert(here[i] == b[m + i]);
    }
    // The mark opens a list and a string in it.
    let l = run(o, b, 0, m);
    lemma_run_wellformed(o, b, 0, m);
    let opened = Lex { depth: l.depth + 1, ..l };
    assert(run(o, b, 0, m + 1) == step(run(o, b, 0, m), b[m + 0]));
    assert(run(o, b, 0, m + 1) == opened);
    assert(run(o, b, 0, m + 2) == step(run(o, b, 0, m + 1), b[m + 1]));
    assert(run(o, b, 0, m + 3) == step(run(o, b, 0, m + 2), b[m + 2]));
    assert(run(o, b, 0, m + 4) == step(run(o, b, 0, m + 3), b[m + 3]));
    assert(run(o, b, 0, m + 5) == step(run(o, b, 0, m + 4), b[m + 4]));
    assert(run(o, b, 0, m + 6) == step(run(o, b, 0, m + 5), b[m + 5]));
    assert(run(o, b, 0, m + 7) == step(run(o, b, 0, m + 6), b[m + 6]));
    assert(run(o, b, 0, m + 8) == step(run(o, b, 0, m + 7), b[m + 7]));
    assert(run(o, b, 0, m + 9) == step(run(o, b, 0, m + 8), b[m + 8]));
    let x = b.take(at);
    let y = b.skip(at + u.len());
    assert(b.subrange(at, at + u.len()) =~= u);
    assert(x + u + y =~= b);
    assert(b.subrange(0, at) =~= x.subrange(0, at));
    lemma_run_same(o, b, 0, at, x, 0);
    lemma_string_exchange(x, u, y, new_lib_id);
    // The tag stands before the library symbol.
    lemma_tag_end(b, 1);
    let j = if m > 0 {
        m
    } else {
        7int
    };
    assert(b[m + 7] == ' ');
    assert(ends_tag(b[j]));
    lemma_tag_of_whole(b);
    let e = tag_end(b, 1)->0;
    assert(e <= j < at);
    assert forall|k: int| 0 < k < e implies !ends_tag(#[trigger] c[k]) by {
        assert(c[k] == b[k]);
    }
    assert(c[e] == b[e]);
    lemma_tag_is(b, 0, e);
    lemma_tag_is(c, 0, e);
    assert(b.subrange(1, e) =~= c.subrange(1, e));
}

proof fn lemma_tag_of_whole(b: Seq<char>)
    requires
        is_block(b),
    ensures
        tag_end(b, 1) is Some,
{
    assert(b.subrange(0, b.len() as int) =~= b);
    lemma_tag_of_block(b, 0, b);
}

// ─── Units ───────────────────────────────────────────────────────────────────

/// What `pieces` make with `fills` between them.
pub open spec fn woven(pieces: Seq<Seq<char>>, fills: Seq<Seq<char>>) -> Seq<char>
    decreases fills.len(),
{
    if fills.len() == 0 {
        pieces[0]
    } else {
        pieces[0] + fills[0] + woven(pieces.skip(1), fills.skip(1))
    }
}

/// `text`, `count` times.
pub open spec fn repeated(text: Seq<char>, count: nat) -> Seq<Seq<char>> {
    Seq::new(count, |k: int| text)
}

/// Whether `pieces` and `numbers` take a text apart at its `(unit N)` lists: every
/// piece but the last ends where a number begins, and a number ends where its list
/// closes.
pub open spec fn parts_at_units(pieces: Seq<Seq<char>>, numbers: Seq<Seq<char>>) -> bool {
    &&& pieces.len() == numbers.len() + 1
    &&& forall|k: int| 0 <= k < numbers.len() ==> ends_with(#[trigger] pieces[k], "(unit "@)
    &&& forall|k: int| 0 <= k < numbers.len() ==> !(#[trigger] numbers[k]).contains(')')
    &&& forall|k: int|
        0 < k < pieces.len() ==> (#[trigger] pieces[k]).len() > 0 && pieces[k][0] == ')'
}

/// Setting the units of a text takes it apart at its units, and puts the new unit
/// in the place of each number.
proof fn lemma_units_are_woven(s: Seq<char>, l: Lex, from: int, hi: int, unit: Seq<char>) -> (parts:
    (Seq<Seq<char>>, Seq<Seq<char>>))
    requires
        0 <= from <= hi <= s.len(),
    ensures
        parts_at_units(parts.0, parts.1),
        s.subrange(from, hi) == woven(parts.0, parts.1),
        units_set(s, l, from, hi, unit) == woven(parts.0, repeated(unit, parts.1.len())),
        from < hi ==> parts.0[0].len() > 0 && parts.0[0][0] == s[from],
    decreases hi - from,
{
    reveal_strlit("(unit ");
    let pat = "(unit "@;
    let t = units_set(s, l, from, hi, unit);
    if from >= hi {
        let pieces = seq![Seq::<char>::empty()];
        assert(s.subrange(from, hi) =~= pieces[0]);
        (pieces, Seq::empty())
    } else if opens_unit(s, l, from, hi) {
        lemma_first_char(s, from + 6, hi, ')');
        match first_char(s, from + 6, hi, ')') {
            Some(close) => {
                let (ps, ns) = lemma_units_are_woven(s, step(l, '('), close, hi, unit);
                let number = s.subrange(from + 6, close);
                let pieces = seq![pat] + ps;
                let numbers = seq![number] + ns;
                assert(pieces.skip(1) =~= ps);
                assert(numbers.skip(1) =~= ns);
                assert(pat.skip(pat.len() - pat.len()) =~= pat);
                assert(ends_with(pat, pat));
                let fills = repeated(unit, numbers.len());
                assert(fills.skip(1) =~= repeated(unit, ns.len()));
                assert(s.subrange(from, from + 6) == pat);
                assert(s.subrange(from, hi) =~= pat + number + s.subrange(close, hi));
                assert forall|k: int| 0 <= k < numbers.len() implies ends_with(
                    #[trigger] pieces[k],
                    pat,
                ) by {
                    if k > 0 {
                        assert(pieces[k] == ps[k - 1]);
                    }
                }
                assert forall|k: int| 0 <= k < numbers.len() implies !(
                #[trigger] numbers[k]).contains(')') by {
                    if k > 0 {
                        assert(numbers[k] == ns[k - 1]);
                    } else if number.contains(')') {
                        let i = choose|i: int| 0 <= i < number.len() && number[i] == ')';
                        assert(s[from + 6 + i] == ')');
                    }
                }
                assert forall|k: int| 0 < k < pieces.len() implies (#[trigger] pieces[k]).len() > 0
                    && pieces[k][0] == ')' by {
                    assert(pieces[k] == ps[k - 1]);
                }
                assert(pat[0] == s[from]) by {
                    assert(s.subrange(from, from + 6)[0] == s[from]);
                }
                (pieces, numbers)
            },
            None => {
                let pieces = seq![s.subrange(from, hi)];
                (pieces, Seq::empty())
            },
        }
    } else {
        let (ps, ns) = lemma_units_are_woven(s, step(l, s[from]), from + 1, hi, unit);
        let head = seq![s[from]] + ps[0];
        let pieces = ps.update(0, head);
        let fills = repeated(unit, ns.len());
        assert(s.subrange(from, hi) =~= seq![s[from]] + s.subrange(from + 1, hi));
        lemma_woven_head(ps, ns, s[from]);
        lemma_woven_head(ps, fills, s[from]);
        assert forall|k: int| 0 <= k < ns.len() implies ends_with(#[trigger] pieces[k], pat) by {
            if k == 0 {
                assert(ends_with(ps[0], pat));
                assert(head.skip(head.len() - pat.len()) =~= ps[0].skip(ps[0].len() - pat.len()));
            } else {
                assert(pieces[k] == ps[k]);
            }
        }
        (pieces, ns)
    }
}

proof fn lemma_woven_head(pieces: Seq<Seq<char>>, fills: Seq<Seq<char>>, c: char)
    requires
        pieces.len() == fills.len() + 1,
    ensures
        woven(pieces.update(0, seq![c] + pieces[0]), fills) == seq![c] + woven(pieces, fills),
{
    let after = pieces.update(0, seq![c] + pieces[0]);
    if fills.len() > 0 {
        assert(after.skip(1) =~= pieces.skip(1));
        let rest = woven(pieces.skip(1), fills.skip(1));
        assert((seq![c] + pieces[0]) + fills[0] + rest =~= seq![c] + (pieces[0] + fills[0] + rest));
    }
}

/// Setting units in a part of a text is setting them in that part alone.
proof fn lemma_units_in_part(
    t: Seq<char>,
    l: Lex,
    a: int,
    c: Seq<char>,
    i: int,
    unit: Seq<char>,
)
    requires
        0 <= a,
        a + c.len() <= t.len(),
        t.subrange(a, a + c.len()) == c,
        0 <= i <= c.len(),
    ensures
        units_set(t, l, a + i, a + c.len(), unit) == units_set(c, l, i, c.len() as int, unit),
    decreases c.len() - i,
{
    let hi = a + c.len();
    let len = c.len() as int;
    reveal_strlit("(unit ");
    if i < len {
        assert(c[i] == t[a + i]) by {
            assert(t.subrange(a, hi)[i] == t[a + i]);
        }
        if i + 6 <= len {
            assert(t.subrange(a + i, a + i + 6) =~= c.subrange(i, i + 6)) by {
                assert forall|k: int| 0 <= k < 6 implies #[trigger] t[a + i + k] == c[i + k] by {
                    assert(t.subrange(a, hi)[i + k] == t[a + (i + k)]);
                }
            }
        }
        assert(opens_unit(t, l, a + i, hi) == opens_unit(c, l, i, len));
        if opens_unit(c, l, i, len) {
            lemma_first_char(t, a + i + 6, hi, ')');
            lemma_first_char(c, i + 6, len, ')');
            assert forall|k: int| 0 <= k < len implies c[k] == #[trigger] t[a + k] by {
                assert(t.subrange(a, hi)[k] == t[a + k]);
            }
            match (first_char(t, a + i + 6, hi, ')'), first_char(c, i + 6, len, ')')) {
                (Some(x), Some(y)) => {
                    assert(c[x - a] == t[a + (x - a)]);
                    assert(c[y] == t[a + y]);
                    assert(x == a + y);
                    lemma_units_in_part(t, step(l, '('), a, c, y, unit);
                },
                (Some(x), None) => {
                    assert(c[x - a] == t[a + (x - a)]);
                },
                (None, Some(y)) => {
                    assert(c[y] == t[a + y]);
                },
                (None, None) => {
                    assert(t.subrange(a + i, hi) =~= c.subrange(i, len));
                },
            }
        } else {
            lemma_units_in_part(t, step(l, c[i]), a, c, i + 1, unit);
        }
    }
}

/// Where no unit opens, text stays as it is.
proof fn lemma_units_leave(c: Seq<char>, l: Lex, i: int, e: int, unit: Seq<char>)
    requires
        0 <= i <= e <= c.len(),
        forall|k: int|
            i <= k < e ==> run(l, c, i, k).quoted || !#[trigger] occurs_at(c, k, "(unit "@),
    ensures
        units_set(c, l, i, c.len() as int, unit) == c.subrange(i, e) + units_set(
            c,
            run(l, c, i, e),
            e,
            c.len() as int,
            unit,
        ),
    decreases e - i,
{
    if i == e {
        assert(c.subrange(i, e) + units_set(c, l, i, c.len() as int, unit) =~= units_set(
            c,
            l,
            i,
            c.len() as int,
            unit,
        ));
    } else {
        let next = step(l, c[i]);
        assert(run(l, c, i, i) == l);
        assert(!opens_unit(c, l, i, c.len() as int)) by {
            if opens_unit(c, l, i, c.len() as int) {
                assert(occurs_at(c, i, "(unit "@));
            }
        }
        assert forall|k: int| i + 1 <= k < e implies run(next, c, i + 1, k).quoted
            || !#[trigger] occurs_at(c, k, "(unit "@) by {
            lemma_run_front(l, c, i, k);
        }
        lemma_units_leave(c, next, i + 1, e, unit);
        lemma_run_front(l, c, i, e);
        let rest = units_set(c, run(l, c, i, e), e, c.len() as int, unit);
        assert(seq![c[i]] + (c.subrange(i + 1, e) + rest) =~= c.subrange(i, e) + rest);
    }
}

// ─── Laws ────────────────────────────────────────────────────────────────────

/// Whether a symbol block has its library symbol as eeschema writes it: outside
/// strings, without escapes, and before its units.
pub open spec fn has_plain_lib_id(b: Seq<char>) -> bool {
    match (first_match(b, 0, b.len() as int, "(lib_id \""@), lib_id_of(b)) {
        (Some(m), Some(lib_id)) => {
            &&& !run(outside(), b, 0, m).quoted
            &&& is_plain_text(lib_id)
            &&& opens_nothing(lib_id)
            &&& forall|k: int| 0 <= k < m ==> !#[trigger] occurs_at(b, k, "(unit "@)
        },
        _ => false,
    }
}

/// A swap without a new unit writes the library symbol that was asked for: the block
/// of the symbol that answers reads it, reported as the old one is what it read
/// before, and the rest of the schematic is as it was.
pub proof fn law_a_swap_writes_the_library_symbol(
    s: Seq<char>,
    reference: Seq<char>,
    new_lib_id: Seq<char>,
    unit_count: Option<u32>,
) -> (block: Seq<char>)
    requires
        swapped(s, reference, new_lib_id, None, unit_count) is Ok,
        !new_lib_id.contains('"'),
    ensures
        answering_block(s, reference) is Some,
        ({
            let n = answering_block(s, reference)->0;
            let swap = swapped(s, reference, new_lib_id, None, unit_count)->Ok_0;
            &&& swap.content == s.take(n.start) + block + s.skip(n.end + 1)
            &&& lib_id_of(node_text(s, n)) == Some(swap.old_lib_id)
            &&& lib_id_of(block) == Some(new_lib_id)
            &&& block == with_lib_id(node_text(s, n), new_lib_id)
        }),
{
    lemma_swap_is_local(s, reference, new_lib_id, unit_count);
    let b = node_text(s, answering_block(s, reference)->0);
    lemma_with_lib_id(b, new_lib_id);
    with_lib_id(b, new_lib_id)
}

/// A swap, with a new unit or without one, writes the library symbol that was asked
/// for: in the resulting schematic the block of the symbol that answered reads it.
/// Everything outside that block is as it was, and in it only the library symbol and
/// the numbers of the `(unit N)` lists have changed: taken apart at its units, the
/// block with the new library symbol is `parts`, and what is written has the new unit
/// in the place of every number.
pub proof fn law_a_swap_changes_its_symbol_alone(
    s: Seq<char>,
    reference: Seq<char>,
    new_lib_id: Seq<char>,
    new_unit: Option<u32>,
    unit_count: Option<u32>,
) -> (parts: (Seq<Seq<char>>, Seq<Seq<char>>))
    requires
        swapped(s, reference, new_lib_id, new_unit, unit_count) is Ok,
        is_flat(reference),
        is_plain_text(new_lib_id),
        answering_block(s, reference) matches Some(n) ==> has_plain_lib_id(node_text(s, n)),
    ensures
        answering_block(s, reference) is Some,
        parts_at_units(parts.0, parts.1),
        ({
            let n = answering_block(s, reference)->0;
            let b = node_text(s, n);
            let swap = swapped(s, reference, new_lib_id, new_unit, unit_count)->Ok_0;
            let block = match new_unit {
                Some(unit) => woven(parts.0, repeated(decimal(unit as nat), parts.1.len())),
                None => woven(parts.0, parts.1),
            };
            let at = first_match(b, 0, b.len() as int, "(lib_id \""@)->0 + 9;
            &&& swap.content == s.take(n.start) + block + s.skip(n.end + 1)
            &&& lib_id_of(block) == Some(new_lib_id)
            &&& lib_id_of(b) == Some(swap.old_lib_id)
            &&& b == b.take(at) + swap.old_lib_id + b.skip(at + swap.old_lib_id.len())
            &&& woven(parts.0, parts.1) == b.take(at) + new_lib_id + b.skip(
                at + swap.old_lib_id.len(),
            )
        }),
{
    let pat = "(lib_id \""@;
    reveal_strlit("(lib_id \"");
    reveal_strlit("(unit ");
    let plain = swapped(s, reference, new_lib_id, None, unit_count);
    assert(plain is Ok);
    assert(!new_lib_id.contains('"'));
    lemma_swap_is_local(s, reference, new_lib_id, unit_count);
    let n = answering_block(s, reference)->0;
    let b = node_text(s, n);
    let old = lib_id_of(b)->0;
    let c = with_lib_id(b, new_lib_id);
    let len = c.len() as int;
    let o = outside();
    lemma_with_lib_id(b, new_lib_id);
    let m = first_match(b, 0, b.len() as int, pat)->0;
    let at = m + 9;
    lemma_first_match(b, 0, b.len() as int, pat);
    lemma_first_char(b, at, b.len() as int, '"');
    assert(b.subrange(at, at + old.len()) =~= old);
    assert(b =~= b.take(at) + old + b.skip(at + old.len()));
    match new_unit {
        None => {
            let pieces = seq![c];
            (pieces, Seq::empty())
        },
        Some(unit) => {
            let digits = decimal(unit as nat);
            let t = s.take(n.start) + c + s.skip(n.end + 1);
            lemma_unit_written(s, reference, new_lib_id, unit);
            let block = units_set(c, outside(), 0, c.len() as int, digits);
            let done = swapped(s, reference, new_lib_id, new_unit, unit_count)->Ok_0.content;
            assert(done == with_unit(t, reference, unit));
            let parts = lemma_units_are_woven(c, outside(), 0, c.len() as int, digits);
            assert(c.subrange(0, c.len() as int) =~= c);
            lemma_tag_of_node(s, n);
            lemma_lib_id_before_units(b, new_lib_id, digits);
            parts
        },
    }
}

/// The unit of the symbol whose library symbol was written is set in its block.
proof fn lemma_unit_written(s: Seq<char>, reference: Seq<char>, new_lib_id: Seq<char>, unit: u32)
    requires
        is_flat(reference),
        is_plain_text(new_lib_id),
        answering_block(s, reference) is Some,
        has_plain_lib_id(node_text(s, answering_block(s, reference)->0)),
    ensures
        ({
            let n = answering_block(s, reference)->0;
            let c = with_lib_id(node_text(s, n), new_lib_id);
            with_unit(s.take(n.start) + c + s.skip(n.end + 1), reference, unit) == s.take(n.start)
                + units_set(c, outside(), 0, c.len() as int, decimal(unit as nat)) + s.skip(
                n.end + 1,
            )
        }),
{
    let n = answering_block(s, reference)->0;
    let b = node_text(s, n);
    let c = with_lib_id(b, new_lib_id);
    let len = c.len() as int;
    let t = s.take(n.start) + c + s.skip(n.end + 1);
    lemma_answering_block(s, reference);
    lemma_tag_of_node(s, n);
    lemma_tagged(s, nodes_in(s, 0, s.len() as int, 1), "symbol"@);
    lemma_answering_within(s, symbols(s), reference);
    assert(symbols(s).contains(n));
    let h = choose|h: int| 0 <= h < symbols(s).len() && symbols(s)[h] == n;
    assert(tag_at(s, symbols(s)[h].start) == "symbol"@);
    lemma_still_a_block(b, new_lib_id);
    lemma_still_answers(b, reference, new_lib_id);
    lemma_answering_replaced(s, reference, c);
    assert(t.subrange(n.start, n.start + len) =~= c);
    lemma_units_in_part(t, outside(), n.start, c, 0, decimal(unit as nat));
    assert(t.take(n.start) =~= s.take(n.start));
    assert(t.skip(n.start + len) =~= s.skip(n.end + 1));
}

/// The library symbol comes before the units, so that setting them leaves it.
#[verifier::spinoff_prover]
proof fn lemma_lib_id_before_units(b: Seq<char>, new_lib_id: Seq<char>, digits: Seq<char>)
    requires
        is_block(b),
        has_plain_lib_id(b),
        is_plain_text(new_lib_id),
    ensures
        ({
            let c = with_lib_id(b, new_lib_id);
            lib_id_of(units_set(c, outside(), 0, c.len() as int, digits)) == Some(new_lib_id)
        }),
{
    let pat = "(lib_id \""@;
    reveal_strlit("(lib_id \"");
    let c = with_lib_id(b, new_lib_id);
    let len = c.len() as int;
    let block = units_set(c, outside(), 0, len, digits);
    let m = first_match(b, 0, b.len() as int, pat)->0;
    let at = m + 9;
    let end = at + new_lib_id.len();
    let e: int = end + 1;
    assert(!new_lib_id.contains('"'));
    lemma_with_lib_id(b, new_lib_id);
    lemma_before_units(b, new_lib_id);
    lemma_units_leave(c, outside(), 0, e, digits);
    assert forall|i: int| 0 <= i < e implies block[i] == #[trigger] c[i] by {
        assert(c.subrange(0, e)[i] == c[i]);
    }
    lemma_first_match(c, 0, len, pat);
    lemma_first_char(c, at, len, '"');
    assert(block.subrange(m, at) =~= c.subrange(m, at));
    assert(occurs_at(block, m, pat));
    assert forall|k: int| 0 <= k < m implies !#[trigger] occurs_at(block, k, pat) by {
        if occurs_at(block, k, pat) {
            assert(c.subrange(k, k + 9) =~= block.subrange(k, k + 9));
            assert(occurs_at(c, k, pat));
        }
    }
    assert(c.subrange(at, end) =~= new_lib_id);
    assert(block.subrange(at, end) =~= c.subrange(at, end));
    lemma_reads_lib_id(block, m, new_lib_id);
}

/// Up to the end of its library symbol no unit opens in a block.
proof fn lemma_before_units(b: Seq<char>, new_lib_id: Seq<char>)
    requires
        is_block(b),
        has_plain_lib_id(b),
        is_plain_text(new_lib_id),
    ensures
        ({
            let c = with_lib_id(b, new_lib_id);
            let m = first_match(b, 0, b.len() as int, "(lib_id \""@)->0;
            let e = m + 9 + new_lib_id.len() + 1;
            &&& e <= c.len()
            &&& forall|k: int|
                0 <= k < e ==> run(outside(), c, 0, k).quoted || !#[trigger] occurs_at(
                    c,
                    k,
                    "(unit "@,
                )
        }),
{
    let c = with_lib_id(b, new_lib_id);
    let m = first_match(b, 0, b.len() as int, "(lib_id \""@)->0;
    let e = m + 9 + new_lib_id.len() + 1;
    assert(!new_lib_id.contains('"'));
    lemma_with_lib_id(b, new_lib_id);
    assert forall|k: int| 0 <= k < e implies run(outside(), c, 0, k).quoted || !#[trigger] occurs_at(
        c,
        k,
        "(unit "@,
    ) by {
        lemma_no_unit_here(b, new_lib_id, k);
    }
}

#[verifier::spinoff_prover]
#[verifier::rlimit(40)]
proof fn lemma_no_unit_here(b: Seq<char>, new_lib_id: Seq<char>, k: int)
    requires
        is_block(b),
        has_plain_lib_id(b),
        is_plain_text(new_lib_id),
        0 <= k <= first_match(b, 0, b.len() as int, "(lib_id \""@)->0 + 9 + new_lib_id.len(),
    ensures
        run(outside(), with_lib_id(b, new_lib_id), 0, k).quoted || !occurs_at(
            with_lib_id(b, new_lib_id),
            k,
            "(unit "@,
        ),
{
    let pat = "(lib_id \""@;
    let unit = "(unit "@;
    let o = outside();
    let c = with_lib_id(b, new_lib_id);
    if occurs_at(c, k, unit) {
        reveal_strlit("(lib_id \"");
        reveal_strlit("(unit ");
        assert(!new_lib_id.contains('"'));
        lemma_with_lib_id(b, new_lib_id);
        lemma_first_match(b, 0, b.len() as int, pat);
        let m = first_match(b, 0, b.len() as int, pat)->0;
        let old = lib_id_of(b)->0;
        let at = m + 9;
        let end = at + new_lib_id.len();
        let here = c.subrange(k, k + 6);
        assert(here == unit);
        assert(here[0] == c[k] && here[1] == c[k + 1]);
        assert(b.subrange(m, at) == pat);
        if k < m {
            assert(k + 6 <= at);
            assert(b.subrange(k, k + 6) =~= here);
            assert(occurs_at(b, k, unit));
        } else if k < at {
            assert(c[k] == b[k]);
            assert(b.subrange(m, at)[k - m] == b[k]);
            if k == m {
                assert(c[m + 1] == b[m + 1]);
                assert(b.subrange(m, at)[1] == b[m + 1]);
            }
            assert(false);
        } else if k < end {
            lemma_still_a_block(b, new_lib_id);
            assert(b.subrange(0, at) =~= c.subrange(0, at));
            lemma_run_same(o, b, 0, at, c, 0);
            let l = run(o, c, 0, at);
            assert forall|i: int| at <= i < k implies #[trigger] c[i] != '"' && c[i] != '\\' by {
                assert(c[i] == new_lib_id[i - at]);
            }
            lemma_run_letters_in(l, c, at, k);
            lemma_run_split(o, c, 0, at, k);
        } else {
            assert(c[end as int] == b[at + old.len()]);
            assert(false);
        }
    }
}

/// A swap fails exactly where nothing answers, where the symbol has no readable
/// library symbol, or where the new one has not the unit that is asked for.
pub proof fn law_a_swap_succeeds_where_it_can(
    s: Seq<char>,
    reference: Seq<char>,
    new_lib_id: Seq<char>,
    new_unit: Option<u32>,
    unit_count: Option<u32>,
)
    ensures
        swapped(s, reference, new_lib_id, new_unit, unit_count) is Ok <==> {
            &&& answering_block(s, reference) matches Some(n) && lib_id_of(node_text(s, n)) is Some
            &&& new_unit matches Some(unit) ==> {
                let n: int = match unit_count {
                    Some(count) => count as int,
                    None => 1,
                };
                1 <= unit <= n
            }
        },
        answering_block(s, reference) is None ==> swapped(
            s,
            reference,
            new_lib_id,
            new_unit,
            unit_count,
        ) == Err::<Swap, Seq<char>>("Component '"@ + reference + "' not found"@),
{
    lemma_answering_block(s, reference);
    if let Some(n) = answering_block(s, reference) {
        lemma_match_in_block(s, n);
    }
}

// ─── The references of a symbol ──────────────────────────────────────────────

/// Whether a `(path …)` list of a project names the entry.
pub open spec fn path_names(path: Tree, project: Seq<char>, entry: RefEntry) -> bool {
    &&& entry.project == project
    &&& list_name(path) == Some(entry.path)
    &&& tagged_value(path, "reference"@) == Some(entry.reference)
}

proof fn lemma_paths(project: Seq<char>, paths: Seq<Tree>, entry: RefEntry)
    ensures
        path_entries(project, paths).contains(entry) <==> exists|j: int|
            0 <= j < paths.len() && path_names(#[trigger] paths[j], project, entry),
    decreases paths.len(),
{
    if paths.len() > 0 {
        let front = paths.drop_last();
        let last = paths.last();
        let some = path_entries(project, front);
        let all = path_entries(project, paths);
        lemma_paths(project, front, entry);
        if all.contains(entry) {
            let k = choose|k: int| 0 <= k < all.len() && all[k] == entry;
            if k < some.len() {
                assert(some[k] == entry);
                let j = choose|j: int|
                    0 <= j < front.len() && path_names(#[trigger] front[j], project, entry);
                assert(path_names(paths[j], project, entry));
            } else {
                assert(path_names(paths[paths.len() - 1], project, entry));
            }
        }
        if exists|j: int| 0 <= j < paths.len() && path_names(#[trigger] paths[j], project, entry) {
            let j = choose|j: int|
                0 <= j < paths.len() && path_names(#[trigger] paths[j], project, entry);
            if j < front.len() {
                assert(path_names(front[j], project, entry));
                let k = choose|k: int| 0 <= k < some.len() && some[k] == entry;
                assert(all[k] == entry);
            } else {
                assert(all[some.len() as int] == entry);
            }
        }
    }
}

/// Whether a `(project …)` list has a path that names the entry.
pub open spec fn project_names(project: Tree, entry: RefEntry) -> bool {
    list_name(project) == Some(entry.project) && exists|j: int|
        0 <= j < tagged_items(project, "path"@).len() && path_names(
            #[trigger] tagged_items(project, "path"@)[j],
            entry.project,
            entry,
        )
}

proof fn lemma_projects(projects: Seq<Tree>, entry: RefEntry)
    ensures
        project_entries(projects).contains(entry) <==> exists|i: int|
            0 <= i < projects.len() && project_names(#[trigger] projects[i], entry),
    decreases projects.len(),
{
    if projects.len() > 0 {
        let front = projects.drop_last();
        let last = projects.last();
        let some = project_entries(front);
        let all = project_entries(projects);
        lemma_projects(front, entry);
        let own = match list_name(last) {
            Some(project) => path_entries(project, tagged_items(last, "path"@)),
            None => Seq::empty(),
        };
        assert(all =~= some + own);
        if let Some(project) = list_name(last) {
            lemma_paths(project, tagged_items(last, "path"@), entry);
        }
        assert(own.contains(entry) <==> project_names(last, entry));
        if all.contains(entry) {
            let k = choose|k: int| 0 <= k < all.len() && all[k] == entry;
            if k < some.len() {
                assert(some[k] == entry);
                let i = choose|i: int|
                    0 <= i < front.len() && project_names(#[trigger] front[i], entry);
                assert(project_names(projects[i], entry));
            } else {
                assert(own[k - some.len()] == entry);
                assert(project_names(projects[projects.len() - 1], entry));
            }
        }
        if exists|i: int| 0 <= i < projects.len() && project_names(#[trigger] projects[i], entry) {
            let i = choose|i: int|
                0 <= i < projects.len() && project_names(#[trigger] projects[i], entry);
            if i < front.len() {
                assert(project_names(front[i], entry));
                let k = choose|k: int| 0 <= k < some.len() && some[k] == entry;
                assert(all[k] == entry);
            } else {
                let k = choose|k: int| 0 <= k < own.len() && own[k] == entry;
                assert(all[some.len() + k] == entry);
            }
        }
    }
}

/// The references of a symbol are those that its `(instances …)` block names: every
/// path of every project counts, at whatever place it stands, and nothing else.
pub proof fn law_every_path_names_a_reference(b: Seq<char>, tree: Tree, entry: RefEntry)
    requires
        document(b) == Some(tree),
    ensures
        block_entries(b).contains(entry) <==> {
            &&& tagged_item(tree, "instances"@) is Some
            &&& exists|i: int|
                0 <= i < tagged_items(tagged_item(tree, "instances"@)->0, "project"@).len()
                    && project_names(
                    #[trigger] tagged_items(tagged_item(tree, "instances"@)->0, "project"@)[i],
                    entry,
                )
        },
{
    if let Some(instances) = tagged_item(tree, "instances"@) {
        lemma_projects(tagged_items(instances, "project"@), entry);
    }
}

/// What stands behind the tag of a list names it, be it an atom or a text.
pub proof fn law_a_list_is_named_behind_its_tag(tag: Tree, name: Seq<char>, rest: Seq<Tree>)
    ensures
        list_name(Tree::List(seq![tag, Tree::Text(name)] + rest)) == Some(name),
        list_name(Tree::List(seq![tag, Tree::Atom(name)] + rest)) == Some(name),
        list_name(Tree::List(seq![tag])) is None,
        list_name(Tree::List(seq![tag, Tree::List(rest)] + rest)) is None,
{
    assert((seq![tag, Tree::Text(name)] + rest)[1] == Tree::Text(name));
    assert((seq![tag, Tree::Atom(name)] + rest)[1] == Tree::Atom(name));
    assert((seq![tag, Tree::List(rest)] + rest)[1] == Tree::List(rest));
}

/// References are ordered by their project, and within a project by themselves.
pub proof fn law_references_are_ordered_by_project(a: RefEntry, b: RefEntry)
    ensures
        text_less(a.project, b.project) ==> entry_less(a, b),
        a.project == b.project ==> (entry_less(a, b) <==> text_less(a.reference, b.reference)),
        text_less(b.project, a.project) ==> !entry_less(a, b),
{
    if text_less(b.project, a.project) {
        if text_less(a.project, b.project) {
            lemma_less_transitive(a.project, b.project, a.project);
        }
        lemma_less_irreflexive(a.project);
    }
}

/// A swap, with a new unit or without one, tells every other reference that the
/// symbol's instances name, each once, and no reference that they do not.
pub proof fn law_a_swap_tells_what_else_it_affects(
    s: Seq<char>,
    reference: Seq<char>,
    new_lib_id: Seq<char>,
    new_unit: Option<u32>,
    unit_count: Option<u32>,
)
    requires
        swapped(s, reference, new_lib_id, new_unit, unit_count) is Ok,
    ensures
        ({
            let named = block_entries(node_text(s, answering_block(s, reference)->0));
            let told = (swapped(s, reference, new_lib_id, new_unit, unit_count)->Ok_0).also_affects;
            &&& forall|e: RefEntry| #[trigger]
                told.contains(e) ==> named.contains(e) && e.reference != reference
            &&& forall|k: int|
                0 <= k < named.len() && (#[trigger] named[k]).reference != reference ==> exists|
                    j: int,
                |
                    0 <= j < told.len() && (#[trigger] told[j]).project == named[k].project
                        && told[j].reference == named[k].reference
            &&& forall|i: int, j: int|
                0 <= i < j < told.len() ==> (#[trigger] told[i]).project != (
                #[trigger] told[j]).project || told[i].reference != told[j].reference
        }),
{
    let named = block_entries(node_text(s, answering_block(s, reference)->0));
    let told = others(named, reference);
    law_also_affects_lists_every_other_reference(named, reference);
    assert((swapped(s, reference, new_lib_id, new_unit, unit_count)->Ok_0).also_affects == told);
    assert forall|k: int|
        0 <= k < named.len() && (#[trigger] named[k]).reference != reference implies exists|j: int|
        0 <= j < told.len() && (#[trigger] told[j]).project == named[k].project
            && told[j].reference == named[k].reference by {
        let e = choose|e: RefEntry| #[trigger] told.contains(e) && same_entry(e, named[k]);
        let j = choose|j: int| 0 <= j < told.len() && told[j] == e;
        assert(told[j].project == named[k].project);
    }
    assert forall|i: int, j: int| 0 <= i < j < told.len() implies (#[trigger] told[i]).project != (
    #[trigger] told[j]).project || told[i].reference != told[j].reference by {
        assert(entry_less(told[i], told[j]));
        lemma_less_irreflexive(told[i].project);
        lemma_less_irreflexive(told[i].reference);
    }
}

/// A swap that cannot be made says why: nothing answers, the symbol has no library
/// symbol or one that is never closed, or the new one has not the unit.
pub proof fn law_why_a_swap_fails(
    s: Seq<char>,
    reference: Seq<char>,
    new_lib_id: Seq<char>,
    new_unit: Option<u32>,
    unit_count: Option<u32>,
)
    ensures
        match answering_block(s, reference) {
            None => swapped(s, reference, new_lib_id, new_unit, unit_count) == Err::<
                Swap,
                Seq<char>,
            >("Component '"@ + reference + "' not found"@),
            Some(n) => {
                let b = node_text(s, n);
                let done = swapped(s, reference, new_lib_id, new_unit, unit_count);
                if !contains_text(b, "(lib_id \""@) {
                    done == Err::<Swap, Seq<char>>("Could not find lib_id in symbol block"@)
                } else if lib_id_of(b) is None {
                    done == Err::<Swap, Seq<char>>("Malformed lib_id"@)
                } else {
                    match new_unit {
                        None => done is Ok,
                        Some(unit) => match unit_refusal(unit, new_lib_id, unit_count) {
                            None => done is Ok,
                            Some(why) => done == Err::<Swap, Seq<char>>(why),
                        },
                    }
                }
            },
        },
{
    lemma_answering_block(s, reference);
    if let Some(n) = answering_block(s, reference) {
        let b = node_text(s, n);
        let pat = "(lib_id \""@;
        reveal_strlit("(lib_id \"");
        lemma_match_in_block(s, n);
        lemma_first_match(b, 0, b.len() as int, pat);
        if let Some(k) = first_match(b, 0, b.len() as int, pat) {
            assert(occurs_at(b, k, pat));
        } else if contains_text(b, pat) {
            let k = choose|k: int| #[trigger] occurs_at(b, k, pat);
            assert(occurs_at(b, k, pat));
        }
    }
}

/// A swap with a new unit is the swap without one, and the unit set on top of it:
/// the library symbol is written either way, and the same is told.
pub proof fn law_a_unit_is_set_on_top_of_the_swap(
    s: Seq<char>,
    reference: Seq<char>,
    new_lib_id: Seq<char>,
    unit: u32,
    unit_count: Option<u32>,
)
    requires
        swapped(s, reference, new_lib_id, Some(unit), unit_count) is Ok,
    ensures
        swapped(s, reference, new_lib_id, None, unit_count) is Ok,
        ({
            let plain = swapped(s, reference, new_lib_id, None, unit_count)->Ok_0;
            let done = swapped(s, reference, new_lib_id, Some(unit), unit_count)->Ok_0;
            &&& done.content == with_unit(plain.content, reference, unit)
            &&& done.old_lib_id == plain.old_lib_id
            &&& done.also_affects == plain.also_affects
        }),
{
}

/// Setting the unit changes the numbers of the `(unit N)` lists in the block of the
/// symbol that answers, and nothing else. Where none answers, nothing changes.
pub proof fn law_setting_the_unit_changes_numbers_alone(
    s: Seq<char>,
    reference: Seq<char>,
    unit: u32,
) -> (parts: (Seq<Seq<char>>, Seq<Seq<char>>))
    ensures
        answering_block(s, reference) is None ==> with_unit(s, reference, unit) == s,
        answering_block(s, reference) matches Some(n) ==> {
            &&& parts_at_units(parts.0, parts.1)
            &&& node_text(s, n) == woven(parts.0, parts.1)
            &&& with_unit(s, reference, unit) == s.take(n.start) + woven(
                parts.0,
                repeated(decimal(unit as nat), parts.1.len()),
            ) + s.skip(n.end + 1)
        },
{
    match answering_block(s, reference) {
        None => (Seq::empty(), Seq::empty()),
        Some(n) => {
            lemma_answering_block(s, reference);
            lemma_units_are_woven(s, outside(), n.start, n.end + 1, decimal(unit as nat))
        },
    }
}

} // verus!
