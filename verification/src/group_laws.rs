//! What a grouping promises as a whole.

use crate::annotation::{annotated, grouping, note_property, property_place, GroupState};
use crate::edit_laws::{
    carries, grown, lemma_annotated, lemma_first_showing, lemma_grown_keeps, lemma_instance_index,
    lemma_laid_out_distinct, lemma_marker, lemma_none_showing, lemma_reference_before_close,
    lemma_reference_before_open,
};
use crate::rename_laws::{lemma_markers_differ, lemma_shown_opens};
use crate::scan::node_text;
use crate::structure::{is_block, is_flat, is_plain_text};
use crate::symbols::{
    instance_block, item_id, lemma_symbols, property_marker, reference_property, shows, symbols,
    ItemError,
};
use crate::text::occurs_at;
use vstd::prelude::*;

verus! {

/// In what ends a note no list opens that could be a property.
proof fn lemma_note_end()
    ensures
        ({
            let tail =
                "\"\n      (at 0 0 0)\n      (effects (font (size 1.27 1.27)) (hide yes))\n    )\n    "@;
            &&& tail.len() > 20
            &&& tail[0] == '"'
            &&& forall|k: int| 0 < k < tail.len() ==> #[trigger] tail[k] != '"'
            &&& forall|k: int|
                0 <= k < tail.len() && #[trigger] tail[k] == '(' ==> k + 1 < tail.len() && tail[k
                    + 1] != 'p'
        }),
{
    reveal_strlit(
        "\"\n      (at 0 0 0)\n      (effects (font (size 1.27 1.27)) (hide yes))\n    )\n    ",
    );
}

/// A note shows no designator.
proof fn lemma_note_shows_nothing(
    b: Seq<char>,
    p: int,
    key: Seq<char>,
    value: Seq<char>,
    reference: Seq<char>,
    k: int,
)
    requires
        0 <= p <= b.len(),
        is_flat(key),
        is_plain_text(key),
        key != "Reference"@,
        is_plain_text(value),
        is_flat(reference),
        occurs_at(grown(b, p, note_property(key, value)), k, reference_property(reference)),
    ensures
        k + reference_property(reference).len() <= p || k >= p + note_property(key, value).len(),
{
    let v = note_property(key, value);
    let c = grown(b, p, v);
    let q = reference_property(reference);
    let m = property_marker("Reference"@);
    let tail =
        "\"\n      (at 0 0 0)\n      (effects (font (size 1.27 1.27)) (hide yes))\n    )\n    "@;
    let f = key.len() as int;
    let w = v.len() as int;
    let at = 18 + f;
    let end = at + value.len() as int;
    lemma_note_end();
    lemma_shown_opens(reference);
    lemma_marker("Reference"@);
    reveal_strlit("Reference");
    reveal_strlit("    (property \"");
    reveal_strlit("\" \"");
    reveal_strlit("\"");
    assert(w == end + tail.len());
    let here = c.subrange(k, k + q.len());
    assert(here == q);
    assert forall|i: int| 0 <= i < q.len() implies q[i] == #[trigger] c[k + i] by {
        assert(here[i] == c[k + i]);
    }
    assert(q[10] == m[10] && q[11] == m[11]);
    assert(m[11] == m.subrange(11, 20)[0]);
    assert forall|i: int| 0 <= i < w implies #[trigger] v[i] == c[p + i] by {}
    assert forall|i: int| at <= i < end implies #[trigger] v[i] == value[i - at] by {}
    assert forall|i: int| end <= i < w implies #[trigger] v[i] == tail[i - end] by {}
    if k < p && k + q.len() > p {
        if k + q.len() <= p + 4 {
            let last = q.len() - 1;
            assert(q[last] == '"');
            assert(c[k + last] == v[k + last - p]);
            assert(false);
        } else {
            assert(c[k + (p + 4 - k)] == v[4]);
            assert(v[4] == '(');
            assert(q[p + 4 - k] == '(');
            assert(false);
        }
    } else if p <= k < p + w {
        let i = k - p;
        assert(q[0] == c[k + 0]);
        assert(q[1] == c[k + 1]);
        assert(v[i] == '(');
        if i == 4 {
            let differ = lemma_markers_differ("Reference"@, key);
            let own = property_marker(key);
            lemma_marker(key);
            reveal_strlit("(property \"");
            assert(own[differ] == v[4 + differ]);
            assert(q[differ] == c[k + differ]);
            assert(q[differ] == m[differ]);
            assert(false);
        } else if i < 15 {
            assert(v[i] == "    (property \""@[i]);
            assert(false);
        } else if i < 15 + f {
            assert(v[i] == key[i - 15]);
            assert(false);
        } else if i < at {
            assert(v[i] == "\" \""@[i - 15 - f]);
            assert(false);
        } else if i < end {
            assert(q[10] == c[k + 10]);
            assert(c[k + 10] == v[i + 10]);
            if i + 10 < end {
                assert(v[i + 10] == value[i + 10 - at]);
                assert(false);
            } else if i + 10 > end {
                assert(v[i + 10] == tail[i + 10 - end]);
                assert(false);
            } else {
                assert(q[11] == c[k + 11]);
                assert(c[k + 11] == v[i + 11]);
                assert(v[i + 11] == tail[1]);
                reveal_strlit(
                    "\"\n      (at 0 0 0)\n      (effects (font (size 1.27 1.27)) (hide yes))\n    )\n    ",
                );
                assert(false);
            }
        } else {
            assert(v[i] == tail[i - end]);
            assert(c[k + 1] == v[i + 1]);
            assert(v[i + 1] == tail[i + 1 - end]);
            assert(false);
        }
    }
}

/// A note that was added leaves what its block shows.
proof fn lemma_note_keeps_shown(
    b: Seq<char>,
    p: int,
    key: Seq<char>,
    value: Seq<char>,
    reference: Seq<char>,
)
    requires
        is_block(b),
        0 < p < b.len(),
        b[p] == '(' || p == b.len() - 1,
        is_flat(key),
        is_plain_text(key),
        key != "Reference"@,
        is_plain_text(value),
        is_flat(reference),
    ensures
        shows(grown(b, p, note_property(key, value)), reference) == shows(b, reference),
{
    let v = note_property(key, value);
    let c = grown(b, p, v);
    let q = reference_property(reference);
    if b[p] == '(' {
        lemma_reference_before_open(b, reference, p);
    } else {
        lemma_reference_before_close(b, reference);
    }
    if shows(b, reference) {
        lemma_grown_keeps(b, p, v, q);
    }
    if shows(c, reference) {
        let k = choose|k: int| #[trigger] occurs_at(c, k, q);
        assert(occurs_at(c, k, q));
        lemma_note_shows_nothing(b, p, key, value, reference, k);
        if k + q.len() <= p {
            assert(b.subrange(k, k + q.len()) =~= c.subrange(k, k + q.len()));
            assert(occurs_at(b, k, q));
        } else {
            let i = k - v.len();
            assert(b.subrange(i, i + q.len()) =~= c.subrange(k, k + q.len()));
            assert(occurs_at(b, i, q));
        }
    }
}

/// Whether `t` has the symbols of `s`, each showing what it showed.
spec fn shows_the_same(s: Seq<char>, t: Seq<char>) -> bool {
    &&& symbols(t).len() == symbols(s).len()
    &&& forall|k: int, r: Seq<char>|
        0 <= k < symbols(s).len() && is_flat(r) ==> #[trigger] shows(
            node_text(t, symbols(t)[k]),
            r,
        ) == shows(node_text(s, symbols(s)[k]), r)
}

/// Where each symbol shows what it showed, a reference stands for the symbol that it
/// stood for.
proof fn lemma_same_symbol(s: Seq<char>, t: Seq<char>, reference: Seq<char>)
    requires
        shows_the_same(s, t),
        is_flat(reference),
    ensures
        instance_block(s, reference) is Some <==> instance_block(t, reference) is Some,
        forall|j: int|
            0 <= j < symbols(s).len() && instance_block(s, reference) == Some(
                #[trigger] symbols(s)[j],
            ) ==> instance_block(t, reference) == Some(symbols(t)[j]),
{
    lemma_none_showing(s, symbols(s), reference);
    lemma_none_showing(t, symbols(t), reference);
    lemma_symbols(s);
    assert forall|i: int| 0 <= i < symbols(s).len() implies shows(
        node_text(t, #[trigger] symbols(t)[i]),
        reference,
    ) == shows(node_text(s, symbols(s)[i]), reference) by {
        assert(shows(node_text(t, symbols(t)[i]), reference) == shows(
            node_text(s, symbols(s)[i]),
            reference,
        ));
    }
    assert forall|i: int| 0 <= i < symbols(s).len() implies shows(
        node_text(s, #[trigger] symbols(s)[i]),
        reference,
    ) == shows(node_text(t, symbols(t)[i]), reference) by {
        assert(symbols(t)[i] == symbols(t)[i]);
        assert(shows(node_text(t, symbols(t)[i]), reference) == shows(
            node_text(s, symbols(s)[i]),
            reference,
        ));
    }
    if instance_block(s, reference) is Some {
        let j = lemma_instance_index(s, reference);
        assert(shows(node_text(t, symbols(t)[j]), reference));
        assert forall|i: int| 0 <= i < j implies !shows(
            node_text(t, #[trigger] symbols(t)[i]),
            reference,
        ) by {
            assert(!shows(node_text(s, symbols(s)[i]), reference));
        }
        lemma_first_showing(t, symbols(t), reference, j);
        assert forall|h: int|
            0 <= h < symbols(s).len() && instance_block(s, reference) == Some(
                #[trigger] symbols(s)[h],
            ) implies instance_block(t, reference) == Some(symbols(t)[h]) by {
            if h != j {
                lemma_laid_out_distinct(symbols(s), 0, s.len() as int, h, j);
            }
        }
    }
}

/// Whether the symbol that `reference` stands for carries the group.
pub open spec fn in_group(s: Seq<char>, reference: Seq<char>, group_name: Seq<char>) -> bool {
    instance_block(s, reference) matches Some(n) && carries(
        node_text(s, n),
        "Group"@,
        group_name,
    )
}

/// What holds of a grouping: every symbol shows what it showed, what was asked for
/// and is there is listed in order, its symbols carry the group, and the others are
/// as they were.
spec fn is_grouped(
    expected: Seq<char>,
    refs: Seq<Seq<char>>,
    group_name: Seq<char>,
    content: Seq<char>,
) -> bool {
    &&& shows_the_same(expected, content)
    &&& forall|k: int|
        0 <= k < refs.len() && instance_block(expected, #[trigger] refs[k]) is Some
            ==> in_group(content, refs[k], group_name)
    &&& forall|j: int|
        0 <= j < symbols(expected).len() && (forall|k: int|
            0 <= k < refs.len() ==> instance_block(expected, #[trigger] refs[k]) != Some(
                symbols(expected)[j],
            )) ==> node_text(content, #[trigger] symbols(content)[j]) == node_text(
            expected,
            symbols(expected)[j],
        )
}

proof fn lemma_group_is_flat()
    ensures
        is_flat("Group"@),
        is_plain_text("Group"@),
        "Group"@ != "Reference"@,
{
    reveal_strlit("Group");
    reveal_strlit("Reference");
    assert("Group"@.len() == 5 && "Reference"@.len() == 9);
}

/// One more reference.
proof fn lemma_one_more(
    expected: Seq<char>,
    refs: Seq<Seq<char>>,
    group_name: Seq<char>,
    content: Seq<char>,
)
    requires
        refs.len() > 0,
        forall|k: int| 0 <= k < refs.len() ==> is_flat(#[trigger] refs[k]),
        is_plain_text(group_name),
        is_grouped(expected, refs.drop_last(), group_name, content),
        instance_block(expected, refs.last()) is Some,
    ensures
        annotated(content, refs.last(), "Group"@, group_name) matches Some(t)
            && is_grouped(expected, refs, group_name, t),
{
    let front = refs.drop_last();
    let r = refs.last();
    let key = "Group"@;
    assert(is_flat(refs[refs.len() - 1]));
    lemma_group_is_flat();
    lemma_same_symbol(expected, content, r);
    lemma_annotated(content, r, key, group_name);
    let n = instance_block(content, r)->0;
    let b = node_text(content, n);
    let p = property_place(b);
    let v = note_property(key, group_name);
    let c = grown(b, p, v);
    let t = annotated(content, r, key, group_name)->0;
    let cs = symbols(content);
    let ts = symbols(t);
    assert forall|k: int, q: Seq<char>| 0 <= k < cs.len() && is_flat(q) implies #[trigger] shows(
        node_text(t, ts[k]),
        q,
    ) == shows(node_text(content, cs[k]), q) by {
        assert(node_text(t, ts[k]) == if cs[k] == n {
            c
        } else {
            node_text(content, cs[k])
        });
        lemma_note_keeps_shown(b, p, key, group_name, q);
    }
    assert(shows_the_same(content, t));
    assert forall|k: int, q: Seq<char>|
        0 <= k < symbols(expected).len() && is_flat(q) implies #[trigger] shows(
        node_text(t, ts[k]),
        q,
    ) == shows(node_text(expected, symbols(expected)[k]), q) by {
        assert(shows(node_text(t, ts[k]), q) == shows(node_text(content, cs[k]), q));
    }
    assert(shows_the_same(expected, t));
    assert forall|k: int|
        0 <= k < refs.len() && instance_block(expected, #[trigger] refs[k]) is Some implies
        in_group(t, refs[k], group_name) by {
        let q = refs[k];
        lemma_same_symbol(expected, content, q);
        lemma_same_symbol(content, t, q);
        let j = lemma_instance_index(content, q);
        assert(instance_block(t, q) == Some(ts[j]));
        if cs[j] == n {
            assert(node_text(t, ts[j]) == c);
        } else {
            assert(node_text(t, ts[j]) == node_text(content, cs[j]));
            if k == refs.len() - 1 {
                assert(false);
            }
            assert(front[k] == q);
        }
    }
    assert forall|j: int|
        0 <= j < symbols(expected).len() && (forall|k: int|
            0 <= k < refs.len() ==> instance_block(expected, #[trigger] refs[k]) != Some(
                symbols(expected)[j],
            )) implies node_text(t, #[trigger] ts[j]) == node_text(
        expected,
        symbols(expected)[j],
    ) by {
        assert forall|k: int| 0 <= k < front.len() implies instance_block(
            expected,
            #[trigger] front[k],
        ) != Some(symbols(expected)[j]) by {
            assert(front[k] == refs[k]);
        }
        assert(node_text(content, cs[j]) == node_text(expected, symbols(expected)[j]));
        let h = lemma_instance_index(expected, r);
        assert(instance_block(content, r) == Some(cs[h]));
        assert(instance_block(expected, refs[refs.len() - 1]) != Some(symbols(expected)[j]));
        lemma_symbols(content);
        lemma_laid_out_distinct(cs, 0, content.len() as int, h, j);
    }
}

proof fn lemma_grouping(
    expected: Seq<char>,
    refs: Seq<Seq<char>>,
    group_name: Seq<char>,
)
    requires
        grouping(expected, refs, group_name) is Ok,
        forall|k: int| 0 <= k < refs.len() ==> is_flat(#[trigger] refs[k]),
        is_plain_text(group_name),
    ensures
        ({
            let done = grouping(expected, refs, group_name)->Ok_0;
            let content = done.content;
            &&& done.grouped == refs.filter(|r: Seq<char>| instance_block(expected, r) is Some)
            &&& done.item_ids.len() == done.grouped.len()
            &&& forall|k: int|
                0 <= k < done.grouped.len() ==> item_id(expected, #[trigger] done.grouped[k])
                    == Ok::<Seq<char>, ItemError>(done.item_ids[k])
            &&& forall|k: int|
                0 <= k < refs.len() && instance_block(expected, #[trigger] refs[k]) is Some
                    ==> in_group(content, refs[k], group_name)
            &&& symbols(content).len() == symbols(expected).len()
            &&& forall|j: int|
                0 <= j < symbols(expected).len() && (forall|k: int|
                    0 <= k < refs.len() ==> instance_block(expected, #[trigger] refs[k]) != Some(
                        symbols(expected)[j],
                    )) ==> node_text(content, #[trigger] symbols(content)[j]) == node_text(
                    expected,
                    symbols(expected)[j],
                )
        }),
        is_grouped(expected, refs, group_name, (grouping(expected, refs, group_name)->Ok_0).content),
    decreases refs.len(),
{
    let there = |r: Seq<char>| instance_block(expected, r) is Some;
    reveal(Seq::filter);
    if refs.len() > 0 {
        let front = refs.drop_last();
        let last = refs.last();
        assert forall|k: int| 0 <= k < front.len() implies is_flat(#[trigger] front[k]) by {
            assert(front[k] == refs[k]);
        }
        lemma_grouping(expected, front, group_name);
        let before = grouping(expected, front, group_name)->Ok_0;
        let done = grouping(expected, refs, group_name)->Ok_0;
        assert(is_flat(refs[refs.len() - 1]));
        lemma_same_symbol(expected, before.content, last);
        if there(last) {
            lemma_one_more(expected, refs, group_name, before.content);
            assert(is_grouped(expected, refs, group_name, done.content));
            assert forall|k: int| 0 <= k < done.grouped.len() implies item_id(
                expected,
                #[trigger] done.grouped[k],
            ) == Ok::<Seq<char>, ItemError>(done.item_ids[k]) by {
                if k < before.grouped.len() {
                    assert(before.grouped[k] == done.grouped[k]);
                    assert(before.item_ids[k] == done.item_ids[k]);
                }
            }
        } else {
            assert(done == before);
            assert(is_grouped(expected, refs, group_name, done.content)) by {
                assert forall|k: int|
                    0 <= k < refs.len() && instance_block(expected, #[trigger] refs[k]) is Some
                    implies in_group(done.content, refs[k], group_name) by {
                    assert(k < front.len());
                    assert(front[k] == refs[k]);
                }
                assert forall|j: int|
                    0 <= j < symbols(expected).len() && (forall|k: int|
                        0 <= k < refs.len() ==> instance_block(expected, #[trigger] refs[k])
                            != Some(symbols(expected)[j])) implies node_text(
                    done.content,
                    #[trigger] symbols(done.content)[j],
                ) == node_text(expected, symbols(expected)[j]) by {
                    assert forall|k: int| 0 <= k < front.len() implies instance_block(
                        expected,
                        #[trigger] front[k],
                    ) != Some(symbols(expected)[j]) by {
                        assert(front[k] == refs[k]);
                    }
                }
            }
        }
    }
}

/// A grouping that succeeds groups everything that was asked for and is there:
/// exactly the references that some symbol shows are listed, in the order asked, and
/// afterwards the symbol of each carries a `Group` property with the group's name.
/// Only references that no symbol shows are passed over. Each listed reference comes
/// with the UUID of its symbol, and symbols that were not asked for stay as they are.
pub proof fn law_a_grouping_groups_all_that_is_there(
    expected: Seq<char>,
    refs: Seq<Seq<char>>,
    group_name: Seq<char>,
)
    requires
        grouping(expected, refs, group_name) is Ok,
        forall|k: int| 0 <= k < refs.len() ==> is_flat(#[trigger] refs[k]),
        is_plain_text(group_name),
    ensures
        ({
            let done = grouping(expected, refs, group_name)->Ok_0;
            let content = done.content;
            &&& done.grouped == refs.filter(|r: Seq<char>| instance_block(expected, r) is Some)
            &&& done.item_ids.len() == done.grouped.len()
            &&& forall|k: int|
                0 <= k < done.grouped.len() ==> item_id(expected, #[trigger] done.grouped[k])
                    == Ok::<Seq<char>, ItemError>(done.item_ids[k])
            &&& forall|k: int|
                0 <= k < refs.len() && instance_block(expected, #[trigger] refs[k]) is Some
                    ==> in_group(content, refs[k], group_name)
            &&& symbols(content).len() == symbols(expected).len()
            &&& forall|j: int|
                0 <= j < symbols(expected).len() && (forall|k: int|
                    0 <= k < refs.len() ==> instance_block(expected, #[trigger] refs[k]) != Some(
                        symbols(expected)[j],
                    )) ==> node_text(content, #[trigger] symbols(content)[j]) == node_text(
                    expected,
                    symbols(expected)[j],
                )
        }),
{
    lemma_grouping(expected, refs, group_name);
}

/// A grouping fails exactly where some reference that is there stands for a symbol
/// that cannot be identified, and says which one and why.
pub proof fn law_a_grouping_fails_on_unidentified_symbols(
    expected: Seq<char>,
    refs: Seq<Seq<char>>,
    group_name: Seq<char>,
)
    requires
        forall|k: int| 0 <= k < refs.len() ==> is_flat(#[trigger] refs[k]),
        is_plain_text(group_name),
    ensures
        grouping(expected, refs, group_name) is Ok <==> forall|k: int|
            0 <= k < refs.len() && instance_block(expected, #[trigger] refs[k]) is Some
                ==> item_id(expected, refs[k]) is Ok,
        grouping(expected, refs, group_name) matches Err(e) ==> refs.contains(e.0) && item_id(
            expected,
            e.0,
        ) == Err::<Seq<char>, ItemError>(e.1) && instance_block(expected, e.0) is Some,
    decreases refs.len(),
{
    if refs.len() > 0 {
        let front = refs.drop_last();
        let last = refs.last();
        assert forall|k: int| 0 <= k < front.len() implies is_flat(#[trigger] front[k]) by {
            assert(front[k] == refs[k]);
        }
        law_a_grouping_fails_on_unidentified_symbols(expected, front, group_name);
        assert(is_flat(refs[refs.len() - 1]));
        match grouping(expected, front, group_name) {
            Ok(before) => {
                lemma_grouping(expected, front, group_name);
                lemma_same_symbol(expected, before.content, last);
                assert(refs.contains(refs[refs.len() - 1]));
                assert forall|k: int| 0 <= k < front.len() implies refs[k] == front[k] by {}
                if grouping(expected, refs, group_name) is Ok {
                    assert forall|k: int|
                        0 <= k < refs.len() && instance_block(expected, #[trigger] refs[k]) is Some
                        implies item_id(expected, refs[k]) is Ok by {
                        if k < front.len() {
                            assert(front[k] == refs[k]);
                        }
                    }
                } else {
                    assert(instance_block(expected, refs[refs.len() - 1]) is Some);
                }
            },
            Err(e) => {
                let k = choose|k: int| 0 <= k < front.len() && front[k] == e.0;
                assert(refs[k] == e.0);
            },
        }
    }
}

/// References are grouped one by one, in the order asked, whatever they hold. One
/// more is passed over where no symbol shows it; else its symbol gets the property,
/// in the content as it is by then, and is listed with the UUID that it had.
pub proof fn law_references_are_grouped_one_by_one(
    expected: Seq<char>,
    refs: Seq<Seq<char>>,
    reference: Seq<char>,
    group_name: Seq<char>,
)
    ensures
        grouping(expected, Seq::<Seq<char>>::empty(), group_name) matches Ok(state) ==> {
            &&& state.content == expected
            &&& state.grouped.len() == 0
            &&& state.item_ids.len() == 0
        },
        grouping(expected, Seq::<Seq<char>>::empty(), group_name) is Ok,
        grouping(expected, refs, group_name) is Err ==> grouping(
            expected,
            refs.push(reference),
            group_name,
        ) == grouping(expected, refs, group_name),
        grouping(expected, refs, group_name) matches Ok(before) ==> {
            let after = grouping(expected, refs.push(reference), group_name);
            if instance_block(before.content, reference) is None {
                after == grouping(expected, refs, group_name)
            } else {
                match item_id(expected, reference) {
                    Err(e) => after == Err::<GroupState, (Seq<char>, ItemError)>((reference, e)),
                    Ok(id) => {
                        &&& after is Ok
                        &&& (after->Ok_0).grouped == before.grouped.push(reference)
                        &&& (after->Ok_0).item_ids == before.item_ids.push(id)
                        &&& annotated(before.content, reference, "Group"@, group_name) == Some(
                            (after->Ok_0).content,
                        )
                    },
                }
            }
        },
{
    assert(refs.push(reference).drop_last() =~= refs);
}

} // verus!
