//! What finding and identifying symbols promises as a whole.

use crate::edit_laws::lemma_none_showing;
use crate::scan::{node_text, nodes_in, tag_at, Node};
use crate::scan_laws::{law_those_with_a_tag_are_picked};
use crate::sexp::{document, tagged_value};
use crate::symbols::{
    block_id, block_ids, instance_block, instance_blocks, instance_entry, item_id, item_ids,
    property_marker, reference_property, showing, shows, symbols, ItemError,
};
use crate::text::contains_text;
use vstd::prelude::*;

verus! {

/// A property starts with its name and the quote before its value; the `Reference`
/// property and an entry of the instances path hold the reference between quotes.
pub proof fn law_how_properties_are_written(field: Seq<char>, reference: Seq<char>)
    ensures
        property_marker(field) == "(property \""@ + field + "\" \""@,
        reference_property(reference) == "(property \"Reference\" \""@ + reference + "\""@,
        instance_entry(reference) == "(reference \""@ + reference + "\")"@,
{
    reveal_strlit("(property \"");
    reveal_strlit("Reference");
    reveal_strlit("\" \"");
    reveal_strlit("(property \"Reference\" \"");
    assert(property_marker("Reference"@) =~= "(property \"Reference\" \""@);
}

proof fn lemma_shown_one_by_one(s: Seq<char>, ns: Seq<Node>, reference: Seq<char>)
    ensures
        showing(s, ns, reference) == ns.filter(|n: Node| shows(node_text(s, n), reference)),
    decreases ns.len(),
{
    reveal(Seq::filter);
    if ns.len() > 0 {
        lemma_shown_one_by_one(s, ns.drop_last(), reference);
    }
}

/// The placements of a reference are all symbols whose block holds its `Reference`
/// property, in the order of the schematic.
pub proof fn law_every_placement_is_found(s: Seq<char>, reference: Seq<char>)
    ensures
        instance_blocks(s, reference) == symbols(s).filter(
            |n: Node|
                contains_text(
                    node_text(s, n),
                    "(property \"Reference\" \""@ + reference + "\""@,
                ),
        ),
{
    law_how_properties_are_written(Seq::empty(), reference);
    lemma_shown_one_by_one(s, symbols(s), reference);
    let p = |n: Node| shows(node_text(s, n), reference);
    let q = |n: Node|
        contains_text(node_text(s, n), "(property \"Reference\" \""@ + reference + "\""@);
    assert(p =~= q);
}

/// The first of the symbols that show a reference stands for it.
pub proof fn law_the_first_placement_counts(s: Seq<char>, reference: Seq<char>, j: int)
    requires
        0 <= j < symbols(s).len(),
        contains_text(
            node_text(s, symbols(s)[j]),
            "(property \"Reference\" \""@ + reference + "\""@,
        ),
        forall|i: int|
            0 <= i < j ==> !contains_text(
                node_text(s, #[trigger] symbols(s)[i]),
                "(property \"Reference\" \""@ + reference + "\""@,
            ),
    ensures
        instance_block(s, reference) == Some(symbols(s)[j]),
{
    law_how_properties_are_written(Seq::empty(), reference);
    let ns = symbols(s);
    assert forall|i: int| 0 <= i < j implies !shows(node_text(s, #[trigger] ns[i]), reference) by {
        assert(!contains_text(
            node_text(s, ns[i]),
            "(property \"Reference\" \""@ + reference + "\""@,
        ));
    }
    lemma_first_placement(s, ns, reference, j);
}

proof fn lemma_first_placement(s: Seq<char>, ns: Seq<Node>, reference: Seq<char>, j: int)
    requires
        0 <= j < ns.len(),
        shows(node_text(s, ns[j]), reference),
        forall|i: int| 0 <= i < j ==> !shows(node_text(s, #[trigger] ns[i]), reference),
    ensures
        showing(s, ns, reference).len() > 0,
        showing(s, ns, reference)[0] == ns[j],
    decreases ns.len(),
{
    let front = ns.drop_last();
    assert forall|i: int| 0 <= i < j && i < front.len() implies !shows(
        node_text(s, #[trigger] front[i]),
        reference,
    ) by {
        assert(front[i] == ns[i]);
    }
    if j < ns.len() - 1 {
        assert(front[j] == ns[j]);
        lemma_first_placement(s, front, reference, j);
    } else {
        lemma_none_showing(s, front, reference);
    }
}

/// A symbol is identified by what stands behind the first `uuid` of its block; each
/// way in which it cannot be is told apart.
pub proof fn law_a_symbol_is_known_by_its_uuid(s: Seq<char>, reference: Seq<char>)
    ensures
        item_id(s, reference) == Err::<Seq<char>, ItemError>(ItemError::NotFound)
            <==> instance_block(s, reference) is None,
        instance_block(s, reference) matches Some(n) ==> {
            &&& item_id(s, reference) == Err::<Seq<char>, ItemError>(ItemError::Malformed)
                <==> document(node_text(s, n)) is None
            &&& document(node_text(s, n)) matches Some(tree) ==> {
                &&& item_id(s, reference) == Err::<Seq<char>, ItemError>(ItemError::NoUuid)
                    <==> tagged_value(tree, "uuid"@) is None
                &&& forall|id: Seq<char>|
                    item_id(s, reference) == Ok::<Seq<char>, ItemError>(id)
                        <==> #[trigger] tagged_value(tree, "uuid"@) == Some(id)
            }
        },
{
}

/// Every placement of a reference is identified: the list has one UUID for each, in
/// order, where all of them have one. Where some has none, the first such says why.
pub proof fn law_every_placement_is_identified(s: Seq<char>, reference: Seq<char>)
    ensures
        ({
            let blocks = instance_blocks(s, reference);
            &&& blocks.len() == 0 ==> item_ids(s, reference) == Err::<Seq<Seq<char>>, ItemError>(
                ItemError::NotFound,
            )
            &&& item_ids(s, reference) is Ok <==> blocks.len() > 0 && forall|k: int|
                0 <= k < blocks.len() ==> block_id(node_text(s, #[trigger] blocks[k])) is Ok
            &&& item_ids(s, reference) matches Ok(ids) ==> {
                &&& ids.len() == blocks.len()
                &&& forall|k: int|
                    0 <= k < blocks.len() ==> block_id(node_text(s, #[trigger] blocks[k])) == Ok::<
                        Seq<char>,
                        ItemError,
                    >(ids[k])
            }
            &&& forall|k: int|
                0 <= k < blocks.len() && block_id(node_text(s, #[trigger] blocks[k])) is Err && (
                forall|i: int|
                    0 <= i < k ==> block_id(node_text(s, #[trigger] blocks[i])) is Ok)
                    ==> item_ids(s, reference) == Err::<Seq<Seq<char>>, ItemError>(
                    block_id(node_text(s, blocks[k]))->Err_0,
                )
        }),
{
    let blocks = instance_blocks(s, reference);
    lemma_ids(s, blocks);
    assert forall|k: int|
        0 <= k < blocks.len() && block_id(node_text(s, #[trigger] blocks[k])) is Err && (forall|
            i: int,
        |
            0 <= i < k ==> block_id(node_text(s, #[trigger] blocks[i])) is Ok) implies item_ids(
        s,
        reference,
    ) == Err::<Seq<Seq<char>>, ItemError>(block_id(node_text(s, blocks[k]))->Err_0) by {
        lemma_first_unidentified(s, blocks, k);
    }
}

proof fn lemma_ids(s: Seq<char>, ns: Seq<Node>)
    ensures
        block_ids(s, ns) is Ok <==> forall|k: int|
            0 <= k < ns.len() ==> block_id(node_text(s, #[trigger] ns[k])) is Ok,
        block_ids(s, ns) matches Ok(ids) ==> {
            &&& ids.len() == ns.len()
            &&& forall|k: int|
                0 <= k < ns.len() ==> block_id(node_text(s, #[trigger] ns[k])) == Ok::<
                    Seq<char>,
                    ItemError,
                >(ids[k])
        },
    decreases ns.len(),
{
    if ns.len() > 0 {
        let front = ns.drop_last();
        lemma_ids(s, front);
        assert forall|k: int| 0 <= k < front.len() implies #[trigger] front[k] == ns[k] by {}
        if block_ids(s, ns) is Ok {
            let ids = block_ids(s, ns)->Ok_0;
            let some = block_ids(s, front)->Ok_0;
            assert forall|k: int| 0 <= k < ns.len() implies block_id(
                node_text(s, #[trigger] ns[k]),
            ) == Ok::<Seq<char>, ItemError>(ids[k]) by {
                if k < front.len() {
                    assert(front[k] == ns[k]);
                    assert(ids[k] == some[k]);
                }
            }
        } else if forall|k: int|
            0 <= k < ns.len() ==> block_id(node_text(s, #[trigger] ns[k])) is Ok {
            assert(block_id(node_text(s, ns[ns.len() - 1])) is Ok);
            assert forall|k: int| 0 <= k < front.len() implies block_id(
                node_text(s, #[trigger] front[k]),
            ) is Ok by {
                assert(block_id(node_text(s, ns[k])) is Ok);
            }
        }
    }
}

proof fn lemma_first_unidentified(s: Seq<char>, ns: Seq<Node>, k: int)
    requires
        0 <= k < ns.len(),
        block_id(node_text(s, ns[k])) is Err,
        forall|i: int| 0 <= i < k ==> block_id(node_text(s, #[trigger] ns[i])) is Ok,
    ensures
        block_ids(s, ns) == Err::<Seq<Seq<char>>, ItemError>(block_id(node_text(s, ns[k]))->Err_0),
    decreases ns.len(),
{
    let front = ns.drop_last();
    assert forall|i: int| 0 <= i < k && i < front.len() implies block_id(
        node_text(s, #[trigger] front[i]),
    ) is Ok by {
        assert(front[i] == ns[i]);
    }
    if k < ns.len() - 1 {
        assert(front[k] == ns[k]);
        lemma_first_unidentified(s, front, k);
    } else {
        lemma_ids(s, front);
    }
}

/// The symbols of a schematic are the lists directly in it with that tag, all of
/// them and in order.
pub proof fn law_symbols_are_lists_of_the_schematic(s: Seq<char>)
    ensures
        symbols(s) == nodes_in(s, 0, s.len() as int, 1).filter(
            |n: Node| tag_at(s, n.start) == "symbol"@,
        ),
{
    law_those_with_a_tag_are_picked(s, nodes_in(s, 0, s.len() as int, 1), "symbol"@);
}

} // verus!
