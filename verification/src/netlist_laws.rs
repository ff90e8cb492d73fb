//! What reading a netlist promises, item by item.

use crate::netlist::{components, names_in, net_label, pads_in, refs_in, wiring, with_nodes};
use crate::sexp::{is_tagged, tagged_item, tagged_items, tagged_value, Tree};
use vstd::prelude::*;

verus! {

// ─── Looking into a tree ─────────────────────────────────────────────────────

/// The lists with a tag are picked one by one, in order: those of a list are those
/// of its front, and then its last item if that is one. Nothing is in an atom or
/// a text.
pub proof fn law_tagged_items_are_picked_one_by_one(items: Seq<Tree>, tag: Seq<char>)
    ensures
        items.len() == 0 ==> tagged_items(Tree::List(items), tag).len() == 0,
        items.len() > 0 ==> ({
            let front = tagged_items(Tree::List(items.drop_last()), tag);
            tagged_items(Tree::List(items), tag) == match items.last() {
                Tree::List(inner) => if inner.len() > 0 && inner[0] == Tree::Atom(tag) {
                    front.push(items.last())
                } else {
                    front
                },
                _ => front,
            }
        }),
        tagged_items(Tree::Atom(tag), tag).len() == 0,
        tagged_items(Tree::Text(tag), tag).len() == 0,
{
    reveal(Seq::filter);
}

/// Every direct `(tag …)` list is picked, wherever it stands, and nothing else is.
pub proof fn law_tagged_items_are_the_tagged_lists(items: Seq<Tree>, tag: Seq<char>)
    ensures
        forall|k: int|
            0 <= k < items.len() && is_tagged(#[trigger] items[k], tag) ==> tagged_items(
                Tree::List(items),
                tag,
            ).contains(items[k]),
        forall|j: int|
            0 <= j < tagged_items(Tree::List(items), tag).len() ==> items.contains(
                #[trigger] tagged_items(Tree::List(items), tag)[j],
            ) && is_tagged(tagged_items(Tree::List(items), tag)[j], tag),
    decreases items.len(),
{
    let all = tagged_items(Tree::List(items), tag);
    law_tagged_items_are_picked_one_by_one(items, tag);
    if items.len() > 0 {
        let front = items.drop_last();
        let some = tagged_items(Tree::List(front), tag);
        law_tagged_items_are_the_tagged_lists(front, tag);
        assert forall|k: int| 0 <= k < items.len() && is_tagged(#[trigger] items[k], tag) implies
            all.contains(items[k]) by {
            if k < front.len() {
                assert(front[k] == items[k]);
                let j = choose|j: int| 0 <= j < some.len() && some[j] == items[k];
                assert(all[j] == items[k]);
            } else {
                assert(all[some.len() as int] == items[k]);
            }
        }
        assert forall|j: int| 0 <= j < all.len() implies items.contains(#[trigger] all[j])
            && is_tagged(all[j], tag) by {
            if j < some.len() {
                assert(some[j] == all[j]);
                let k = choose|k: int| 0 <= k < front.len() && front[k] == some[j];
                assert(items[k] == all[j]);
            } else {
                assert(items[items.len() - 1] == all[j]);
            }
        }
    }
}

/// The value under a tag is what stands behind the tag in the first such list,
/// be it an atom or a text.
pub proof fn law_the_first_value_counts(items: Seq<Tree>, tag: Seq<char>, k: int)
    requires
        0 <= k < items.len(),
        is_tagged(items[k], tag),
        forall|i: int| 0 <= i < k ==> !is_tagged(#[trigger] items[i], tag),
    ensures
        tagged_item(Tree::List(items), tag) == Some(items[k]),
        items[k] matches Tree::List(inner) ==> tagged_value(Tree::List(items), tag) == (
        if inner.len() < 2 {
            None
        } else {
            match inner[1] {
                Tree::Atom(text) => Some(text),
                Tree::Text(text) => Some(text),
                Tree::List(_) => None,
            }
        }),
    decreases items.len(),
{
    law_tagged_items_are_picked_one_by_one(items, tag);
    let front = items.drop_last();
    if k == items.len() - 1 {
        law_tagged_items_are_the_tagged_lists(front, tag);
        let some = tagged_items(Tree::List(front), tag);
        if some.len() > 0 {
            let j = choose|j: int| 0 <= j < front.len() && front[j] == some[0];
            assert(front.contains(some[0]));
            assert(is_tagged(items[j], tag));
        }
    } else {
        assert(front[k] == items[k]);
        assert forall|i: int| 0 <= i < k implies !is_tagged(#[trigger] front[i], tag) by {
            assert(front[i] == items[i]);
        }
        law_the_first_value_counts(front, tag, k);
        assert(tagged_items(Tree::List(front), tag)[0] == tagged_items(Tree::List(items), tag)[0]);
    }
}

/// Without a list of that tag there is no value under it.
pub proof fn law_no_list_no_value(items: Seq<Tree>, tag: Seq<char>)
    requires
        forall|k: int| 0 <= k < items.len() ==> !is_tagged(#[trigger] items[k], tag),
    ensures
        tagged_item(Tree::List(items), tag) is None,
        tagged_value(Tree::List(items), tag) is None,
{
    law_tagged_items_are_the_tagged_lists(items, tag);
    let all = tagged_items(Tree::List(items), tag);
    if all.len() > 0 {
        assert(items.contains(all[0]));
        let k = choose|k: int| 0 <= k < items.len() && items[k] == all[0];
        assert(is_tagged(items[k], tag));
    }
}

// ─── Pads ────────────────────────────────────────────────────────────────────

/// Whether a net is a real one: it has a name that is not empty.
pub open spec fn is_called(net: Tree, name: Seq<char>) -> bool {
    tagged_value(net, "name"@) == Some(name) && name.len() > 0
}

/// Whether a node is the pad: it has its reference and its pin.
pub open spec fn is_pad(node: Tree, pad: (Seq<char>, Seq<char>)) -> bool {
    tagged_value(node, "ref"@) == Some(pad.0) && tagged_value(node, "pin"@) == Some(pad.1)
}

/// Whether one of the nodes of a net, at any place, is the pad.
pub open spec fn joins(net: Tree, pad: (Seq<char>, Seq<char>)) -> bool {
    exists|j: int|
        0 <= j < tagged_items(net, "node"@).len() && is_pad(
            #[trigger] tagged_items(net, "node"@)[j],
            pad,
        )
}

/// Whether a net is a real one and joins the pad.
pub open spec fn connects(net: Tree, pad: (Seq<char>, Seq<char>)) -> bool {
    (exists|name: Seq<char>| is_called(net, name)) && joins(net, pad)
}

proof fn lemma_nodes(
    pads: Map<(Seq<char>, Seq<char>), Seq<char>>,
    nodes: Seq<Tree>,
    name: Seq<char>,
    pad: (Seq<char>, Seq<char>),
)
    ensures
        ({
            let after = with_nodes(pads, nodes, name);
            let there = exists|j: int| 0 <= j < nodes.len() && is_pad(#[trigger] nodes[j], pad);
            &&& after.dom().contains(pad) <==> there || pads.dom().contains(pad)
            &&& there ==> after[pad] == name
            &&& !there && pads.dom().contains(pad) ==> after[pad] == pads[pad]
        }),
    decreases nodes.len(),
{
    if nodes.len() > 0 {
        let front = nodes.drop_last();
        lemma_nodes(pads, front, name, pad);
        if exists|j: int| 0 <= j < front.len() && is_pad(#[trigger] front[j], pad) {
            let j = choose|j: int| 0 <= j < front.len() && is_pad(#[trigger] front[j], pad);
            assert(is_pad(nodes[j], pad));
        }
        if exists|j: int| 0 <= j < nodes.len() && is_pad(#[trigger] nodes[j], pad) {
            let j = choose|j: int| 0 <= j < nodes.len() && is_pad(#[trigger] nodes[j], pad);
            if j < front.len() {
                assert(is_pad(front[j], pad));
            }
        }
        assert(is_pad(nodes[nodes.len() - 1], pad) == is_pad(nodes.last(), pad));
    }
}

proof fn lemma_nets(nets: Seq<Tree>, pad: (Seq<char>, Seq<char>))
    ensures
        forall|i: int|
            0 <= i < nets.len() && connects(#[trigger] nets[i], pad) ==> pads_in(
                nets,
            ).dom().contains(pad),
        forall|i: int, name: Seq<char>|
            0 <= i < nets.len() && #[trigger] is_called(nets[i], name) && joins(nets[i], pad) && (
            forall|m: int| i < m < nets.len() ==> !connects(#[trigger] nets[m], pad))
                ==> pads_in(nets)[pad] == name,
        pads_in(nets).dom().contains(pad) ==> exists|i: int|
            0 <= i < nets.len() && connects(#[trigger] nets[i], pad),
    decreases nets.len(),
{
    if nets.len() > 0 {
        let front = nets.drop_last();
        let last = nets.last();
        let n = nets.len() - 1;
        let before = pads_in(front);
        let after = pads_in(nets);
        lemma_nets(front, pad);
        match net_label(last) {
            Some(label) => {
                lemma_nodes(before, tagged_items(last, "node"@), label, pad);
                assert(is_called(last, label));
                assert(joins(last, pad) ==> connects(last, pad));
                assert(nets[n] == last);
            },
            None => {
                assert(forall|name: Seq<char>| !is_called(last, name));
                assert(!connects(nets[n], pad));
            },
        }
        assert forall|i: int| 0 <= i < nets.len() && connects(#[trigger] nets[i], pad) implies
            after.dom().contains(pad) by {
            if i < n {
                assert(connects(front[i], pad));
            }
        }
        assert forall|i: int, name: Seq<char>|
            0 <= i < nets.len() && #[trigger] is_called(nets[i], name) && joins(nets[i], pad) && (
            forall|m: int| i < m < nets.len() ==> !connects(#[trigger] nets[m], pad)) implies
            after[pad] == name by {
            if i < n {
                assert(!connects(nets[n], pad));
                assert(is_called(front[i], name));
                assert forall|m: int| i < m < front.len() implies !connects(
                    #[trigger] front[m],
                    pad,
                ) by {
                    assert(!connects(nets[m], pad));
                }
                assert(connects(front[i], pad));
            }
        }
        if after.dom().contains(pad) {
            if before.dom().contains(pad) {
                let i = choose|i: int| 0 <= i < front.len() && connects(#[trigger] front[i], pad);
                assert(connects(nets[i], pad));
            } else {
                assert(connects(nets[n], pad));
            }
        }
    }
}

/// Every node of every net counts, at whatever place it stands: the pad that it
/// names is on the net, unless a later net claims the pad too. No other pad is on
/// a net, and the unconnected net, which has an empty name, claims none.
pub proof fn law_every_node_puts_its_pad_on_the_net(tree: Tree, pad: (Seq<char>, Seq<char>))
    requires
        wiring(tree) is Some,
    ensures
        ({
            let nets = tagged_items(tagged_item(tree, "nets"@)->0, "net"@);
            let pads = (wiring(tree)->0).pads;
            &&& forall|i: int, name: Seq<char>|
                0 <= i < nets.len() && #[trigger] is_called(nets[i], name) && joins(nets[i], pad)
                    ==> pads.dom().contains(pad)
            &&& forall|i: int, name: Seq<char>|
                0 <= i < nets.len() && #[trigger] is_called(nets[i], name) && joins(nets[i], pad)
                    && (forall|m: int| i < m < nets.len() ==> !connects(#[trigger] nets[m], pad))
                    ==> pads[pad] == name
            &&& pads.dom().contains(pad) ==> exists|i: int|
                0 <= i < nets.len() && connects(#[trigger] nets[i], pad)
        }),
{
    let nets = tagged_items(tagged_item(tree, "nets"@)->0, "net"@);
    lemma_nets(nets, pad);
    assert forall|i: int, name: Seq<char>|
        0 <= i < nets.len() && #[trigger] is_called(nets[i], name) && joins(
            nets[i],
            pad,
        ) implies pads_in(nets).dom().contains(pad) by {
        assert(connects(nets[i], pad));
    }
}

// ─── Names and references ────────────────────────────────────────────────────

proof fn lemma_listed_names(nets: Seq<Tree>)
    ensures
        forall|i: int, name: Seq<char>|
            0 <= i < nets.len() && #[trigger] is_called(nets[i], name) ==> names_in(nets).contains(
                name,
            ),
        forall|k: int|
            0 <= k < names_in(nets).len() ==> exists|i: int|
                0 <= i < nets.len() && is_called(
                    #[trigger] nets[i],
                    #[trigger] names_in(nets)[k],
                ),
        forall|k: int, l: int|
            0 <= k < l < names_in(nets).len() ==> comes_first(
                nets,
                #[trigger] names_in(nets)[k],
                #[trigger] names_in(nets)[l],
            ),
    decreases nets.len(),
{
    if nets.len() > 0 {
        let front = nets.drop_last();
        let n = nets.len() - 1;
        let some = names_in(front);
        let all = names_in(nets);
        lemma_listed_names(front);
        match net_label(nets.last()) {
            Some(label) => {
                assert(is_called(nets[n], label));
            },
            None => {
                assert(forall|name: Seq<char>| !is_called(nets[n], name));
            },
        }
        assert forall|i: int, name: Seq<char>|
            0 <= i < nets.len() && #[trigger] is_called(nets[i], name) implies all.contains(
            name,
        ) by {
            if i < n {
                assert(is_called(front[i], name));
                let k = choose|k: int| 0 <= k < some.len() && some[k] == name;
                assert(all[k] == name);
            } else if !some.contains(name) {
                assert(all[some.len() as int] == name);
            } else {
                let k = choose|k: int| 0 <= k < some.len() && some[k] == name;
                assert(all[k] == name);
            }
        }
        assert forall|k: int| 0 <= k < all.len() implies exists|i: int|
            0 <= i < nets.len() && is_called(#[trigger] nets[i], #[trigger] all[k]) by {
            if k < some.len() {
                assert(some[k] == all[k]);
                let i = choose|i: int|
                    0 <= i < front.len() && is_called(#[trigger] front[i], some[k]);
                assert(is_called(nets[i], all[k]));
            } else {
                assert(is_called(nets[n], all[k]));
            }
        }
        assert forall|k: int, l: int| 0 <= k < l < all.len() implies comes_first(
            nets,
            #[trigger] all[k],
            #[trigger] all[l],
        ) by {
            if l < some.len() {
                assert(comes_first(front, some[k], some[l]));
                let i = choose|i: int|
                    0 <= i < front.len() && is_called(#[trigger] front[i], some[k]) && forall|m: int|
                        0 <= m <= i ==> !is_called(#[trigger] front[m], some[l]);
                assert(is_called(nets[i], all[k]));
                assert forall|m: int| 0 <= m <= i implies !is_called(
                    #[trigger] nets[m],
                    all[l],
                ) by {
                    assert(!is_called(front[m], some[l]));
                }
            } else {
                assert(some[k] == all[k]);
                let i = choose|i: int|
                    0 <= i < front.len() && is_called(#[trigger] front[i], some[k]);
                assert(is_called(nets[i], all[k]));
                assert forall|m: int| 0 <= m <= i implies !is_called(
                    #[trigger] nets[m],
                    all[l],
                ) by {
                    if is_called(nets[m], all[l]) {
                        assert(is_called(front[m], all[l]));
                        assert(some.contains(all[l]));
                    }
                }
            }
        }
    }
}

/// Whether a net called `a` stands before every net called `b`.
pub open spec fn comes_first(nets: Seq<Tree>, a: Seq<char>, b: Seq<char>) -> bool {
    exists|i: int|
        0 <= i < nets.len() && is_called(#[trigger] nets[i], a) && forall|m: int|
            0 <= m <= i ==> !is_called(#[trigger] nets[m], b)
}

/// The names of a netlist are those of its nets, all of them and no others, in the
/// order in which they first come up.
pub proof fn law_names_are_the_nets_names(tree: Tree)
    requires
        wiring(tree) is Some,
    ensures
        ({
            let nets = tagged_items(tagged_item(tree, "nets"@)->0, "net"@);
            let names = (wiring(tree)->0).nets;
            &&& forall|i: int, name: Seq<char>|
                0 <= i < nets.len() && #[trigger] is_called(nets[i], name) ==> names.contains(name)
            &&& forall|k: int|
                0 <= k < names.len() ==> exists|i: int|
                    0 <= i < nets.len() && is_called(#[trigger] nets[i], #[trigger] names[k])
            &&& forall|k: int, l: int|
                0 <= k < l < names.len() ==> comes_first(
                    nets,
                    #[trigger] names[k],
                    #[trigger] names[l],
                )
        }),
{
    lemma_listed_names(tagged_items(tagged_item(tree, "nets"@)->0, "net"@));
}

proof fn lemma_references(comps: Seq<Tree>, reference: Seq<char>)
    ensures
        refs_in(comps).contains(reference) <==> exists|k: int|
            0 <= k < comps.len() && tagged_value(#[trigger] comps[k], "ref"@) == Some(reference),
    decreases comps.len(),
{
    if comps.len() > 0 {
        let front = comps.drop_last();
        lemma_references(front, reference);
        if refs_in(front).contains(reference) {
            let k = choose|k: int|
                0 <= k < front.len() && tagged_value(#[trigger] front[k], "ref"@) == Some(
                    reference,
                );
            assert(comps[k] == front[k]);
        }
        if exists|k: int|
            0 <= k < comps.len() && tagged_value(#[trigger] comps[k], "ref"@) == Some(reference) {
            let k = choose|k: int|
                0 <= k < comps.len() && tagged_value(#[trigger] comps[k], "ref"@) == Some(
                    reference,
                );
            if k < front.len() {
                assert(front[k] == comps[k]);
            }
        }
        assert(comps[comps.len() - 1] == comps.last());
    }
}

/// The references of a netlist are those of the components in its `(components …)`
/// section, all of them and no others.
pub proof fn law_references_are_the_components(tree: Tree, reference: Seq<char>)
    requires
        wiring(tree) is Some,
    ensures
        (wiring(tree)->0).refs.contains(reference) <==> {
            &&& tagged_item(tree, "components"@) is Some
            &&& exists|k: int|
                0 <= k < tagged_items(tagged_item(tree, "components"@)->0, "comp"@).len()
                    && tagged_value(
                    #[trigger] tagged_items(tagged_item(tree, "components"@)->0, "comp"@)[k],
                    "ref"@,
                ) == Some(reference)
        },
{
    lemma_references(components(tree), reference);
}

/// A tree is read as a netlist exactly where it has a `(nets …)` section.
pub proof fn law_a_netlist_has_nets(tree: Tree)
    ensures
        wiring(tree) is Some <==> tagged_items(tree, "nets"@).len() > 0,
{
}

} // verus!
