//! What the schematic says about nets.

use crate::names::NameSet;
use crate::sexp::{
    borrowed_trees, document, parse_sexp, tagged_item, tagged_items, tagged_value, Malformed,
    SexpNode, Tree,
};
use crate::text::{same_text, views};
use vstd::prelude::*;

verus! {

// ─── Pads ────────────────────────────────────────────────────────────────────

/// `(reference, pad)` → net name. A later entry for a pad overrides an earlier
/// one.
#[derive(Debug)]
pub struct PadMap {
    entries: Vec<((String, String), String)>,
}

spec fn entry_map(entries: Seq<((String, String), String)>) -> Map<
    (Seq<char>, Seq<char>),
    Seq<char>,
>
    decreases entries.len(),
{
    if entries.len() == 0 {
        Map::empty()
    } else {
        let e = entries.last();
        entry_map(entries.drop_last()).insert((e.0.0@, e.0.1@), e.1@)
    }
}

impl View for PadMap {
    type V = Map<(Seq<char>, Seq<char>), Seq<char>>;

    closed spec fn view(&self) -> Map<(Seq<char>, Seq<char>), Seq<char>> {
        entry_map(self.entries@)
    }
}

impl PadMap {
    /// No pad has a net.
    pub fn new() -> (res: PadMap)
        ensures
            res@ == Map::<(Seq<char>, Seq<char>), Seq<char>>::empty(),
    {
        PadMap { entries: Vec::new() }
    }

    /// Put a pad on a net.
    pub fn insert(&mut self, pad: (String, String), net: String)
        ensures
            final(self)@ == old(self)@.insert((pad.0@, pad.1@), net@),
    {
        let ghost before = self.entries@;
        self.entries.push((pad, net));
        assert(self.entries@.drop_last() =~= before);
    }

    /// The net of a pad.
    pub fn get(&self, pad: &(String, String)) -> (res: Option<&String>)
        ensures
            match res {
                Some(net) => self@.dom().contains((pad.0@, pad.1@)) && self@[(pad.0@, pad.1@)]
                    == net@,
                None => !self@.dom().contains((pad.0@, pad.1@)),
            },
    {
        let mut i: usize = self.entries.len();
        assert(self.entries@.take(i as int) =~= self.entries@);
        while i > 0
            invariant
                i <= self.entries@.len(),
                ({
                    let whole = entry_map(self.entries@);
                    let part = entry_map(self.entries@.take(i as int));
                    let key = (pad.0@, pad.1@);
                    &&& whole.dom().contains(key) == part.dom().contains(key)
                    &&& part.dom().contains(key) ==> whole[key] == part[key]
                }),
            decreases i,
        {
            i = i - 1;
            let entry = &self.entries[i];
            proof {
                assert(self.entries@.take(i + 1).drop_last() =~= self.entries@.take(i as int));
                assert(self.entries@.take(i + 1).last() == *entry);
            }
            if same_text(entry.0.0.as_str(), pad.0.as_str()) && same_text(
                entry.0.1.as_str(),
                pad.1.as_str(),
            ) {
                return Some(&entry.1);
            }
        }
        None
    }
}

// ─── Reading a netlist ───────────────────────────────────────────────────────

/// What a netlist states: its net names in order, the net of each
/// `(reference, pad)`, and every reference.
pub ghost struct Wiring {
    pub nets: Seq<Seq<char>>,
    pub pads: Map<(Seq<char>, Seq<char>), Seq<char>>,
    pub refs: Set<Seq<char>>,
}

/// The references of `comps`.
pub open spec fn refs_in(comps: Seq<Tree>) -> Set<Seq<char>>
    decreases comps.len(),
{
    if comps.len() == 0 {
        Set::empty()
    } else {
        let front = refs_in(comps.drop_last());
        match tagged_value(comps.last(), "ref"@) {
            Some(reference) => front.insert(reference),
            None => front,
        }
    }
}

/// The name of a net. The unconnected net, which has an empty name, is not a
/// real net.
pub open spec fn net_label(net: Tree) -> Option<Seq<char>> {
    match tagged_value(net, "name"@) {
        Some(name) if name.len() > 0 => Some(name),
        _ => None,
    }
}

/// The names of `nets`, each where it comes first.
pub open spec fn names_in(nets: Seq<Tree>) -> Seq<Seq<char>>
    decreases nets.len(),
{
    if nets.len() == 0 {
        Seq::empty()
    } else {
        let front = names_in(nets.drop_last());
        match net_label(nets.last()) {
            Some(name) if !front.contains(name) => front.push(name),
            _ => front,
        }
    }
}

/// `pads`, with every pad of `nodes` put on the net `name`.
pub open spec fn with_nodes(
    pads: Map<(Seq<char>, Seq<char>), Seq<char>>,
    nodes: Seq<Tree>,
    name: Seq<char>,
) -> Map<(Seq<char>, Seq<char>), Seq<char>>
    decreases nodes.len(),
{
    if nodes.len() == 0 {
        pads
    } else {
        let front = with_nodes(pads, nodes.drop_last(), name);
        match (tagged_value(nodes.last(), "ref"@), tagged_value(nodes.last(), "pin"@)) {
            (Some(reference), Some(pin)) => front.insert((reference, pin), name),
            _ => front,
        }
    }
}

/// The net of each pad that `nets` mention.
pub open spec fn pads_in(nets: Seq<Tree>) -> Map<(Seq<char>, Seq<char>), Seq<char>>
    decreases nets.len(),
{
    if nets.len() == 0 {
        Map::empty()
    } else {
        let front = pads_in(nets.drop_last());
        match net_label(nets.last()) {
            Some(name) => with_nodes(front, tagged_items(nets.last(), "node"@), name),
            None => front,
        }
    }
}

/// The components of a netlist.
pub open spec fn components(tree: Tree) -> Seq<Tree> {
    match tagged_item(tree, "components"@) {
        Some(section) => tagged_items(section, "comp"@),
        None => Seq::empty(),
    }
}

/// What the netlist `tree` states, if it has a `(nets …)` section.
pub open spec fn wiring(tree: Tree) -> Option<Wiring> {
    match tagged_item(tree, "nets"@) {
        Some(section) => {
            let nets = tagged_items(section, "net"@);
            Some(
                Wiring {
                    nets: names_in(nets),
                    pads: pads_in(nets),
                    refs: refs_in(components(tree)),
                },
            )
        },
        None => None,
    }
}

/// What the schematic says: net name → the `(reference, pad)` pairs on it.
#[derive(Debug)]
pub struct Netlist {
    /// Net name in netlist order. Order is kept because it is stable across
    /// exports, which keeps the diff of a re-sync small.
    pub nets: Vec<String>,
    /// `(reference, pad)` → net name.
    pub pad_nets: PadMap,
    /// Every reference the schematic knows about.
    pub refs: NameSet,
}

impl View for Netlist {
    type V = Wiring;

    open spec fn view(&self) -> Wiring {
        Wiring { nets: views(self.nets@), pads: self.pad_nets@, refs: self.refs@ }
    }
}

impl Default for Netlist {
    fn default() -> (res: Netlist)
        ensures
            res@ == (Wiring {
                nets: Seq::<Seq<char>>::empty(),
                pads: Map::<(Seq<char>, Seq<char>), Seq<char>>::empty(),
                refs: Set::<Seq<char>>::empty(),
            }),
    {
        let res = Netlist { nets: Vec::new(), pad_nets: PadMap::new(), refs: NameSet::new() };
        assert(views(res.nets@) =~= Seq::<Seq<char>>::empty());
        res
    }
}

/// Why a text is not a netlist.
#[derive(Debug, Clone, Copy, PartialEq, Eq, Structural)]
pub enum NetlistError {
    /// It is not one s-expression.
    Malformed,
    /// It has no `(nets …)` section.
    NoNets,
}

impl NetlistError {
    /// The error in words.
    pub fn message(&self) -> (res: String)
        ensures
            res@ == match *self {
                NetlistError::Malformed => "malformed s-expression"@,
                NetlistError::NoNets => "netlist has no (nets) section"@,
            },
    {
        match self {
            NetlistError::Malformed => "malformed s-expression".to_string(),
            NetlistError::NoNets => "netlist has no (nets) section".to_string(),
        }
    }
}

/// Whether `name` is among `names`.
pub fn contains_name(names: &Vec<String>, name: &str) -> (res: bool)
    ensures
        res == views(names@).contains(name@),
{
    let mut i: usize = 0;
    while i < names.len()
        invariant
            i <= names@.len(),
            forall|k: int| 0 <= k < i ==> views(names@)[k] != name@,
        decreases names@.len() - i,
    {
        if same_text(names[i].as_str(), name) {
            assert(views(names@)[i as int] == name@);
            return true;
        }
        i = i + 1;
    }
    false
}

fn add_nodes(pads: &mut PadMap, net: &SexpNode, name: &str)
    ensures
        final(pads)@ == with_nodes(old(pads)@, tagged_items(net@, "node"@), name@),
{
    let nodes = net.find_all("node");
    let ghost all = tagged_items(net@, "node"@);
    let mut i: usize = 0;
    assert(all.take(0) =~= Seq::<Tree>::empty());
    while i < nodes.len()
        invariant
            i <= nodes@.len(),
            all == borrowed_trees(nodes@),
            pads@ == with_nodes(old(pads)@, all.take(i as int), name@),
        decreases nodes@.len() - i,
    {
        let node = nodes[i];
        proof {
            assert(all.take(i + 1).drop_last() =~= all.take(i as int));
            assert(all.take(i + 1).last() == node@);
        }
        if let Some(reference) = node.find_str("ref") {
            if let Some(pin) = node.find_str("pin") {
                pads.insert((reference.to_string(), pin.to_string()), name.to_string());
            }
        }
        i = i + 1;
    }
    assert(all.take(all.len() as int) =~= all);
}

fn references(tree: &SexpNode) -> (res: NameSet)
    ensures
        res@ == refs_in(components(tree@)),
{
    let mut refs = NameSet::new();
    if let Some(section) = tree.find("components") {
        let comps = section.find_all("comp");
        let ghost all = components(tree@);
        let mut i: usize = 0;
        assert(all.take(0) =~= Seq::<Tree>::empty());
        while i < comps.len()
            invariant
                i <= comps@.len(),
                all == borrowed_trees(comps@),
                refs@ == refs_in(all.take(i as int)),
            decreases comps@.len() - i,
        {
            proof {
                assert(all.take(i + 1).drop_last() =~= all.take(i as int));
                assert(all.take(i + 1).last() == comps@[i as int]@);
            }
            if let Some(reference) = comps[i].find_str("ref") {
                refs.insert(reference.to_string());
            }
            i = i + 1;
        }
        assert(all.take(all.len() as int) =~= all);
    }
    refs
}

/// Read a netlist out of its parsed form.
pub fn netlist_from_tree(tree: &SexpNode) -> (res: Result<Netlist, NetlistError>)
    ensures
        match res {
            Ok(netlist) => wiring(tree@) == Some(netlist@),
            Err(e) => wiring(tree@) is None && e == NetlistError::NoNets,
        },
{
    let mut out = Netlist::default();
    out.refs = references(tree);
    match tree.find("nets") {
        None => Err(NetlistError::NoNets),
        Some(section) => {
            let nets = section.find_all("net");
            let ghost all = tagged_items(section@, "net"@);
            let mut i: usize = 0;
            assert(all.take(0) =~= Seq::<Tree>::empty());
            while i < nets.len()
                invariant
                    i <= nets@.len(),
                    all == borrowed_trees(nets@),
                    views(out.nets@) == names_in(all.take(i as int)),
                    out.pad_nets@ == pads_in(all.take(i as int)),
                    out.refs@ == refs_in(components(tree@)),
                decreases nets@.len() - i,
            {
                let net = nets[i];
                proof {
                    assert(all.take(i + 1).drop_last() =~= all.take(i as int));
                    assert(all.take(i + 1).last() == net@);
                }
                if let Some(name) = net.find_str("name") {
                    if name.unicode_len() > 0 {
                        if !contains_name(&out.nets, name) {
                            let ghost before = views(out.nets@);
                            out.nets.push(name.to_string());
                            assert(views(out.nets@) =~= before.push(name@));
                        }
                        add_nodes(&mut out.pad_nets, net, name);
                    }
                }
                i = i + 1;
            }
            assert(all.take(all.len() as int) =~= all);
            Ok(out)
        },
    }
}

/// Parse a `kicadsexpr` netlist as produced by `kicad-cli sch export netlist`.
pub fn parse_netlist(source: &str) -> (res: Result<Netlist, NetlistError>)
    ensures
        match res {
            Ok(netlist) => document(source@) is Some && wiring(document(source@)->0) == Some(
                netlist@,
            ),
            Err(NetlistError::Malformed) => document(source@) is None,
            Err(NetlistError::NoNets) => document(source@) is Some && wiring(
                document(source@)->0,
            ) is None,
        },
{
    match parse_sexp(source) {
        Ok(tree) => netlist_from_tree(&tree),
        Err(Malformed) => Err(NetlistError::Malformed),
    }
}

// ─── Laws ────────────────────────────────────────────────────────────────────

/// A netlist names each net once, and names no unconnected net.
pub proof fn law_net_names(tree: Tree)
    requires
        wiring(tree) is Some,
    ensures
        wiring(tree)->0.nets.no_duplicates(),
        forall|k: int|
            0 <= k < wiring(tree)->0.nets.len() ==> (#[trigger] wiring(tree)->0.nets[k]).len() > 0,
{
    lemma_names(tagged_items(tagged_item(tree, "nets"@)->0, "net"@));
}

proof fn lemma_names(nets: Seq<Tree>)
    ensures
        names_in(nets).no_duplicates(),
        forall|k: int| 0 <= k < names_in(nets).len() ==> (#[trigger] names_in(nets)[k]).len() > 0,
    decreases nets.len(),
{
    if nets.len() > 0 {
        lemma_names(nets.drop_last());
    }
}

/// Every pad of a netlist is on a net that the netlist names.
pub proof fn law_pads_are_on_named_nets(tree: Tree)
    requires
        wiring(tree) is Some,
    ensures
        forall|pad: (Seq<char>, Seq<char>)| #[trigger]
            wiring(tree)->0.pads.dom().contains(pad) ==> wiring(tree)->0.nets.contains(
                wiring(tree)->0.pads[pad],
            ),
{
    lemma_pads(tagged_items(tagged_item(tree, "nets"@)->0, "net"@));
}

proof fn lemma_with_nodes(
    pads: Map<(Seq<char>, Seq<char>), Seq<char>>,
    nodes: Seq<Tree>,
    name: Seq<char>,
)
    ensures
        forall|pad: (Seq<char>, Seq<char>)| #[trigger]
            with_nodes(pads, nodes, name).dom().contains(pad) ==> {
                ||| with_nodes(pads, nodes, name)[pad] == name
                ||| pads.dom().contains(pad) && with_nodes(pads, nodes, name)[pad] == pads[pad]
            },
    decreases nodes.len(),
{
    if nodes.len() > 0 {
        let front = with_nodes(pads, nodes.drop_last(), name);
        lemma_with_nodes(pads, nodes.drop_last(), name);
        assert forall|pad: (Seq<char>, Seq<char>)| #[trigger]
            with_nodes(pads, nodes, name).dom().contains(pad) implies {
            ||| with_nodes(pads, nodes, name)[pad] == name
            ||| pads.dom().contains(pad) && with_nodes(pads, nodes, name)[pad] == pads[pad]
        } by {
            if with_nodes(pads, nodes, name)[pad] != name {
                assert(front.dom().contains(pad));
            }
        }
    }
}

proof fn lemma_pads(nets: Seq<Tree>)
    ensures
        forall|pad: (Seq<char>, Seq<char>)| #[trigger]
            pads_in(nets).dom().contains(pad) ==> names_in(nets).contains(pads_in(nets)[pad]),
    decreases nets.len(),
{
    if nets.len() > 0 {
        let front = nets.drop_last();
        lemma_pads(front);
        assert forall|pad: (Seq<char>, Seq<char>)| #[trigger]
            pads_in(nets).dom().contains(pad) implies names_in(nets).contains(
            pads_in(nets)[pad],
        ) by {
            let named = names_in(front);
            match net_label(nets.last()) {
                Some(name) => {
                    lemma_with_nodes(pads_in(front), tagged_items(nets.last(), "node"@), name);
                    if pads_in(nets)[pad] == name {
                        if named.contains(name) {
                            assert(names_in(nets) == named);
                        } else {
                            assert(names_in(nets)[named.len() as int] == name);
                        }
                    } else {
                        assert(pads_in(front).dom().contains(pad));
                        let k = choose|k: int|
                            0 <= k < named.len() && named[k] == pads_in(front)[pad];
                        assert(names_in(nets)[k] == named[k]);
                    }
                },
                None => {
                    assert(pads_in(front).dom().contains(pad));
                },
            }
        }
    }
}

} // verus!
