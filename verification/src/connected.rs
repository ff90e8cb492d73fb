//! Moving a symbol with everything attached to its pins.
//!
//! Attachment is exact coincidence, so nothing merely near a pin is touched. A
//! junction is the one item that can be wrong to move: where a wire passes
//! *through* the pin point rather than ending there, the junction holds that T
//! together. Those are left in place and reported.

use vstd::prelude::*;

verus! {

/// How a wire meets a point.
#[derive(Debug, Clone, Copy, PartialEq, Eq, Structural)]
pub struct WireContact {
    /// The point lies on the wire.
    pub on_segment: bool,
    /// The point is the wire's start.
    pub at_start: bool,
    /// The point is the wire's end.
    pub at_end: bool,
}

impl WireContact {
    /// Whether the wire runs through the point rather than starting or ending
    /// there.
    pub open spec fn passes(self) -> bool {
        self.on_segment && !self.at_start && !self.at_end
    }
}

/// Whether some wire runs through the point.
pub open spec fn passed_through(contacts: Seq<WireContact>) -> bool {
    exists|k: int| 0 <= k < contacts.len() && (#[trigger] contacts[k]).passes()
}

/// Whether some wire runs *through* a point rather than starting or ending there.
///
/// This is what separates a junction that may be dragged along with a moving pin
/// from one that may not. If every wire at the point merely ends there, they all
/// follow the pin and the dot should follow too. If one passes through, that wire
/// is staying put and the dot is holding a T together with it.
pub fn wire_passes_through(contacts: &[WireContact]) -> (res: bool)
    ensures
        res == passed_through(contacts@),
{
    let mut i: usize = 0;
    while i < contacts.len()
        invariant
            i <= contacts@.len(),
            forall|k: int| 0 <= k < i ==> !(#[trigger] contacts@[k]).passes(),
        decreases contacts@.len() - i,
    {
        let c = contacts[i];
        if c.on_segment && !c.at_start && !c.at_end {
            assert(contacts@[i as int].passes());
            return true;
        }
        i = i + 1;
    }
    false
}

// ─── What is dragged ─────────────────────────────────────────────────────────

/// Which ends of a wire sit on a pin.
#[derive(Debug, Clone, Copy, PartialEq, Eq, Structural)]
pub struct WireEnds {
    pub start_on_pin: bool,
    pub end_on_pin: bool,
}

/// Whether a junction sits on a pin, and how the wires meet it.
#[derive(Debug)]
pub struct JunctionSite {
    pub on_pin: bool,
    pub contacts: Vec<WireContact>,
}

/// What becomes of a junction.
#[derive(Debug, Clone, Copy, PartialEq, Eq, Structural)]
pub enum JunctionFate {
    /// It sits on no pin.
    Untouched,
    /// It travels with the pin.
    Moved,
    /// It stays, because a wire passes through it.
    LeftBehind,
}

/// What becomes of a junction on, or off, a pin.
pub open spec fn junction_fate(site: JunctionSite) -> JunctionFate {
    if !site.on_pin {
        JunctionFate::Untouched
    } else if passed_through(site.contacts@) {
        JunctionFate::LeftBehind
    } else {
        JunctionFate::Moved
    }
}

/// How many of `flags` are set.
pub open spec fn count_set(flags: Seq<bool>) -> nat
    decreases flags.len(),
{
    if flags.len() == 0 {
        0
    } else {
        count_set(flags.drop_last()) + if flags.last() {
            1nat
        } else {
            0nat
        }
    }
}

/// How many wire ends sit on a pin.
pub open spec fn count_ends(wires: Seq<WireEnds>) -> nat
    decreases wires.len(),
{
    if wires.len() == 0 {
        0
    } else {
        count_ends(wires.drop_last()) + (if wires.last().start_on_pin {
            1nat
        } else {
            0nat
        }) + (if wires.last().end_on_pin {
            1nat
        } else {
            0nat
        })
    }
}

/// How many of `fates` are `fate`.
pub open spec fn count_fate(fates: Seq<JunctionFate>, fate: JunctionFate) -> nat
    decreases fates.len(),
{
    if fates.len() == 0 {
        0
    } else {
        count_fate(fates.drop_last(), fate) + if fates.last() == fate {
            1nat
        } else {
            0nat
        }
    }
}

/// What becomes of each junction.
pub open spec fn junction_fates(sites: Seq<JunctionSite>) -> Seq<JunctionFate> {
    sites.map_values(|site: JunctionSite| junction_fate(site))
}

/// What is dragged along with a symbol. A wire end, a label or a no-connect flag
/// that sits on a pin is; the counts say how many that are.
#[derive(Debug)]
pub struct Drag {
    pub wire_endpoints_moved: usize,
    pub labels_moved: usize,
    pub no_connects_moved: usize,
    pub junctions_moved: usize,
    /// What becomes of each junction.
    pub junctions: Vec<JunctionFate>,
    /// How many junctions were left behind.
    pub junctions_left_behind: usize,
}

fn count_flags(flags: &[bool]) -> (res: usize)
    ensures
        res == count_set(flags@),
        res <= flags@.len(),
{
    let mut count: usize = 0;
    let mut i: usize = 0;
    assert(flags@.take(0) =~= Seq::<bool>::empty());
    while i < flags.len()
        invariant
            i <= flags@.len(),
            count <= i,
            count == count_set(flags@.take(i as int)),
        decreases flags@.len() - i,
    {
        proof {
            assert(flags@.take(i + 1).drop_last() =~= flags@.take(i as int));
            assert(flags@.take(i + 1).last() == flags@[i as int]);
        }
        if flags[i] {
            count = count + 1;
        }
        i = i + 1;
    }
    assert(flags@.take(flags@.len() as int) =~= flags@);
    count
}

fn count_wire_ends(wires: &[WireEnds]) -> (res: usize)
    requires
        2 * wires@.len() <= usize::MAX,
    ensures
        res == count_ends(wires@),
{
    let mut count: usize = 0;
    let mut i: usize = 0;
    assert(wires@.take(0) =~= Seq::<WireEnds>::empty());
    while i < wires.len()
        invariant
            i <= wires@.len(),
            2 * wires@.len() <= usize::MAX,
            count <= 2 * i,
            count == count_ends(wires@.take(i as int)),
        decreases wires@.len() - i,
    {
        proof {
            assert(wires@.take(i + 1).drop_last() =~= wires@.take(i as int));
            assert(wires@.take(i + 1).last() == wires@[i as int]);
        }
        if wires[i].start_on_pin {
            count = count + 1;
        }
        if wires[i].end_on_pin {
            count = count + 1;
        }
        i = i + 1;
    }
    assert(wires@.take(wires@.len() as int) =~= wires@);
    count
}

/// What is dragged along with a symbol, from what sits on its pins. `labels` are
/// its net, global and hierarchical labels.
pub fn plan_drag(
    wires: &[WireEnds],
    labels: &[bool],
    no_connects: &[bool],
    junctions: &[JunctionSite],
) -> (res: Drag)
    requires
        2 * wires@.len() <= usize::MAX,
    ensures
        res.wire_endpoints_moved == count_ends(wires@),
        res.labels_moved == count_set(labels@),
        res.no_connects_moved == count_set(no_connects@),
        res.junctions@ == junction_fates(junctions@),
        res.junctions_moved == count_fate(junction_fates(junctions@), JunctionFate::Moved),
        res.junctions_left_behind == count_fate(
            junction_fates(junctions@),
            JunctionFate::LeftBehind,
        ),
{
    let ghost goal = junction_fates(junctions@);
    let mut fates: Vec<JunctionFate> = Vec::new();
    let mut moved: usize = 0;
    let mut left: usize = 0;
    let mut i: usize = 0;
    assert(goal.take(0) =~= Seq::<JunctionFate>::empty());
    while i < junctions.len()
        invariant
            i <= junctions@.len(),
            goal == junction_fates(junctions@),
            fates@ == goal.take(i as int),
            moved <= i,
            left <= i,
            moved == count_fate(goal.take(i as int), JunctionFate::Moved),
            left == count_fate(goal.take(i as int), JunctionFate::LeftBehind),
        decreases junctions@.len() - i,
    {
        let fate = if !junctions[i].on_pin {
            JunctionFate::Untouched
        } else if wire_passes_through(junctions[i].contacts.as_slice()) {
            left = left + 1;
            JunctionFate::LeftBehind
        } else {
            moved = moved + 1;
            JunctionFate::Moved
        };
        fates.push(fate);
        i = i + 1;
        proof {
            assert(goal[i - 1] == fate);
            assert(goal.take(i as int) =~= goal.take(i - 1).push(fate));
            assert(goal.take(i as int).drop_last() =~= goal.take(i - 1));
        }
    }
    assert(goal.take(goal.len() as int) =~= goal);
    Drag {
        wire_endpoints_moved: count_wire_ends(wires),
        labels_moved: count_flags(labels),
        no_connects_moved: count_flags(no_connects),
        junctions_moved: moved,
        junctions: fates,
        junctions_left_behind: left,
    }
}

/// A junction that a wire passes through is never dragged off that wire, and one
/// that no wire passes through follows its pin.
pub proof fn law_junctions_hold_their_wires(site: JunctionSite)
    ensures
        junction_fate(site) == JunctionFate::Moved <==> site.on_pin && !passed_through(
            site.contacts@,
        ),
        junction_fate(site) == JunctionFate::LeftBehind <==> site.on_pin && passed_through(
            site.contacts@,
        ),
{
}

/// Every junction on a pin is accounted for: it was moved or is reported as left
/// behind.
pub proof fn law_junctions_are_accounted_for(sites: Seq<JunctionSite>)
    ensures
        count_fate(junction_fates(sites), JunctionFate::Moved) + count_fate(
            junction_fates(sites),
            JunctionFate::LeftBehind,
        ) == count_set(sites.map_values(|site: JunctionSite| site.on_pin)),
    decreases sites.len(),
{
    let flags = sites.map_values(|site: JunctionSite| site.on_pin);
    let fates = junction_fates(sites);
    if sites.len() > 0 {
        let front = sites.drop_last();
        law_junctions_are_accounted_for(front);
        assert(junction_fates(front) =~= fates.drop_last());
        assert(front.map_values(|site: JunctionSite| site.on_pin) =~= flags.drop_last());
        assert(fates.last() == junction_fate(sites.last()));
        assert(flags.last() == sites.last().on_pin);
    }
}

/// A wire runs through a point exactly where the point lies on it and is neither of
/// its ends; one such wire is enough.
pub proof fn law_wires_pass_between_their_ends(contacts: Seq<WireContact>, c: WireContact)
    ensures
        passed_through(contacts.push(c)) <==> passed_through(contacts) || (c.on_segment
            && !c.at_start && !c.at_end),
        !passed_through(Seq::<WireContact>::empty()),
{
    let all = contacts.push(c);
    if passed_through(all) {
        let k = choose|k: int| 0 <= k < all.len() && (#[trigger] all[k]).passes();
        if k < contacts.len() {
            assert(contacts[k].passes());
        }
    }
    if passed_through(contacts) {
        let k = choose|k: int| 0 <= k < contacts.len() && (#[trigger] contacts[k]).passes();
        assert(all[k].passes());
    }
    if c.on_segment && !c.at_start && !c.at_end {
        assert(all[contacts.len() as int].passes());
    }
}

/// Every label or flag that sits on a pin is counted, and nothing else is.
pub proof fn law_flags_are_counted_one_by_one(flags: Seq<bool>)
    ensures
        count_set(flags) == flags.filter(|flag: bool| flag).len(),
    decreases flags.len(),
{
    reveal(Seq::filter);
    if flags.len() > 0 {
        law_flags_are_counted_one_by_one(flags.drop_last());
    }
}

/// Both ends of every wire are looked at: the count is that of the wires with their
/// start on a pin, and that of the wires with their end on one.
pub proof fn law_wire_ends_are_counted_one_by_one(wires: Seq<WireEnds>)
    ensures
        count_ends(wires) == wires.filter(|wire: WireEnds| wire.start_on_pin).len()
            + wires.filter(|wire: WireEnds| wire.end_on_pin).len(),
    decreases wires.len(),
{
    reveal(Seq::filter);
    if wires.len() > 0 {
        law_wire_ends_are_counted_one_by_one(wires.drop_last());
    }
}

/// Every junction has its own fate, in order, and as many are counted as have it.
pub proof fn law_fates_are_counted_one_by_one(sites: Seq<JunctionSite>, fate: JunctionFate)
    ensures
        junction_fates(sites).len() == sites.len(),
        forall|k: int|
            0 <= k < sites.len() ==> {
                &&& #[trigger] junction_fates(sites)[k] == JunctionFate::Untouched
                    <==> !sites[k].on_pin
                &&& junction_fates(sites)[k] == JunctionFate::Moved <==> sites[k].on_pin
                    && !passed_through(sites[k].contacts@)
                &&& junction_fates(sites)[k] == JunctionFate::LeftBehind <==> sites[k].on_pin
                    && passed_through(sites[k].contacts@)
            },
        count_fate(junction_fates(sites), fate) == junction_fates(sites).filter(
            |f: JunctionFate| f == fate,
        ).len(),
{
    lemma_fates_filtered(junction_fates(sites), fate);
}

proof fn lemma_fates_filtered(fates: Seq<JunctionFate>, fate: JunctionFate)
    ensures
        count_fate(fates, fate) == fates.filter(|f: JunctionFate| f == fate).len(),
    decreases fates.len(),
{
    reveal(Seq::filter);
    if fates.len() > 0 {
        lemma_fates_filtered(fates.drop_last(), fate);
    }
}

} // verus!
