//! Sorted sets of names.

use crate::text::{same_text, to_chars, views};
use vstd::prelude::*;

verus! {

// ─── Order ───────────────────────────────────────────────────────────────────

/// Dictionary order by code point, which is the order of strings.
pub open spec fn text_less(a: Seq<char>, b: Seq<char>) -> bool
    decreases a.len(),
{
    if b.len() == 0 {
        false
    } else if a.len() == 0 {
        true
    } else if a[0] != b[0] {
        a[0] < b[0]
    } else {
        text_less(a.skip(1), b.skip(1))
    }
}

/// Nothing precedes itself.
pub proof fn lemma_less_irreflexive(a: Seq<char>)
    ensures
        !text_less(a, a),
    decreases a.len(),
{
    if a.len() > 0 {
        lemma_less_irreflexive(a.skip(1));
    }
}

/// What precedes something that precedes a third precedes the third.
pub proof fn lemma_less_transitive(a: Seq<char>, b: Seq<char>, c: Seq<char>)
    requires
        text_less(a, b),
        text_less(b, c),
    ensures
        text_less(a, c),
    decreases a.len(),
{
    if a.len() > 0 && a[0] == b[0] && b[0] == c[0] {
        lemma_less_transitive(a.skip(1), b.skip(1), c.skip(1));
    }
}

/// Of two different texts one precedes the other.
pub proof fn lemma_less_total(a: Seq<char>, b: Seq<char>)
    ensures
        a == b || text_less(a, b) || text_less(b, a),
    decreases a.len(),
{
    if a.len() == 0 && b.len() == 0 {
        assert(a =~= b);
    } else if a.len() > 0 && b.len() > 0 && a[0] == b[0] {
        lemma_less_total(a.skip(1), b.skip(1));
        if a.skip(1) == b.skip(1) {
            assert(a =~= seq![a[0]] + a.skip(1));
            assert(b =~= seq![b[0]] + b.skip(1));
        }
    }
}

/// The first difference decides: of two texts that part after a common front, the
/// one that goes on with the smaller character comes first, and a front comes
/// before what goes on from it.
pub proof fn law_the_first_difference_decides(
    front: Seq<char>,
    x: char,
    y: char,
    a: Seq<char>,
    b: Seq<char>,
)
    ensures
        x < y ==> text_less(front.push(x) + a, front.push(y) + b),
        x < y ==> !text_less(front.push(y) + b, front.push(x) + a),
        text_less(front, front.push(x) + a),
        !text_less(front.push(x) + a, front),
    decreases front.len(),
{
    let p = front.push(x) + a;
    let q = front.push(y) + b;
    if front.len() > 0 {
        let rest = front.skip(1);
        law_the_first_difference_decides(rest, x, y, a, b);
        assert(p.skip(1) =~= rest.push(x) + a);
        assert(q.skip(1) =~= rest.push(y) + b);
        assert(p[0] == front[0] && q[0] == front[0]);
    } else {
        assert(p[0] == x && q[0] == y);
    }
}

/// Whether `a` precedes `b`.
pub fn precedes(a: &str, b: &str) -> (res: bool)
    ensures
        res == text_less(a@, b@),
{
    let x = to_chars(a);
    let y = to_chars(b);
    let mut i: usize = 0;
    assert(a@.skip(0) =~= a@);
    assert(b@.skip(0) =~= b@);
    while i < x.len() && i < y.len()
        invariant
            x@ == a@,
            y@ == b@,
            i <= x@.len(),
            i <= y@.len(),
            text_less(a@, b@) == text_less(a@.skip(i as int), b@.skip(i as int)),
        decreases x@.len() - i,
    {
        if x[i] != y[i] {
            return x[i] < y[i];
        }
        assert(a@.skip(i as int).skip(1) =~= a@.skip(i + 1));
        assert(b@.skip(i as int).skip(1) =~= b@.skip(i + 1));
        i = i + 1;
    }
    i < y.len()
}

/// Whether `list` holds each of its texts once, in order.
pub open spec fn ascending(list: Seq<Seq<char>>) -> bool {
    forall|i: int, j: int| 0 <= i < j < list.len() ==> text_less(list[i], list[j])
}

/// Whether `list` names exactly the members of `set`, once each and in order.
pub open spec fn lists(list: Seq<Seq<char>>, set: Set<Seq<char>>) -> bool {
    &&& ascending(list)
    &&& list.to_set() == set
}

/// An ascending list repeats nothing.
pub proof fn lemma_ascending_distinct(list: Seq<Seq<char>>)
    requires
        ascending(list),
    ensures
        list.no_duplicates(),
        list.to_set().len() == list.len(),
{
    assert forall|i: int, j: int| 0 <= i < list.len() && 0 <= j < list.len() && i != j implies list[i]
        != list[j] by {
        if i < j {
            lemma_less_irreflexive(list[i]);
            assert(text_less(list[i], list[j]));
        } else {
            lemma_less_irreflexive(list[j]);
            assert(text_less(list[j], list[i]));
        }
    }
    list.unique_seq_to_set();
}

/// A set has one listing: what a report lists is determined by the set alone.
pub proof fn law_a_set_has_one_listing(a: Seq<Seq<char>>, b: Seq<Seq<char>>, set: Set<Seq<char>>)
    requires
        lists(a, set),
        lists(b, set),
    ensures
        a == b,
    decreases a.len(),
{
    lemma_ascending_distinct(a);
    lemma_ascending_distinct(b);
    if a.len() > 0 {
        let x = a.last();
        let y = b.last();
        assert(a.to_set().contains(x));
        assert(b.to_set().contains(y));
        assert(b.to_set().contains(x));
        assert(a.to_set().contains(y));
        if x != y {
            let i = choose|i: int| 0 <= i < b.len() && b[i] == x;
            let j = choose|j: int| 0 <= j < a.len() && a[j] == y;
            assert(text_less(b[i], b.last()));
            assert(text_less(a[j], a.last()));
            lemma_less_transitive(x, y, x);
            lemma_less_irreflexive(x);
        }
        assert(a.drop_last().to_set() =~= set.remove(x)) by {
            assert forall|t: Seq<char>| a.drop_last().to_set().contains(t) == set.remove(
                x,
            ).contains(t) by {
                if set.remove(x).contains(t) {
                    assert(a.to_set().contains(t));
                    let k = choose|k: int| 0 <= k < a.len() && a[k] == t;
                    assert(a.drop_last()[k] == t);
                }
                if a.drop_last().to_set().contains(t) {
                    let k = choose|k: int| 0 <= k < a.drop_last().len() && a.drop_last()[k] == t;
                    assert(a[k] == t);
                    assert(a.to_set().contains(t));
                }
            }
        }
        assert(b.drop_last().to_set() =~= set.remove(x)) by {
            assert forall|t: Seq<char>| b.drop_last().to_set().contains(t) == set.remove(
                x,
            ).contains(t) by {
                if set.remove(x).contains(t) {
                    assert(b.to_set().contains(t));
                    let k = choose|k: int| 0 <= k < b.len() && b[k] == t;
                    assert(b.drop_last()[k] == t);
                }
                if b.drop_last().to_set().contains(t) {
                    let k = choose|k: int| 0 <= k < b.drop_last().len() && b.drop_last()[k] == t;
                    assert(b[k] == t);
                    assert(b.to_set().contains(t));
                }
            }
        }
        law_a_set_has_one_listing(a.drop_last(), b.drop_last(), set.remove(x));
        assert(a =~= a.drop_last().push(x));
        assert(b =~= b.drop_last().push(x));
    } else {
        assert(a =~= b);
    }
}

// ─── Sets ────────────────────────────────────────────────────────────────────

/// A set of names, kept sorted.
#[derive(Debug)]
pub struct NameSet {
    names: Vec<String>,
}

impl View for NameSet {
    type V = Set<Seq<char>>;

    closed spec fn view(&self) -> Set<Seq<char>> {
        views(self.names@).to_set()
    }
}

impl NameSet {
    #[verifier::type_invariant]
    spec fn sorted(self) -> bool {
        ascending(views(self.names@))
    }

    /// The empty set.
    pub fn new() -> (res: NameSet)
        ensures
            res@ == Set::<Seq<char>>::empty(),
    {
        let res = NameSet { names: Vec::new() };
        assert(views(res.names@).to_set() =~= Set::<Seq<char>>::empty());
        res
    }

    /// How many names the set holds.
    pub fn len(&self) -> (res: usize)
        ensures
            res == self@.len(),
    {
        proof {
            use_type_invariant(self);
            lemma_ascending_distinct(views(self.names@));
        }
        self.names.len()
    }

    /// Whether the set is empty.
    pub fn is_empty(&self) -> (res: bool)
        ensures
            res == (self@ == Set::<Seq<char>>::empty()),
    {
        if self.names.len() == 0 {
            assert(self@ =~= Set::<Seq<char>>::empty());
            true
        } else {
            assert(views(self.names@)[0] == self.names@[0]@);
            assert(self@.contains(self.names@[0]@));
            false
        }
    }

    /// Whether `name` is in the set.
    pub fn contains(&self, name: &str) -> (res: bool)
        ensures
            res == self@.contains(name@),
    {
        let mut i: usize = 0;
        while i < self.names.len()
            invariant
                i <= self.names@.len(),
                forall|k: int| 0 <= k < i ==> views(self.names@)[k] != name@,
            decreases self.names@.len() - i,
        {
            if same_text(self.names[i].as_str(), name) {
                assert(views(self.names@)[i as int] == name@);
                return true;
            }
            i = i + 1;
        }
        false
    }

    /// Put `name` into the set.
    pub fn insert(&mut self, name: String)
        ensures
            final(self)@ == old(self)@.insert(name@),
    {
        proof {
            use_type_invariant(&*self);
        }
        let ghost before = views(self.names@);
        let mut at: usize = 0;
        while at < self.names.len() && precedes(self.names[at].as_str(), name.as_str())
            invariant
                at <= self.names@.len(),
                before == views(self.names@),
                forall|k: int| 0 <= k < at ==> text_less(#[trigger] before[k], name@),
            decreases self.names@.len() - at,
        {
            at = at + 1;
        }
        if at < self.names.len() && same_text(self.names[at].as_str(), name.as_str()) {
            assert(before[at as int] == name@);
            assert(before.to_set().insert(name@) =~= before.to_set());
            return;
        }
        let mut rest: Vec<String> = Vec::new();
        std::mem::swap(&mut rest, &mut self.names);
        let ghost value = name@;
        rest.insert(at, name);
        proof {
            let after = views(rest@);
            assert(after =~= before.insert(at as int, value));
            if at < before.len() {
                lemma_less_total(before[at as int], value);
            }
            assert forall|i: int, j: int| 0 <= i < j < after.len() implies text_less(
                after[i],
                after[j],
            ) by {
                if i == at {
                    assert(after[j] == before[j - 1]);
                    if j - 1 > at {
                        lemma_less_transitive(value, before[at as int], before[j - 1]);
                    }
                } else if j == at {
                    assert(after[i] == before[i]);
                } else {
                    let p = if i < at { i } else { i - 1 };
                    let q = if j < at { j } else { j - 1 };
                    assert(after[i] == before[p]);
                    assert(after[j] == before[q]);
                }
            }
            assert forall|t: Seq<char>| after.to_set().contains(t) == before.to_set().insert(
                value,
            ).contains(t) by {
                if after.to_set().contains(t) {
                    let k = choose|k: int| 0 <= k < after.len() && after[k] == t;
                    if k < at {
                        assert(before[k] == t);
                    } else if k > at {
                        assert(before[k - 1] == t);
                    }
                }
                if before.to_set().contains(t) {
                    let k = choose|k: int| 0 <= k < before.len() && before[k] == t;
                    if k < at {
                        assert(after[k] == t);
                    } else {
                        assert(after[k + 1] == t);
                    }
                }
                assert(after[at as int] == value);
            }
            assert(after.to_set() =~= before.to_set().insert(value));
        }
        self.names = rest;
    }

    /// The names, in order.
    pub fn into_list(self) -> (res: Vec<String>)
        ensures
            lists(views(res@), self@),
    {
        proof {
            use_type_invariant(&self);
        }
        self.names
    }

    /// The names that are not in `other`, in order.
    pub fn difference(&self, other: &NameSet) -> (res: Vec<String>)
        ensures
            lists(views(res@), self@.difference(other@)),
    {
        proof {
            use_type_invariant(self);
        }
        let ghost all = views(self.names@);
        let mut out: Vec<String> = Vec::new();
        let mut i: usize = 0;
        while i < self.names.len()
            invariant
                i <= self.names@.len(),
                all == views(self.names@),
                ascending(all),
                ascending(views(out@)),
                forall|k: int|
                    0 <= k < out@.len() ==> !other@.contains(#[trigger] views(out@)[k]) && exists|
                        j: int,
                    |
                        0 <= j < i && all[j] == views(out@)[k],
                forall|j: int|
                    0 <= j < i && !other@.contains(#[trigger] all[j]) ==> views(out@).contains(
                        all[j],
                    ),
            decreases self.names@.len() - i,
        {
            if !other.contains(self.names[i].as_str()) {
                let ghost before = views(out@);
                out.push(self.names[i].clone());
                proof {
                    let after = views(out@);
                    assert(after =~= before.push(all[i as int]));
                    assert forall|a: int, b: int| 0 <= a < b < after.len() implies text_less(
                        after[a],
                        after[b],
                    ) by {
                        assert(after[a] == before[a]);
                        let j = choose|j: int| 0 <= j < i && all[j] == before[a];
                        assert(text_less(all[j], all[i as int]));
                        if b < before.len() {
                            assert(after[b] == before[b]);
                        }
                    }
                    assert forall|k: int| 0 <= k < out@.len() implies !other@.contains(
                        #[trigger] after[k],
                    ) && exists|j: int| 0 <= j < i + 1 && all[j] == after[k] by {
                        if k < before.len() {
                            assert(after[k] == before[k]);
                            let j = choose|j: int| 0 <= j < i && all[j] == before[k];
                            assert(all[j] == after[k]);
                        } else {
                            assert(all[i as int] == after[k]);
                        }
                    }
                    assert forall|j: int|
                        0 <= j < i + 1 && !other@.contains(#[trigger] all[j]) implies after.contains(
                        all[j],
                    ) by {
                        if j < i {
                            let k = choose|k: int| 0 <= k < before.len() && before[k] == all[j];
                            assert(after[k] == all[j]);
                        } else {
                            assert(after[before.len() as int] == all[j]);
                        }
                    }
                }
            } else {
                assert forall|k: int| 0 <= k < out@.len() implies exists|j: int|
                    0 <= j < i + 1 && all[j] == #[trigger] views(out@)[k] by {
                    let j = choose|j: int| 0 <= j < i && all[j] == views(out@)[k];
                    assert(all[j] == views(out@)[k]);
                }
            }
            i = i + 1;
        }
        proof {
            let got = views(out@);
            assert forall|t: Seq<char>| got.to_set().contains(t) == self@.difference(
                other@,
            ).contains(t) by {
                if got.to_set().contains(t) {
                    let k = choose|k: int| 0 <= k < got.len() && got[k] == t;
                    assert(!other@.contains(views(out@)[k]));
                }
                if self@.difference(other@).contains(t) {
                    let j = choose|j: int| 0 <= j < all.len() && all[j] == t;
                    assert(!other@.contains(all[j]));
                }
            }
            assert(got.to_set() =~= self@.difference(other@));
        }
        out
    }
}

impl Default for NameSet {
    fn default() -> (res: NameSet)
        ensures
            res@ == Set::<Seq<char>>::empty(),
    {
        NameSet::new()
    }
}

} // verus!
