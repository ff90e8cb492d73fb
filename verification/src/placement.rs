//! Placing symbols: where they are instantiated, what they are called, and what
//! they are made of.

use crate::names::NameSet;
use crate::text::{
    append_str, contains_text, decimal, decimal_text, digit, join3, last_char, lemma_last_char,
    matches_at, occurs_at, rfind_char, slice_text, to_chars, to_text, views,
};
use vstd::prelude::*;

verus! {

// ─── Slots ───────────────────────────────────────────────────────────────────

/// A position of the sheet hierarchy at which a sheet is instantiated.
#[derive(Debug)]
pub struct InstanceSlot {
    pub project: String,
    pub path: String,
}

impl View for InstanceSlot {
    type V = (Seq<char>, Seq<char>);

    open spec fn view(&self) -> (Seq<char>, Seq<char>) {
        (self.project@, self.path@)
    }
}

/// Slots as plain values.
pub open spec fn slot_views(slots: Seq<InstanceSlot>) -> Seq<(Seq<char>, Seq<char>)> {
    slots.map_values(|slot: InstanceSlot| slot@)
}

/// Where a symbol added to a sheet must be instantiated: at every position that
/// the sheet's symbols are instantiated at. Without symbols to inherit from, the
/// sheet is its own root, which is what eeschema writes for a standalone save.
pub fn sheet_slots_for(discovered: Vec<InstanceSlot>, project: &str, root_uuid: &str) -> (res: Vec<
    InstanceSlot,
>)
    ensures
        slot_views(res@) == if discovered@.len() > 0 {
            slot_views(discovered@)
        } else {
            seq![(project@, "/"@ + root_uuid@)]
        },
{
    if discovered.len() > 0 {
        return discovered;
    }
    let path = join3("/", root_uuid, "");
    proof {
        reveal_strlit("");
        assert(path@ =~= "/"@ + root_uuid@);
    }
    let mut out: Vec<InstanceSlot> = Vec::new();
    out.push(InstanceSlot { project: project.to_string(), path });
    assert(slot_views(out@) =~= seq![(project@, "/"@ + root_uuid@)]);
    out
}

// ─── Designators ─────────────────────────────────────────────────────────────

/// Whether `c` is a decimal digit.
pub open spec fn is_digit(c: char) -> bool {
    '0' <= c <= '9'
}

/// Where the digits that end `s` start.
pub open spec fn digits_start(s: Seq<char>, to: int) -> int
    decreases to,
{
    if to > 0 && is_digit(s[to - 1]) {
        digits_start(s, to - 1)
    } else {
        to
    }
}

/// The number that the digits `s` write.
pub open spec fn number_of(s: Seq<char>) -> nat
    decreases s.len(),
{
    if s.len() == 0 {
        0
    } else {
        number_of(s.drop_last()) * 10 + (s.last() as nat - '0' as nat) as nat
    }
}

/// The prefix and the number of a designator: `R7` is `R` and 7. One without a
/// number, such as `?`, awaits annotation.
pub open spec fn designator_parts(seed: Seq<char>) -> Option<(Seq<char>, nat)> {
    let start = digits_start(seed, seed.len() as int);
    let number = number_of(seed.skip(start));
    if start == seed.len() || number > u64::MAX {
        None
    } else {
        Some((seed.take(start), number))
    }
}

/// A designator.
pub open spec fn designator(prefix: Seq<char>, number: nat) -> Seq<char> {
    prefix + decimal(number)
}

/// The designators with the numbers `numbers`.
pub open spec fn designators(prefix: Seq<char>, numbers: Seq<nat>) -> Seq<Seq<char>> {
    numbers.map_values(|n: nat| designator(prefix, n))
}

/// Whether `numbers` are, in order, exactly those in `start..end` whose
/// designators are free.
pub open spec fn lists_free(
    prefix: Seq<char>,
    start: nat,
    end: nat,
    used: Set<Seq<char>>,
    numbers: Seq<nat>,
) -> bool {
    &&& forall|i: int, j: int| 0 <= i < j < numbers.len() ==> numbers[i] < numbers[j]
    &&& forall|i: int|
        0 <= i < numbers.len() ==> start <= #[trigger] numbers[i] < end && !used.contains(
            designator(prefix, numbers[i]),
        )
    &&& forall|n: nat|
        start <= n < end && !used.contains(#[trigger] designator(prefix, n)) ==> numbers.contains(n)
}

fn find_digits_start(s: &[char]) -> (res: usize)
    ensures
        res == digits_start(s@, s@.len() as int),
        res <= s@.len(),
{
    let mut i: usize = s.len();
    while i > 0 && '0' <= s[i - 1] && s[i - 1] <= '9'
        invariant
            i <= s@.len(),
            digits_start(s@, s@.len() as int) == digits_start(s@, i as int),
        decreases i,
    {
        i = i - 1;
    }
    i
}

proof fn lemma_digits(s: Seq<char>, to: int)
    requires
        0 <= to <= s.len(),
    ensures
        0 <= digits_start(s, to) <= to,
        forall|k: int| digits_start(s, to) <= k < to ==> is_digit(#[trigger] s[k]),
    decreases to,
{
    if to > 0 && is_digit(s[to - 1]) {
        lemma_digits(s, to - 1);
    }
}

proof fn lemma_number_grows(s: Seq<char>, k: int)
    requires
        0 <= k <= s.len(),
        forall|i: int| 0 <= i < s.len() ==> is_digit(#[trigger] s[i]),
    ensures
        number_of(s.take(k)) <= number_of(s),
    decreases s.len(),
{
    if k == s.len() {
        assert(s.take(k) =~= s);
    } else {
        assert(s.drop_last().take(k) =~= s.take(k));
        assert forall|i: int| 0 <= i < s.drop_last().len() implies is_digit(
            #[trigger] s.drop_last()[i],
        ) by {
            assert(s.drop_last()[i] == s[i]);
        }
        lemma_number_grows(s.drop_last(), k);
    }
}

/// The number of the digits from `from` on, if it is not too large to count
/// with.
fn parse_number(s: &[char], from: usize) -> (res: Option<u64>)
    requires
        from <= s@.len(),
        forall|k: int| from <= k < s@.len() ==> is_digit(#[trigger] s@[k]),
    ensures
        match res {
            Some(n) => number_of(s@.skip(from as int)) == n,
            None => number_of(s@.skip(from as int)) > u64::MAX,
        },
{
    let ghost digits = s@.skip(from as int);
    let mut value: u64 = 0;
    let mut i: usize = from;
    assert(digits.take(0) =~= Seq::<char>::empty());
    assert forall|k: int| 0 <= k < digits.len() implies is_digit(#[trigger] digits[k]) by {
        assert(digits[k] == s@[from + k]);
    }
    while i < s.len()
        invariant
            from <= i <= s@.len(),
            digits == s@.skip(from as int),
            forall|k: int| 0 <= k < digits.len() ==> is_digit(#[trigger] digits[k]),
            value == number_of(digits.take(i - from)),
        decreases s@.len() - i,
    {
        let c = s[i];
        proof {
            assert(digits[i - from] == c);
            assert(is_digit(digits[i - from]));
            assert(digits.take(i - from + 1).drop_last() =~= digits.take(i - from));
            assert(digits.take(i - from + 1).last() == c);
            lemma_number_grows(digits, i - from + 1);
        }
        let d: u64 = (c as u32 - '0' as u32) as u64;
        if value > (u64::MAX - d) / 10 {
            return None;
        }
        value = value * 10 + d;
        i = i + 1;
    }
    assert(digits.take(digits.len() as int) =~= digits);
    Some(value)
}

/// Whether `list` are the first free designators from the number of `seed` on, and
/// `after` is `used` with them in it.
pub open spec fn allocates(
    seed: Seq<char>,
    used: Set<Seq<char>>,
    after: Set<Seq<char>>,
    list: Seq<Seq<char>>,
) -> bool {
    match designator_parts(seed) {
        None => false,
        Some((prefix, start)) => {
            &&& exists|numbers: Seq<nat>, end: nat| #[trigger]
                lists_free(prefix, start, end, used, numbers) && list == designators(
                    prefix,
                    numbers,
                )
            &&& after == used.union(list.to_set())
        },
    }
}

/// Whether there are no `count` designators to be had: `seed` carries no number, or
/// too few are free from it on.
pub open spec fn runs_out(seed: Seq<char>, used: Set<Seq<char>>, count: nat) -> bool {
    match designator_parts(seed) {
        None => true,
        Some((prefix, start)) => exists|numbers: Seq<nat>| #[trigger]
            lists_free(prefix, start, u64::MAX as nat, used, numbers) && numbers.len() < count,
    }
}

/// `count` free designators, from the number of `seed_reference` on, and `used`
/// with them in it. A seed that carries no number allocates nothing.
pub fn allocate_references(seed_reference: &str, count: usize, used: &mut NameSet) -> (res: Option<
    Vec<String>,
>)
    ensures
        match res {
            Some(list) => list@.len() == count && allocates(
                seed_reference@,
                old(used)@,
                final(used)@,
                views(list@),
            ),
            None => runs_out(seed_reference@, old(used)@, count as nat) && final(used)@ == old(
                used,
            )@,
        },
{
    let chars = to_chars(seed_reference);
    let s = chars.as_slice();
    let at = find_digits_start(s);
    proof {
        lemma_digits(s@, s@.len() as int);
    }
    if at == s.len() {
        return None;
    }
    let start = match parse_number(s, at) {
        Some(n) => n,
        None => {
            return None;
        },
    };
    let prefix = slice_text(s, 0, at);
    let ghost p = prefix@;
    assert(p =~= seed_reference@.take(at as int));
    let ghost before = used@;
    let mut list: Vec<String> = Vec::new();
    let ghost mut numbers: Seq<nat> = Seq::empty();
    let mut n: u64 = start;
    assert(views(list@) =~= designators(p, numbers));
    while list.len() < count
        invariant
            start <= n,
            p == prefix@,
            used@ == before,
            before == old(used)@,
            list@.len() <= count,
            views(list@) == designators(p, numbers),
            lists_free(p, start as nat, n as nat, before, numbers),
            designator_parts(seed_reference@) == Some((p, start as nat)),
        decreases u64::MAX - n,
    {
        if n == u64::MAX {
            assert(views(list@).len() == designators(p, numbers).len());
            proof {
                lemma_runs_out(seed_reference@, p, start as nat, old(used)@, numbers, count as nat);
            }
            return None;
        }
        let number = decimal_text(n);
        let name = join3(prefix.as_str(), number.as_str(), "");
        proof {
            reveal_strlit("");
            assert(name@ =~= designator(p, n as nat));
        }
        let ghost taken = numbers;
        if !used.contains(name.as_str()) {
            let ghost listed = views(list@);
            list.push(name);
            proof {
                numbers = numbers.push(n as nat);
                assert(views(list@) =~= listed.push(designator(p, n as nat)));
                assert(designators(p, numbers) =~= designators(p, taken).push(
                    designator(p, n as nat),
                ));
            }
        }
        proof {
            lemma_lists_next(p, start as nat, n as nat, before, taken);
        }
        n = n + 1;
    }
    let mut i: usize = 0;
    proof {
        assert(views(list@).take(0).to_set() =~= Set::<Seq<char>>::empty());
        assert(before.union(views(list@).take(0).to_set()) =~= before);
    }
    while i < list.len()
        invariant
            i <= list@.len(),
            used@ == before.union(views(list@).take(i as int).to_set()),
        decreases list@.len() - i,
    {
        used.insert(list[i].clone());
        proof {
            let all = views(list@);
            assert(all.take(i + 1) =~= all.take(i as int).push(all[i as int]));
            lemma_set_push(all.take(i as int), all[i as int]);
            assert(before.union(all.take(i + 1).to_set()) =~= before.union(
                all.take(i as int).to_set(),
            ).insert(all[i as int]));
        }
        i = i + 1;
    }
    assert(views(list@).take(i as int) =~= views(list@));
    proof {
        lemma_allocates(seed_reference@, p, start as nat, n as nat, old(used)@, numbers);
    }
    Some(list)
}

proof fn lemma_runs_out(
    seed: Seq<char>,
    prefix: Seq<char>,
    start: nat,
    used: Set<Seq<char>>,
    numbers: Seq<nat>,
    count: nat,
)
    requires
        designator_parts(seed) == Some((prefix, start)),
        lists_free(prefix, start, u64::MAX as nat, used, numbers),
        numbers.len() < count,
    ensures
        runs_out(seed, used, count),
{
    let parts = designator_parts(seed)->0;
    assert(lists_free(parts.0, parts.1, u64::MAX as nat, used, numbers));
    assert(exists|ns: Seq<nat>| #[trigger]
        lists_free(parts.0, parts.1, u64::MAX as nat, used, ns) && ns.len() < count);
}

proof fn lemma_allocates(
    seed: Seq<char>,
    prefix: Seq<char>,
    start: nat,
    end: nat,
    used: Set<Seq<char>>,
    numbers: Seq<nat>,
)
    requires
        designator_parts(seed) == Some((prefix, start)),
        lists_free(prefix, start, end, used, numbers),
    ensures
        allocates(
            seed,
            used,
            used.union(designators(prefix, numbers).to_set()),
            designators(prefix, numbers),
        ),
{
    let parts = designator_parts(seed)->0;
    let list = designators(prefix, numbers);
    assert(lists_free(parts.0, parts.1, end, used, numbers));
    assert(exists|ns: Seq<nat>, e: nat| #[trigger]
        lists_free(parts.0, parts.1, e, used, ns) && list == designators(parts.0, ns));
}

proof fn lemma_set_push(list: Seq<Seq<char>>, x: Seq<char>)
    ensures
        list.push(x).to_set() == list.to_set().insert(x),
{
    let after = list.push(x);
    assert forall|t: Seq<char>| after.to_set().contains(t) == list.to_set().insert(x).contains(
        t,
    ) by {
        if list.to_set().contains(t) {
            let k = choose|k: int| 0 <= k < list.len() && list[k] == t;
            assert(after[k] == t);
        }
        if after.to_set().contains(t) {
            let k = choose|k: int| 0 <= k < after.len() && after[k] == t;
            if k < list.len() {
                assert(list[k] == t);
            }
        }
        assert(after[list.len() as int] == x);
    }
    assert(after.to_set() =~= list.to_set().insert(x));
}

proof fn lemma_lists_next(
    prefix: Seq<char>,
    start: nat,
    n: nat,
    used: Set<Seq<char>>,
    numbers: Seq<nat>,
)
    requires
        start <= n,
        lists_free(prefix, start, n, used, numbers),
    ensures
        lists_free(
            prefix,
            start,
            n + 1,
            used,
            if used.contains(designator(prefix, n)) {
                numbers
            } else {
                numbers.push(n)
            },
        ),
{
    if !used.contains(designator(prefix, n)) {
        let after = numbers.push(n);
        assert forall|m: nat|
            start <= m < n + 1 && !used.contains(
                #[trigger] designator(prefix, m),
            ) implies after.contains(m) by {
            if m < n {
                let k = choose|k: int| 0 <= k < numbers.len() && numbers[k] == m;
                assert(after[k] == m);
            } else {
                assert(after[numbers.len() as int] == m);
            }
        }
    }
}

fn repeat_text(text: &str, count: usize) -> (res: Vec<String>)
    ensures
        res@.len() == count,
        forall|k: int| 0 <= k < count ==> (#[trigger] res@[k])@ == text@,
{
    let mut out: Vec<String> = Vec::new();
    while out.len() < count
        invariant
            out@.len() <= count,
            forall|k: int| 0 <= k < out@.len() ==> (#[trigger] out@[k])@ == text@,
        decreases count - out@.len(),
    {
        out.push(text.to_string());
    }
    out
}

/// One reference per slot. Single-slot sheets keep the caller's reference
/// verbatim and consume nothing, so the common case is untouched; multi-slot
/// sheets allocate from `used`, reserving as they go. Where nothing can be
/// allocated, every slot gets the caller's reference.
pub fn refs_for_slots(seed_reference: &str, slots: &[InstanceSlot], used: &mut NameSet) -> (res: Vec<
    String,
>)
    ensures
        res@.len() == slots@.len(),
        slots@.len() == 1 ==> res@[0]@ == seed_reference@ && final(used)@ == old(used)@,
        slots@.len() != 1 ==> {
            ||| allocates(seed_reference@, old(used)@, final(used)@, views(res@))
            ||| {
                &&& runs_out(seed_reference@, old(used)@, slots@.len())
                &&& forall|k: int| 0 <= k < res@.len() ==> (#[trigger] res@[k])@ == seed_reference@
                &&& final(used)@ == old(used)@
            }
        },
{
    if slots.len() == 1 {
        return repeat_text(seed_reference, 1);
    }
    match allocate_references(seed_reference, slots.len(), used) {
        Some(list) => list,
        None => repeat_text(seed_reference, slots.len()),
    }
}

/// Allocated designators are distinct, and none of them was in use.
pub proof fn law_allocated_designators_are_fresh(
    prefix: Seq<char>,
    start: nat,
    end: nat,
    used: Set<Seq<char>>,
    numbers: Seq<nat>,
)
    requires
        lists_free(prefix, start, end, used, numbers),
    ensures
        designators(prefix, numbers).no_duplicates(),
        forall|k: int|
            0 <= k < numbers.len() ==> !used.contains(#[trigger] designators(prefix, numbers)[k]),
{
    let list = designators(prefix, numbers);
    assert forall|i: int, j: int| 0 <= i < list.len() && 0 <= j < list.len() && i != j implies list[i]
        != list[j] by {
        assert(list[i] == designator(prefix, numbers[i]));
        assert(list[j] == designator(prefix, numbers[j]));
        if list[i] == list[j] {
            let a = decimal(numbers[i]);
            let b = decimal(numbers[j]);
            assert(a =~= (prefix + a).skip(prefix.len() as int));
            assert(b =~= (prefix + b).skip(prefix.len() as int));
            lemma_number_of_decimal(numbers[i]);
            lemma_number_of_decimal(numbers[j]);
            if i < j {
                assert(numbers[i] < numbers[j]);
            } else {
                assert(numbers[j] < numbers[i]);
            }
        }
    }
}

proof fn lemma_number_of_decimal(n: nat)
    ensures
        number_of(decimal(n)) == n,
    decreases n,
{
    if n < 10 {
        let s = decimal(n);
        assert(s =~= seq![digit(n as int)]);
        assert(s.drop_last() =~= Seq::<char>::empty());
        assert(number_of(s.drop_last()) == 0);
    } else {
        lemma_number_of_decimal(n / 10);
        let s = decimal(n);
        assert(s.drop_last() =~= decimal(n / 10));
    }
}

// ─── Units ───────────────────────────────────────────────────────────────────

/// How many units a symbol has: one where the library does not say.
pub open spec fn units(unit_count: Option<u32>) -> u32 {
    match unit_count {
        Some(n) => n,
        None => 1,
    }
}

/// What is said of a unit that the symbol does not have.
pub open spec fn unit_refusal(unit: u32, lib_id: Seq<char>, unit_count: Option<u32>) -> Option<
    Seq<char>,
> {
    let n = units(unit_count);
    if unit < 1 || unit > n {
        Some(
            "Invalid unit "@ + decimal(unit as nat) + " for '"@ + lib_id + "': the symbol has "@
                + decimal(n as nat) + " unit(s) (valid: 1..="@ + decimal(n as nat) + ")."@,
        )
    } else {
        None
    }
}

/// Validate a unit against the symbol's unit count: eeschema silently renders an
/// out-of-range unit as unit 1 and the netlister mis-assigns its pins.
pub fn check_unit(unit: u32, lib_id: &str, unit_count: Option<u32>) -> (res: Option<String>)
    ensures
        match res {
            Some(text) => unit_refusal(unit, lib_id@, unit_count) == Some(text@),
            None => unit_refusal(unit, lib_id@, unit_count) is None,
        },
{
    let n: u32 = match unit_count {
        Some(count) => count,
        None => 1,
    };
    if unit >= 1 && unit <= n {
        return None;
    }
    let count = decimal_text(n as u64);
    let mut out = to_chars("Invalid unit ");
    append_str(&mut out, decimal_text(unit as u64).as_str());
    append_str(&mut out, " for '");
    append_str(&mut out, lib_id);
    append_str(&mut out, "': the symbol has ");
    append_str(&mut out, count.as_str());
    append_str(&mut out, " unit(s) (valid: 1..=");
    append_str(&mut out, count.as_str());
    append_str(&mut out, ").");
    Some(to_text(out.as_slice()))
}

// ─── One symbol ──────────────────────────────────────────────────────────────

/// Where a property of a symbol stands.
#[derive(Debug, Clone, Copy, PartialEq, Eq, Structural)]
pub enum Anchor {
    /// On the symbol.
    At,
    /// Above it.
    Above,
    /// Below it.
    Below,
}

/// A property of a symbol that is to be placed.
#[derive(Debug)]
pub struct PlannedProperty {
    pub name: String,
    pub value: String,
    pub anchor: Anchor,
    pub hidden: bool,
}

/// A property, as plain values.
pub ghost struct Property {
    pub name: Seq<char>,
    pub value: Seq<char>,
    pub anchor: Anchor,
    pub hidden: bool,
}

impl View for PlannedProperty {
    type V = Property;

    open spec fn view(&self) -> Property {
        Property {
            name: self.name@,
            value: self.value@,
            anchor: self.anchor,
            hidden: self.hidden,
        }
    }
}

/// An instance entry of a symbol that is to be placed.
#[derive(Debug)]
pub struct PlannedInstance {
    pub project: String,
    pub path: String,
    pub reference: String,
}

impl View for PlannedInstance {
    type V = (Seq<char>, Seq<char>, Seq<char>);

    open spec fn view(&self) -> (Seq<char>, Seq<char>, Seq<char>) {
        (self.project@, self.path@, self.reference@)
    }
}

/// A symbol that is to be placed. Its unit is that of each of its instances too.
#[derive(Debug)]
pub struct PlannedSymbol {
    pub reference: String,
    pub value: String,
    pub unit: u32,
    pub properties: Vec<PlannedProperty>,
    pub instances: Vec<PlannedInstance>,
    pub shared_instances: usize,
}

/// A symbol, as plain values.
pub ghost struct Plan {
    pub reference: Seq<char>,
    pub value: Seq<char>,
    pub unit: u32,
    pub properties: Seq<Property>,
    pub instances: Seq<(Seq<char>, Seq<char>, Seq<char>)>,
    pub shared_instances: nat,
}

/// Properties, as plain values.
pub open spec fn property_views(list: Seq<PlannedProperty>) -> Seq<Property> {
    list.map_values(|p: PlannedProperty| p@)
}

/// Instance entries, as plain values.
pub open spec fn instance_views(list: Seq<PlannedInstance>) -> Seq<
    (Seq<char>, Seq<char>, Seq<char>),
> {
    list.map_values(|p: PlannedInstance| p@)
}

impl View for PlannedSymbol {
    type V = Plan;

    open spec fn view(&self) -> Plan {
        Plan {
            reference: self.reference@,
            value: self.value@,
            unit: self.unit,
            properties: property_views(self.properties@),
            instances: instance_views(self.instances@),
            shared_instances: self.shared_instances as nat,
        }
    }
}

/// The symbol's name in its library, which stands for a value that is not given.
pub open spec fn symbol_name(lib_id: Seq<char>) -> Seq<char> {
    match last_char(lib_id, 0, lib_id.len() as int, ':') {
        Some(p) => lib_id.skip(p + 1),
        None => lib_id,
    }
}

/// Whether a symbol's reference is hidden: a power designator is never shown on
/// the sheet.
pub open spec fn hides_reference(lib_id: Seq<char>, reference: Seq<char>) -> bool {
    occurs_at(lib_id, 0, "power:"@) || occurs_at(reference, 0, "#PWR"@)
}

/// One instance entry per slot and reference.
pub open spec fn instance_entries(
    slots: Seq<(Seq<char>, Seq<char>)>,
    refs: Seq<Seq<char>>,
) -> Seq<(Seq<char>, Seq<char>, Seq<char>)> {
    Seq::new(
        if slots.len() <= refs.len() {
            slots.len()
        } else {
            refs.len()
        },
        |i: int| (slots[i].0, slots[i].1, refs[i]),
    )
}

/// The symbol that is to be placed. The first of `refs` becomes its `Reference`
/// property, which KiCad treats as a cache of *one* of its references.
pub open spec fn plan(
    slots: Seq<(Seq<char>, Seq<char>)>,
    refs: Seq<Seq<char>>,
    lib_id: Seq<char>,
    value: Option<Seq<char>>,
    unit: u32,
) -> Plan {
    let reference = if refs.len() > 0 {
        refs[0]
    } else {
        "?"@
    };
    let shown = match value {
        Some(text) => text,
        None => symbol_name(lib_id),
    };
    Plan {
        reference,
        value: shown,
        unit,
        properties: seq![
            Property {
                name: "Reference"@,
                value: reference,
                anchor: Anchor::Above,
                hidden: hides_reference(lib_id, reference),
            },
            Property { name: "Value"@, value: shown, anchor: Anchor::Below, hidden: false },
            Property {
                name: "Footprint"@,
                value: Seq::empty(),
                anchor: Anchor::At,
                hidden: true,
            },
            Property {
                name: "Datasheet"@,
                value: Seq::empty(),
                anchor: Anchor::At,
                hidden: true,
            },
        ],
        instances: instance_entries(slots, refs),
        shared_instances: slots.len(),
    }
}

/// Why a symbol cannot be placed.
#[derive(Debug)]
pub enum PlacementError {
    /// Its definition is not in the libraries.
    NoDefinition,
    /// It has no such unit; the refusal in words.
    InvalidUnit(String),
}

fn planned(name: &str, value: &str, anchor: Anchor, hidden: bool) -> (res: PlannedProperty)
    ensures
        res@ == (Property { name: name@, value: value@, anchor, hidden }),
{
    PlannedProperty { name: name.to_string(), value: value.to_string(), anchor, hidden }
}

fn starts_with(text: &str, prefix: &str) -> (res: bool)
    ensures
        res == occurs_at(text@, 0, prefix@),
{
    matches_at(to_chars(text).as_slice(), 0, to_chars(prefix).as_slice())
}

fn instances_of(slots: &[InstanceSlot], refs: &[String]) -> (res: Vec<PlannedInstance>)
    ensures
        instance_views(res@) == instance_entries(slot_views(slots@), views(refs@)),
{
    let mut out: Vec<PlannedInstance> = Vec::new();
    let ghost all = instance_entries(slot_views(slots@), views(refs@));
    let mut i: usize = 0;
    assert(instance_views(out@) =~= all.take(0));
    while i < slots.len() && i < refs.len()
        invariant
            i <= slots@.len(),
            i <= refs@.len(),
            all == instance_entries(slot_views(slots@), views(refs@)),
            instance_views(out@) == all.take(i as int),
        decreases slots@.len() - i,
    {
        let ghost before = instance_views(out@);
        out.push(
            PlannedInstance {
                project: slots[i].project.clone(),
                path: slots[i].path.clone(),
                reference: refs[i].clone(),
            },
        );
        i = i + 1;
        proof {
            assert(slot_views(slots@)[i - 1] == slots@[i - 1]@);
            assert(views(refs@)[i - 1] == refs@[i - 1]@);
            assert(all.take(i as int) =~= all.take(i - 1).push(all[i - 1]));
            assert(instance_views(out@) =~= before.push(all[i - 1]));
        }
    }
    assert(all.take(i as int) =~= all);
    out
}

/// What is placed for one symbol, at every slot in `slots`; nothing unless its
/// definition could be embedded and it has the unit.
///
/// `refs` is parallel to `slots`.
pub fn place_one_component(
    slots: &[InstanceSlot],
    refs: &[String],
    lib_id: &str,
    value: Option<&str>,
    unit: u32,
    embedded: bool,
    unit_count: Option<u32>,
) -> (res: Result<PlannedSymbol, PlacementError>)
    ensures
        match res {
            Ok(symbol) => {
                &&& embedded
                &&& unit_refusal(unit, lib_id@, unit_count) is None
                &&& symbol@ == plan(
                    slot_views(slots@),
                    views(refs@),
                    lib_id@,
                    match value {
                        Some(text) => Some(text@),
                        None => None,
                    },
                    unit,
                )
            },
            Err(PlacementError::NoDefinition) => !embedded,
            Err(PlacementError::InvalidUnit(text)) => embedded && unit_refusal(
                unit,
                lib_id@,
                unit_count,
            ) == Some(text@),
        },
{
    if !embedded {
        return Err(PlacementError::NoDefinition);
    }
    if let Some(text) = check_unit(unit, lib_id, unit_count) {
        return Err(PlacementError::InvalidUnit(text));
    }
    let reference: String = if refs.len() > 0 {
        refs[0].clone()
    } else {
        "?".to_string()
    };
    let shown: String = match value {
        Some(text) => text.to_string(),
        None => {
            let chars = to_chars(lib_id);
            let len = chars.len();
            proof {
                lemma_last_char(lib_id@, 0, lib_id@.len() as int, ':');
                assert(lib_id@.subrange(0, lib_id@.len() as int) =~= lib_id@);
            }
            match rfind_char(chars.as_slice(), 0, len, ':') {
                Some(p) => {
                    let name = slice_text(chars.as_slice(), p + 1, len);
                    assert(name@ =~= lib_id@.skip(p + 1));
                    name
                },
                None => lib_id.to_string(),
            }
        },
    };
    let hidden = starts_with(lib_id, "power:") || starts_with(reference.as_str(), "#PWR");
    let mut properties: Vec<PlannedProperty> = Vec::new();
    properties.push(planned("Reference", reference.as_str(), Anchor::Above, hidden));
    properties.push(planned("Value", shown.as_str(), Anchor::Below, false));
    properties.push(planned("Footprint", "", Anchor::At, true));
    properties.push(planned("Datasheet", "", Anchor::At, true));
    let symbol = PlannedSymbol {
        reference,
        value: shown,
        unit,
        properties,
        instances: instances_of(slots, refs),
        shared_instances: slots.len(),
    };
    proof {
        reveal_strlit("");
        assert(""@ =~= Seq::<char>::empty());
        assert(views(refs@).len() == refs@.len());
        assert(refs@.len() > 0 ==> views(refs@)[0] == refs@[0]@);
        assert(slot_views(slots@).len() == slots@.len());
        let goal = plan(
            slot_views(slots@),
            views(refs@),
            lib_id@,
            match value {
                Some(text) => Some(text@),
                None => None,
            },
            unit,
        );
        assert(property_views(symbol.properties@) =~= goal.properties);
    }
    Ok(symbol)
}

/// A power symbol's reference is hidden, and its value stays visible.
pub proof fn law_power_references_are_hidden(
    slots: Seq<(Seq<char>, Seq<char>)>,
    refs: Seq<Seq<char>>,
    lib_id: Seq<char>,
    value: Option<Seq<char>>,
    unit: u32,
)
    requires
        occurs_at(lib_id, 0, "power:"@),
    ensures
        plan(slots, refs, lib_id, value, unit).properties[0].hidden,
        plan(slots, refs, lib_id, value, unit).properties[0].name == "Reference"@,
        !plan(slots, refs, lib_id, value, unit).properties[1].hidden,
        plan(slots, refs, lib_id, value, unit).properties[1].name == "Value"@,
{
}

/// A symbol is instantiated at every slot: one entry each, with the slot's own
/// reference.
pub proof fn law_every_slot_gets_an_instance(
    slots: Seq<(Seq<char>, Seq<char>)>,
    refs: Seq<Seq<char>>,
    lib_id: Seq<char>,
    value: Option<Seq<char>>,
    unit: u32,
)
    requires
        refs.len() == slots.len(),
    ensures
        plan(slots, refs, lib_id, value, unit).instances.len() == slots.len(),
        forall|k: int|
            0 <= k < slots.len() ==> #[trigger] plan(slots, refs, lib_id, value, unit).instances[k]
                == (slots[k].0, slots[k].1, refs[k]),
{
}

/// The value that is given is the value that is shown, whatever the library symbol
/// is called.
pub proof fn law_a_given_value_is_shown(
    slots: Seq<(Seq<char>, Seq<char>)>,
    refs: Seq<Seq<char>>,
    lib_id: Seq<char>,
    value: Seq<char>,
    unit: u32,
)
    ensures
        plan(slots, refs, lib_id, Some(value), unit).value == value,
        exists|k: int|
            0 <= k < plan(slots, refs, lib_id, Some(value), unit).properties.len() && {
                let p = #[trigger] plan(slots, refs, lib_id, Some(value), unit).properties[k];
                p.name == "Value"@ && p.value == value && !p.hidden
            },
{
    assert(plan(slots, refs, lib_id, Some(value), unit).properties[1].name == "Value"@);
}

/// Where no value is given, the symbol's name stands for it: the part of the
/// library id behind its last colon, or all of it where it has none.
pub proof fn law_the_symbols_name_stands_for_a_value(
    slots: Seq<(Seq<char>, Seq<char>)>,
    refs: Seq<Seq<char>>,
    lib_id: Seq<char>,
    unit: u32,
    library: Seq<char>,
    name: Seq<char>,
)
    requires
        !name.contains(':'),
    ensures
        lib_id == library.push(':') + name ==> plan(slots, refs, lib_id, None, unit).value == name,
        lib_id == name ==> plan(slots, refs, lib_id, None, unit).value == name,
        exists|k: int|
            0 <= k < plan(slots, refs, lib_id, None, unit).properties.len() && {
                let p = #[trigger] plan(slots, refs, lib_id, None, unit).properties[k];
                p.name == "Value"@ && p.value == plan(slots, refs, lib_id, None, unit).value
                    && !p.hidden
            },
{
    let len = lib_id.len() as int;
    assert(plan(slots, refs, lib_id, None, unit).properties[1].name == "Value"@);
    lemma_last_char(lib_id, 0, len, ':');
    if lib_id == library.push(':') + name {
        let p = library.len() as int;
        assert(lib_id[p] == ':');
        assert forall|k: int| p < k < len implies lib_id[k] != ':' by {
            assert(lib_id[k] == name[k - p - 1]);
        }
        let at = last_char(lib_id, 0, len, ':')->0;
        assert(at == p);
        assert(lib_id.skip(p + 1) =~= name);
    }
    if lib_id == name {
        if let Some(at) = last_char(lib_id, 0, len, ':') {
            assert(name[at] == ':');
        }
    }
}

/// A symbol that is placed has four properties: the first reference above it, its
/// value below it, and a footprint and a datasheet that are empty and hidden. Its
/// reference is hidden exactly where it is a power symbol's; it has the unit that
/// was asked for, and one instance per slot is told.
pub proof fn law_a_placed_symbol_is_what_was_asked_for(
    slots: Seq<(Seq<char>, Seq<char>)>,
    refs: Seq<Seq<char>>,
    lib_id: Seq<char>,
    value: Option<Seq<char>>,
    unit: u32,
)
    ensures
        ({
            let symbol = plan(slots, refs, lib_id, value, unit);
            let ps = symbol.properties;
            &&& refs.len() > 0 ==> symbol.reference == refs[0]
            &&& refs.len() == 0 ==> symbol.reference == seq!['?']
            &&& symbol.unit == unit
            &&& symbol.shared_instances == slots.len()
            &&& ps.len() == 4
            &&& ps[0].name == "Reference"@ && ps[0].value == symbol.reference && ps[0].anchor
                == Anchor::Above
            &&& ps[0].hidden <==> {
                ||| "power:"@.len() <= lib_id.len() && lib_id.take("power:"@.len() as int)
                    == "power:"@
                ||| "#PWR"@.len() <= symbol.reference.len() && symbol.reference.take(
                    "#PWR"@.len() as int,
                ) == "#PWR"@
            }
            &&& ps[1].name == "Value"@ && ps[1].value == symbol.value && ps[1].anchor
                == Anchor::Below && !ps[1].hidden
            &&& ps[2].name == "Footprint"@ && ps[2].value.len() == 0 && ps[2].anchor == Anchor::At
                && ps[2].hidden
            &&& ps[3].name == "Datasheet"@ && ps[3].value.len() == 0 && ps[3].anchor == Anchor::At
                && ps[3].hidden
        }),
{
    reveal_strlit("?");
    assert("?"@ =~= seq!['?']);
}

/// Slots and references are paired one for one, from the first on; where there are
/// more of the one, they get no entry.
pub proof fn law_instances_pair_slots_and_references(
    slots: Seq<(Seq<char>, Seq<char>)>,
    refs: Seq<Seq<char>>,
    lib_id: Seq<char>,
    value: Option<Seq<char>>,
    unit: u32,
    k: int,
)
    ensures
        ({
            let instances = plan(slots, refs, lib_id, value, unit).instances;
            &&& 0 <= k < slots.len() && k < refs.len() <==> 0 <= k < instances.len()
            &&& 0 <= k < instances.len() ==> instances[k].0 == slots[k].0 && instances[k].1
                == slots[k].1 && instances[k].2 == refs[k]
        }),
{
}

/// A unit is accepted exactly where the symbol has it: from one up to its count,
/// which is one where the library does not say.
pub proof fn law_units_run_from_one_to_the_count(
    unit: u32,
    lib_id: Seq<char>,
    unit_count: Option<u32>,
)
    ensures
        unit_count matches Some(n) ==> (unit_refusal(unit, lib_id, unit_count) is None <==> 1
            <= unit <= n),
        unit_count is None ==> (unit_refusal(unit, lib_id, unit_count) is None <==> unit == 1),
{
}

/// A refusal names the unit that was asked for, the library symbol, and how many
/// units it has.
pub proof fn law_a_refusal_states_the_unit_count(
    unit: u32,
    lib_id: Seq<char>,
    unit_count: Option<u32>,
)
    ensures
        unit_refusal(unit, lib_id, unit_count) matches Some(text) ==> {
            let n: nat = match unit_count {
                Some(n) => n as nat,
                None => 1,
            };
            &&& contains_text(text, "Invalid unit "@ + decimal(unit as nat) + " for '"@ + lib_id
                + "'"@)
            &&& contains_text(text, "the symbol has "@ + decimal(n) + " unit(s)"@)
            &&& contains_text(text, "(valid: 1..="@ + decimal(n) + ")"@)
        },
{
    if let Some(text) = unit_refusal(unit, lib_id, unit_count) {
        let n: nat = match unit_count {
            Some(n) => n as nat,
            None => 1,
        };
        let u = decimal(unit as nat);
        let d = decimal(n);
        reveal_strlit("Invalid unit ");
        reveal_strlit(" for '");
        reveal_strlit("'");
        reveal_strlit("': the symbol has ");
        reveal_strlit("the symbol has ");
        reveal_strlit(" unit(s)");
        reveal_strlit(" unit(s) (valid: 1..=");
        reveal_strlit("(valid: 1..=");
        reveal_strlit(").");
        reveal_strlit(")");
        let a = "Invalid unit "@ + u + " for '"@ + lib_id + "'"@;
        assert(text.subrange(0, a.len() as int) =~= a);
        assert(occurs_at(text, 0, a));
        let b = "the symbol has "@ + d + " unit(s)"@;
        let at = a.len() + 2;
        assert(text.subrange(at as int, (at + b.len()) as int) =~= b);
        assert(occurs_at(text, at as int, b));
        let c = "(valid: 1..="@ + d + ")"@;
        let from = at + b.len() + 1;
        assert(text.subrange(from as int, (from + c.len()) as int) =~= c);
        assert(occurs_at(text, from as int, c));
    }
}

// ─── Laws of designators ─────────────────────────────────────────────────────

/// A number is written in decimal digits, without a leading zero, and reads back.
pub proof fn law_a_number_reads_back(n: nat)
    ensures
        number_of(decimal(n)) == n,
        decimal(n).len() > 0,
        forall|k: int| 0 <= k < decimal(n).len() ==> '0' <= #[trigger] decimal(n)[k] <= '9',
        n > 0 ==> decimal(n)[0] != '0',
    decreases n,
{
    lemma_number_of_decimal(n);
    if n >= 10 {
        law_a_number_reads_back(n / 10);
        let front = decimal(n / 10);
        assert forall|k: int| 0 <= k < decimal(n).len() implies '0' <= #[trigger] decimal(n)[k]
            <= '9' by {
            if k < front.len() {
                assert(decimal(n)[k] == front[k]);
            }
        }
        assert(decimal(n)[0] == front[0]);
    }
}

/// What digits write is what place values say: each digit counts ten times what
/// the one behind it does.
pub proof fn law_digits_count_by_tens(front: Seq<char>, c: char)
    requires
        '0' <= c <= '9',
    ensures
        number_of(front.push(c)) == number_of(front) * 10 + (c as int - '0' as int),
        number_of(Seq::<char>::empty()) == 0,
{
    assert(front.push(c).drop_last() =~= front);
}

proof fn lemma_digits_split(prefix: Seq<char>, digits: Seq<char>, to: int)
    requires
        prefix.len() == 0 || !is_digit(prefix.last()),
        forall|k: int| 0 <= k < digits.len() ==> is_digit(#[trigger] digits[k]),
        prefix.len() <= to <= prefix.len() + digits.len(),
    ensures
        digits_start(prefix + digits, to) == prefix.len(),
    decreases to,
{
    let s = prefix + digits;
    if to > prefix.len() {
        assert(s[to - 1] == digits[to - 1 - prefix.len()]);
        lemma_digits_split(prefix, digits, to - 1);
    } else if to > 0 {
        assert(s[to - 1] == prefix.last());
    }
}

/// A designator is taken apart into what stands before its digits and the number
/// that they write; without digits at its end there is nothing to take apart.
pub proof fn law_a_designator_is_taken_apart(prefix: Seq<char>, digits: Seq<char>)
    requires
        prefix.len() == 0 || !('0' <= prefix.last() <= '9'),
        forall|k: int| 0 <= k < digits.len() ==> '0' <= #[trigger] digits[k] <= '9',
    ensures
        digits.len() == 0 ==> designator_parts(prefix + digits) is None,
        digits.len() > 0 && number_of(digits) <= u64::MAX ==> designator_parts(prefix + digits)
            == Some((prefix, number_of(digits))),
        number_of(digits) > u64::MAX ==> designator_parts(prefix + digits) is None,
{
    let s = prefix + digits;
    assert forall|k: int| 0 <= k < digits.len() implies is_digit(#[trigger] digits[k]) by {}
    lemma_digits_split(prefix, digits, s.len() as int);
    assert(s.take(prefix.len() as int) =~= prefix);
    assert(s.skip(prefix.len() as int) =~= digits);
}

/// A seed without a number at its end, such as `?`, allocates nothing.
pub proof fn law_an_unnumbered_seed_allocates_nothing(
    seed: Seq<char>,
    used: Set<Seq<char>>,
    after: Set<Seq<char>>,
    list: Seq<Seq<char>>,
    count: nat,
)
    requires
        seed.len() == 0 || !('0' <= seed.last() <= '9'),
    ensures
        !allocates(seed, used, after, list),
        runs_out(seed, used, count),
{
    let none = Seq::<char>::empty();
    assert(seed + none =~= seed);
    law_a_designator_is_taken_apart(seed, none);
}

/// Allocated designators carry on from the seed: they have its prefix, numbers from
/// its own on in ascending order, were all free, and skip no number that was free.
/// All of them are in use afterwards, and so is what was in use before.
pub proof fn law_designators_carry_on_from_the_seed(
    prefix: Seq<char>,
    digits: Seq<char>,
    used: Set<Seq<char>>,
    after: Set<Seq<char>>,
    list: Seq<Seq<char>>,
) -> (numbers: Seq<nat>)
    requires
        prefix.len() == 0 || !('0' <= prefix.last() <= '9'),
        digits.len() > 0,
        forall|k: int| 0 <= k < digits.len() ==> '0' <= #[trigger] digits[k] <= '9',
        number_of(digits) <= u64::MAX,
        allocates(prefix + digits, used, after, list),
    ensures
        numbers.len() == list.len(),
        forall|k: int|
            0 <= k < list.len() ==> {
                &&& #[trigger] list[k] == prefix + decimal(numbers[k])
                &&& number_of(digits) <= numbers[k]
                &&& !used.contains(list[k])
                &&& after.contains(list[k])
            },
        forall|i: int, j: int| 0 <= i < j < numbers.len() ==> numbers[i] < numbers[j],
        forall|n: nat, k: int|
            0 <= k < list.len() && number_of(digits) <= n < #[trigger] numbers[k]
                && !used.contains(#[trigger] designator(prefix, n)) ==> numbers.contains(n),
        forall|name: Seq<char>| #[trigger]
            after.contains(name) <==> used.contains(name) || list.contains(name),
{
    let seed = prefix + digits;
    law_a_designator_is_taken_apart(prefix, digits);
    let start = number_of(digits);
    let (numbers, end) = choose|numbers: Seq<nat>, end: nat| #[trigger]
        lists_free(prefix, start, end, used, numbers) && list == designators(prefix, numbers);
    assert(lists_free(prefix, start, end, used, numbers));
    assert forall|k: int| 0 <= k < list.len() implies {
        &&& #[trigger] list[k] == prefix + decimal(numbers[k])
        &&& number_of(digits) <= numbers[k]
        &&& !used.contains(list[k])
        &&& after.contains(list[k])
    } by {
        assert(list[k] == designator(prefix, numbers[k]));
        assert(list.to_set().contains(list[k]));
    }
    assert forall|n: nat, k: int|
        0 <= k < list.len() && number_of(digits) <= n < #[trigger] numbers[k] && !used.contains(
            #[trigger] designator(prefix, n),
        ) implies numbers.contains(n) by {
        assert(numbers[k] < end);
    }
    numbers
}

/// A seed that is free and written without leading zeros is the first designator
/// that it allocates.
pub proof fn law_a_free_seed_comes_first(
    prefix: Seq<char>,
    number: nat,
    used: Set<Seq<char>>,
    after: Set<Seq<char>>,
    list: Seq<Seq<char>>,
)
    requires
        prefix.len() == 0 || !('0' <= prefix.last() <= '9'),
        number <= u64::MAX,
        !used.contains(prefix + decimal(number)),
        allocates(prefix + decimal(number), used, after, list),
        list.len() > 0,
    ensures
        list[0] == prefix + decimal(number),
{
    law_a_number_reads_back(number);
    let numbers = law_designators_carry_on_from_the_seed(
        prefix,
        decimal(number),
        used,
        after,
        list,
    );
    assert(list[0] == prefix + decimal(numbers[0]));
    if numbers[0] != number {
        assert(!used.contains(designator(prefix, number)));
        assert(numbers.contains(number));
        let k = choose|k: int| 0 <= k < numbers.len() && numbers[k] == number;
        if k > 0 {
            assert(numbers[0] < numbers[k]);
        }
    }
}

/// Designators run out only where too few are free: with as many free numbers from
/// the seed's own on as are asked for, they do not.
pub proof fn law_free_designators_do_not_run_out(
    prefix: Seq<char>,
    digits: Seq<char>,
    used: Set<Seq<char>>,
    numbers: Seq<nat>,
)
    requires
        prefix.len() == 0 || !('0' <= prefix.last() <= '9'),
        digits.len() > 0,
        forall|k: int| 0 <= k < digits.len() ==> '0' <= #[trigger] digits[k] <= '9',
        forall|k: int|
            0 <= k < numbers.len() ==> number_of(digits) <= #[trigger] numbers[k] < u64::MAX
                && !used.contains(prefix + decimal(numbers[k])),
        numbers.no_duplicates(),
        number_of(digits) <= u64::MAX,
    ensures
        !runs_out(prefix + digits, used, numbers.len()),
{
    law_a_designator_is_taken_apart(prefix, digits);
    let start = number_of(digits);
    if runs_out(prefix + digits, used, numbers.len()) {
        let free = choose|free: Seq<nat>| #[trigger]
            lists_free(prefix, start, u64::MAX as nat, used, free) && free.len() < numbers.len();
        assert forall|n: nat| #[trigger] numbers.to_set().contains(n) implies free.to_set().contains(
            n,
        ) by {
            let k = choose|k: int| 0 <= k < numbers.len() && numbers[k] == n;
            assert(start <= numbers[k] < u64::MAX);
            assert(!used.contains(designator(prefix, n)));
        }
        assert(numbers.to_set().subset_of(free.to_set()));
        numbers.unique_seq_to_set();
        vstd::seq_lib::seq_to_set_is_finite(free);
        vstd::set_lib::lemma_len_subset(numbers.to_set(), free.to_set());
        free.lemma_cardinality_of_set();
    }
}

} // verus!
