//! Which symbol's pins are reported, and why none are.

use crate::text::{append_str, contains_text, join3, join5, occurs_at, same_text, to_chars, to_text};
use vstd::prelude::*;

verus! {

/// An embedded library symbol.
#[derive(Debug)]
pub struct Definition {
    /// The symbol that it extends, if it is a stub.
    pub extends: Option<String>,
    /// How many pins it has for the instance's unit.
    pub pin_count: usize,
}

/// A placed symbol, with the definition that its schematic embeds for it.
#[derive(Debug)]
pub struct PlacedSymbol {
    pub reference: String,
    /// The name under which its definition is looked up.
    pub definition_name: String,
    pub definition: Option<Definition>,
}

/// The first symbol with the reference.
pub open spec fn first_placed(symbols: Seq<PlacedSymbol>, reference: Seq<char>, from: int) -> Option<
    int,
>
    decreases symbols.len() - from,
{
    if from < 0 || from >= symbols.len() {
        None
    } else if symbols[from].reference@ == reference {
        Some(from)
    } else {
        first_placed(symbols, reference, from + 1)
    }
}

/// Why a symbol has no pins to report.
pub ghost enum Defect {
    /// Its definition is missing.
    Missing(Seq<char>),
    /// Its definition is a stub without pins that extends another symbol.
    Stub(Seq<char>, Seq<char>),
}

/// Why a symbol has no pins to report. A missing definition is an error, not an
/// empty pin list; so is a definition that resolves but has no pins because it is
/// a stub.
pub open spec fn defect(symbol: PlacedSymbol) -> Option<Defect> {
    match symbol.definition {
        None => Some(Defect::Missing(symbol.definition_name@)),
        Some(definition) => match definition.extends {
            Some(parent) => if definition.pin_count == 0 {
                Some(Defect::Stub(symbol.definition_name@, parent@))
            } else {
                None
            },
            None => None,
        },
    }
}

/// A defect in words.
pub open spec fn defect_text(reference: Seq<char>, defect: Defect) -> Seq<char> {
    match defect {
        Defect::Missing(name) => "Component '"@ + reference + "' has no embedded definition for '"@
            + name
            + "' in this schematic's lib_symbols — it was likely added with a lib_id that \
                doesn't exist in the installed libraries, so it is invisible to KiCAD's \
                netlister. Re-add it with a valid lib_id (delete_schematic_component + \
                add_schematic_component)."@,
        Defect::Stub(name, parent) => "Component '"@ + reference
            + "': the embedded definition for '"@ + name + "' is an (extends \""@ + parent
            + "\") stub with no pins of its own. kicad-cli cannot resolve extends stubs (the \
                netlist gets a pinless part). Re-add the component (delete_schematic_component \
                + add_schematic_component) so the definition is embedded in full, or place the \
                parent symbol '"@
            + parent + "' directly."@,
    }
}

/// A defect in the words of a list of components.
pub open spec fn short_defect_text(defect: Defect) -> Seq<char> {
    match defect {
        Defect::Missing(name) => "no embedded definition for '"@ + name
            + "' in lib_symbols — likely added with a nonexistent lib_id"@,
        Defect::Stub(name, parent) => "embedded definition for '"@ + name + "' is an (extends \""@
            + parent
            + "\") stub with no pins — re-add the component so it is embedded in full"@,
    }
}

/// The symbol whose pins are reported for `reference`, or why none are.
pub open spec fn pins_of(symbols: Seq<PlacedSymbol>, reference: Seq<char>) -> Result<
    int,
    Seq<char>,
> {
    match first_placed(symbols, reference, 0) {
        None => Err("Component '"@ + reference + "' not found"@),
        Some(k) => match defect(symbols[k]) {
            None => Ok(k),
            Some(d) => Err(defect_text(reference, d)),
        },
    }
}

/// The same, in the words of a list of components.
pub open spec fn listed_pins_of(symbols: Seq<PlacedSymbol>, reference: Seq<char>) -> Result<
    int,
    Seq<char>,
> {
    match first_placed(symbols, reference, 0) {
        None => Err("not found"@),
        Some(k) => match defect(symbols[k]) {
            None => Ok(k),
            Some(d) => Err(short_defect_text(d)),
        },
    }
}

/// Whether what came out is what should have come out.
pub open spec fn same_pins(res: Result<usize, String>, expected: Result<int, Seq<char>>) -> bool {
    match (res, expected) {
        (Ok(k), Ok(i)) => k == i,
        (Err(why), Err(w)) => why@ == w,
        _ => false,
    }
}

fn find_placed(symbols: &[PlacedSymbol], reference: &str) -> (res: Option<usize>)
    ensures
        match res {
            Some(k) => k < symbols@.len() && first_placed(symbols@, reference@, 0) == Some(k as int),
            None => first_placed(symbols@, reference@, 0) is None,
        },
{
    let mut i: usize = 0;
    while i < symbols.len()
        invariant
            i <= symbols@.len(),
            first_placed(symbols@, reference@, 0) == first_placed(symbols@, reference@, i as int),
        decreases symbols@.len() - i,
    {
        if same_text(symbols[i].reference.as_str(), reference) {
            return Some(i);
        }
        i = i + 1;
    }
    None
}

fn missing_text(reference: &str, name: &str) -> (res: String)
    ensures
        res@ == defect_text(reference@, Defect::Missing(name@)),
{
    join5(
        "Component '",
        reference,
        "' has no embedded definition for '",
        name,
        "' in this schematic's lib_symbols — it was likely added with a lib_id that doesn't \
            exist in the installed libraries, so it is invisible to KiCAD's netlister. Re-add \
            it with a valid lib_id (delete_schematic_component + add_schematic_component).",
    )
}

fn stub_text(reference: &str, name: &str, parent: &str) -> (res: String)
    ensures
        res@ == defect_text(reference@, Defect::Stub(name@, parent@)),
{
    let mut out = to_chars("Component '");
    append_str(&mut out, reference);
    append_str(&mut out, "': the embedded definition for '");
    append_str(&mut out, name);
    append_str(&mut out, "' is an (extends \"");
    append_str(&mut out, parent);
    append_str(
        &mut out,
        "\") stub with no pins of its own. kicad-cli cannot resolve extends stubs (the netlist \
            gets a pinless part). Re-add the component (delete_schematic_component + \
            add_schematic_component) so the definition is embedded in full, or place the parent \
            symbol '",
    );
    append_str(&mut out, parent);
    append_str(&mut out, "' directly.");
    to_text(out.as_slice())
}

/// The symbol whose pins are reported for `reference`, or why none are.
pub fn pin_locations(symbols: &[PlacedSymbol], reference: &str) -> (res: Result<usize, String>)
    ensures
        same_pins(res, pins_of(symbols@, reference@)),
{
    match find_placed(symbols, reference) {
        None => Err(join3("Component '", reference, "' not found")),
        Some(k) => {
            let symbol = &symbols[k];
            let name = symbol.definition_name.as_str();
            match &symbol.definition {
                None => Err(missing_text(reference, name)),
                Some(definition) => match &definition.extends {
                    Some(parent) => {
                        if definition.pin_count == 0 {
                            Err(stub_text(reference, name, parent.as_str()))
                        } else {
                            Ok(k)
                        }
                    },
                    None => Ok(k),
                },
            }
        },
    }
}

fn listed_pin_locations(symbols: &[PlacedSymbol], reference: &str) -> (res: Result<usize, String>)
    ensures
        same_pins(res, listed_pins_of(symbols@, reference@)),
{
    match find_placed(symbols, reference) {
        None => Err("not found".to_string()),
        Some(k) => {
            let symbol = &symbols[k];
            let name = symbol.definition_name.as_str();
            match &symbol.definition {
                None => Err(
                    join3(
                        "no embedded definition for '",
                        name,
                        "' in lib_symbols — likely added with a nonexistent lib_id",
                    ),
                ),
                Some(definition) => match &definition.extends {
                    Some(parent) => {
                        if definition.pin_count == 0 {
                            Err(
                                join5(
                                    "embedded definition for '",
                                    name,
                                    "' is an (extends \"",
                                    parent.as_str(),
                                    "\") stub with no pins — re-add the component so it is \
                                        embedded in full",
                                ),
                            )
                        } else {
                            Ok(k)
                        }
                    },
                    None => Ok(k),
                },
            }
        },
    }
}

/// The symbols whose pins are reported for each of `references`, or why none are.
pub fn batch_pin_locations(symbols: &[PlacedSymbol], references: &[String]) -> (res: Vec<
    Result<usize, String>,
>)
    ensures
        res@.len() == references@.len(),
        forall|k: int|
            0 <= k < references@.len() ==> same_pins(
                #[trigger] res@[k],
                listed_pins_of(symbols@, references@[k]@),
            ),
{
    let mut out: Vec<Result<usize, String>> = Vec::new();
    let mut i: usize = 0;
    while i < references.len()
        invariant
            i <= references@.len(),
            out@.len() == i,
            forall|k: int|
                0 <= k < i ==> same_pins(
                    #[trigger] out@[k],
                    listed_pins_of(symbols@, references@[k]@),
                ),
        decreases references@.len() - i,
    {
        out.push(listed_pin_locations(symbols, references[i].as_str()));
        i = i + 1;
    }
    out
}

/// A component is reported alone exactly where it is reported in a list.
pub proof fn law_list_agrees_with_single(symbols: Seq<PlacedSymbol>, reference: Seq<char>)
    ensures
        pins_of(symbols, reference) is Ok <==> listed_pins_of(symbols, reference) is Ok,
        pins_of(symbols, reference) matches Ok(k) ==> listed_pins_of(symbols, reference) == Ok::<
            int,
            Seq<char>,
        >(k),
{
}

/// Pins are only ever reported from an embedded definition; a definition without
/// pins is reported as empty only where it is no stub.
pub proof fn law_no_silent_empty_pins(symbols: Seq<PlacedSymbol>, reference: Seq<char>)
    ensures
        pins_of(symbols, reference) matches Ok(k) ==> {
            &&& 0 <= k < symbols.len()
            &&& symbols[k].reference@ == reference
            &&& symbols[k].definition matches Some(definition) && (definition.pin_count > 0
                || definition.extends is None)
        },
{
    lemma_first_placed(symbols, reference, 0);
}

proof fn lemma_first_placed(symbols: Seq<PlacedSymbol>, reference: Seq<char>, from: int)
    requires
        0 <= from,
    ensures
        first_placed(symbols, reference, from) matches Some(k) ==> from <= k < symbols.len()
            && symbols[k].reference@ == reference,
    decreases symbols.len() - from,
{
    if from < symbols.len() && symbols[from].reference@ != reference {
        lemma_first_placed(symbols, reference, from + 1);
    }
}

/// Whether a symbol has pins to report: it has a definition, and that is no stub
/// without pins.
pub open spec fn has_pins(symbol: PlacedSymbol) -> bool {
    symbol.definition matches Some(definition) && (definition.extends is None
        || definition.pin_count > 0)
}

/// Of several symbols with the reference the first one counts, and its pins are
/// reported wherever it has any to report, under its own place in the schematic.
pub proof fn law_the_first_symbol_counts(
    symbols: Seq<PlacedSymbol>,
    reference: Seq<char>,
    k: int,
)
    requires
        0 <= k < symbols.len(),
        symbols[k].reference@ == reference,
        forall|i: int| 0 <= i < k ==> (#[trigger] symbols[i]).reference@ != reference,
    ensures
        has_pins(symbols[k]) ==> pins_of(symbols, reference) == Ok::<int, Seq<char>>(k),
        has_pins(symbols[k]) ==> listed_pins_of(symbols, reference) == Ok::<int, Seq<char>>(k),
        !has_pins(symbols[k]) ==> pins_of(symbols, reference) is Err,
        !has_pins(symbols[k]) ==> listed_pins_of(symbols, reference) is Err,
{
    lemma_placed_from(symbols, reference, 0, k);
}

proof fn lemma_placed_from(symbols: Seq<PlacedSymbol>, reference: Seq<char>, from: int, k: int)
    requires
        0 <= from <= k < symbols.len(),
        symbols[k].reference@ == reference,
        forall|i: int| from <= i < k ==> (#[trigger] symbols[i]).reference@ != reference,
    ensures
        first_placed(symbols, reference, from) == Some(k),
    decreases k - from,
{
    if from < k {
        assert(symbols[from].reference@ != reference);
        lemma_placed_from(symbols, reference, from + 1, k);
    }
}

/// A reference that no symbol has is reported as not found, by its name where it
/// was asked for alone.
pub proof fn law_unknown_components_are_not_found(
    symbols: Seq<PlacedSymbol>,
    reference: Seq<char>,
)
    requires
        forall|i: int| 0 <= i < symbols.len() ==> (#[trigger] symbols[i]).reference@ != reference,
    ensures
        pins_of(symbols, reference) == Err::<int, Seq<char>>(
            "Component '"@ + reference + "' not found"@,
        ),
        listed_pins_of(symbols, reference) == Err::<int, Seq<char>>("not found"@),
{
    lemma_first_placed(symbols, reference, 0);
    if first_placed(symbols, reference, 0) is Some {
        let k = first_placed(symbols, reference, 0)->0;
        assert(symbols[k].reference@ != reference);
    }
}

/// What is wrong with a symbol is said of it: which definition is missing, or which
/// one is a stub and what it extends.
pub proof fn law_a_defect_is_named(symbols: Seq<PlacedSymbol>, reference: Seq<char>, k: int)
    requires
        0 <= k < symbols.len(),
        symbols[k].reference@ == reference,
        forall|i: int| 0 <= i < k ==> (#[trigger] symbols[i]).reference@ != reference,
        !has_pins(symbols[k]),
    ensures
        ({
            let name = symbols[k].definition_name@;
            let alone = pins_of(symbols, reference)->Err_0;
            let listed = listed_pins_of(symbols, reference)->Err_0;
            match symbols[k].definition {
                None => {
                    &&& contains_text(
                        alone,
                        "Component '"@ + reference + "' has no embedded definition for '"@ + name
                            + "'"@,
                    )
                    &&& contains_text(listed, "no embedded definition for '"@ + name + "'"@)
                },
                Some(definition) => {
                    let parent = definition.extends->0@;
                    &&& contains_text(
                        alone,
                        "Component '"@ + reference + "': the embedded definition for '"@ + name
                            + "' is an (extends \""@ + parent + "\") stub"@,
                    )
                    &&& contains_text(alone, "parent symbol '"@ + parent + "' directly"@)
                    &&& contains_text(
                        listed,
                        "embedded definition for '"@ + name + "' is an (extends \""@ + parent
                            + "\") stub"@,
                    )
                },
            }
        }),
{
    lemma_placed_from(symbols, reference, 0, k);
    let name = symbols[k].definition_name@;
    let alone = pins_of(symbols, reference)->Err_0;
    let listed = listed_pins_of(symbols, reference)->Err_0;
    match symbols[k].definition {
        None => {
            reveal_strlit("'");
            reveal_strlit(
                "' in this schematic's lib_symbols — it was likely added with a lib_id that \
                doesn't exist in the installed libraries, so it is invisible to KiCAD's \
                netlister. Re-add it with a valid lib_id (delete_schematic_component + \
                add_schematic_component).",
            );
            reveal_strlit("' in lib_symbols — likely added with a nonexistent lib_id");
            let a = "Component '"@ + reference + "' has no embedded definition for '"@ + name
                + "'"@;
            assert(alone.subrange(0, a.len() as int) =~= a);
            assert(occurs_at(alone, 0, a));
            let b = "no embedded definition for '"@ + name + "'"@;
            assert(listed.subrange(0, b.len() as int) =~= b);
            assert(occurs_at(listed, 0, b));
        },
        Some(definition) => {
            let parent = definition.extends->0@;
            reveal_strlit("\") stub");
            reveal_strlit("parent symbol '");
            reveal_strlit("' directly");
            reveal_strlit("' directly.");
            reveal_strlit(
                "\") stub with no pins of its own. kicad-cli cannot resolve extends stubs (the \
                netlist gets a pinless part). Re-add the component (delete_schematic_component \
                + add_schematic_component) so the definition is embedded in full, or place the \
                parent symbol '",
            );
            reveal_strlit(
                "\") stub with no pins — re-add the component so it is embedded in full",
            );
            let a = "Component '"@ + reference + "': the embedded definition for '"@ + name
                + "' is an (extends \""@ + parent + "\") stub"@;
            assert(alone.subrange(0, a.len() as int) =~= a);
            assert(occurs_at(alone, 0, a));
            let c = "parent symbol '"@ + parent + "' directly"@;
            let at = alone.len() - 1 - c.len();
            assert(alone.subrange(at, at + c.len()) =~= c);
            assert(occurs_at(alone, at, c));
            let b = "embedded definition for '"@ + name + "' is an (extends \""@ + parent
                + "\") stub"@;
            assert(listed.subrange(0, b.len() as int) =~= b);
            assert(occurs_at(listed, 0, b));
        },
    }
}

} // verus!
