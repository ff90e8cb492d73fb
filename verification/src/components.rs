//! What is told of a symbol instance.

use crate::text::{find_char, lemma_first_char, same_text, to_chars};
use vstd::prelude::*;

verus! {

/// What a symbol instance carries. `L` says where it stands and how it is turned,
/// `P` what there is to say of a pin.
#[derive(Debug)]
pub struct ComponentFields<L, P> {
    /// Every property, as name and value, in file order.
    pub properties: Vec<(String, String)>,
    pub lib_id: String,
    pub mirror: Option<String>,
    pub place: L,
    pub pins: Vec<P>,
}

/// What is told of a symbol instance.
#[derive(Debug)]
pub struct ComponentRow<L, P> {
    pub reference: String,
    pub value: String,
    pub footprint: String,
    pub lib_id: String,
    pub mirror_x: bool,
    pub mirror_y: bool,
    /// Every property, custom ones too.
    pub properties: Vec<(String, String)>,
    pub place: L,
    pub pins: Vec<P>,
}

/// What is told, as plain values.
pub ghost struct Row<L, P> {
    pub reference: Seq<char>,
    pub value: Seq<char>,
    pub footprint: Seq<char>,
    pub lib_id: Seq<char>,
    pub mirror_x: bool,
    pub mirror_y: bool,
    pub properties: Seq<(Seq<char>, Seq<char>)>,
    pub place: L,
    pub pins: Seq<P>,
}

/// Properties, as plain values.
pub open spec fn property_views(list: Seq<(String, String)>) -> Seq<(Seq<char>, Seq<char>)> {
    list.map_values(|p: (String, String)| (p.0@, p.1@))
}

impl<L, P> View for ComponentRow<L, P> {
    type V = Row<L, P>;

    open spec fn view(&self) -> Row<L, P> {
        Row {
            reference: self.reference@,
            value: self.value@,
            footprint: self.footprint@,
            lib_id: self.lib_id@,
            mirror_x: self.mirror_x,
            mirror_y: self.mirror_y,
            properties: property_views(self.properties@),
            place: self.place,
            pins: self.pins@,
        }
    }
}

/// The value of the first of `properties` with this name, or what stands for it
/// where there is none.
pub open spec fn property_or(
    properties: Seq<(Seq<char>, Seq<char>)>,
    name: Seq<char>,
    other: Seq<char>,
) -> Seq<char>
    decreases properties.len(),
{
    if properties.len() == 0 {
        other
    } else if properties[0].0 == name {
        properties[0].1
    } else {
        property_or(properties.skip(1), name, other)
    }
}

/// Whether a symbol is mirrored along `axis`.
pub open spec fn mirrored(mirror: Option<String>, axis: char) -> bool {
    mirror matches Some(text) && text@.contains(axis)
}

/// What is told of a symbol instance: its properties, all of them, where it
/// stands, and its pins.
pub open spec fn row_of<L, P>(fields: ComponentFields<L, P>) -> Row<L, P> {
    let properties = property_views(fields.properties@);
    Row {
        reference: property_or(properties, "Reference"@, "?"@),
        value: property_or(properties, "Value"@, ""@),
        footprint: property_or(properties, "Footprint"@, ""@),
        lib_id: fields.lib_id@,
        mirror_x: mirrored(fields.mirror, 'x'),
        mirror_y: mirrored(fields.mirror, 'y'),
        properties,
        place: fields.place,
        pins: fields.pins@,
    }
}

fn is_mirrored(mirror: &Option<String>, axis: char) -> (res: bool)
    ensures
        res == mirrored(*mirror, axis),
{
    match mirror {
        Some(text) => {
            let chars = to_chars(text.as_str());
            let len = chars.len();
            proof {
                lemma_first_char(chars@, 0, len as int, axis);
            }
            match find_char(chars.as_slice(), 0, len, axis) {
                Some(at) => {
                    assert(text@[at as int] == axis);
                    true
                },
                None => false,
            }
        },
        None => false,
    }
}

fn copy_property(properties: &Vec<(String, String)>, name: &str, other: &str) -> (res: String)
    ensures
        res@ == property_or(property_views(properties@), name@, other@),
{
    let ghost all = property_views(properties@);
    let mut i: usize = 0;
    assert(all.skip(0) =~= all);
    while i < properties.len()
        invariant
            i <= properties@.len(),
            all == property_views(properties@),
            property_or(all, name@, other@) == property_or(all.skip(i as int), name@, other@),
        decreases properties@.len() - i,
    {
        proof {
            assert(all.skip(i as int)[0] == all[i as int]);
            assert(all.skip(i as int).skip(1) =~= all.skip(i + 1));
        }
        if same_text(properties[i].0.as_str(), name) {
            return properties[i].1.clone();
        }
        i = i + 1;
    }
    other.to_string()
}

/// What is told of a symbol instance.
pub fn describe_component<L, P>(fields: ComponentFields<L, P>) -> (res: ComponentRow<L, P>)
    ensures
        res@ == row_of(fields),
{
    ComponentRow {
        reference: copy_property(&fields.properties, "Reference", "?"),
        value: copy_property(&fields.properties, "Value", ""),
        footprint: copy_property(&fields.properties, "Footprint", ""),
        lib_id: fields.lib_id,
        mirror_x: is_mirrored(&fields.mirror, 'x'),
        mirror_y: is_mirrored(&fields.mirror, 'y'),
        properties: fields.properties,
        place: fields.place,
        pins: fields.pins,
    }
}

/// What is told of every symbol instance, in order.
pub fn list_components<L, P>(all: Vec<ComponentFields<L, P>>) -> (res: Vec<ComponentRow<L, P>>)
    ensures
        res@.len() == all@.len(),
        forall|k: int| 0 <= k < all@.len() ==> (#[trigger] res@[k])@ == row_of(all@[k]),
{
    let ghost given = all@;
    let mut out: Vec<ComponentRow<L, P>> = Vec::new();
    for fields in iter: all.into_iter()
        invariant
            iter.seq() == given,
            out@.len() == iter.index(),
            forall|k: int| 0 <= k < out@.len() ==> (#[trigger] out@[k])@ == row_of(given[k]),
    {
        out.push(describe_component(fields));
    }
    out
}

// ─── Laws ────────────────────────────────────────────────────────────────────

/// What is told as reference, value and footprint is what the property list
/// holds under that name, where it holds one.
pub proof fn law_named_values_are_listed(
    properties: Seq<(Seq<char>, Seq<char>)>,
    name: Seq<char>,
    other: Seq<char>,
)
    ensures
        (exists|k: int| 0 <= k < properties.len() && (#[trigger] properties[k]).0 == name)
            ==> properties.contains((name, property_or(properties, name, other))),
        !(exists|k: int| 0 <= k < properties.len() && (#[trigger] properties[k]).0 == name)
            ==> property_or(properties, name, other) == other,
    decreases properties.len(),
{
    if properties.len() > 0 {
        let rest = properties.skip(1);
        if properties[0].0 == name {
            assert(properties[0] == (name, property_or(properties, name, other)));
        } else {
            law_named_values_are_listed(rest, name, other);
            if exists|k: int| 0 <= k < properties.len() && (#[trigger] properties[k]).0 == name {
                let k = choose|k: int|
                    0 <= k < properties.len() && (#[trigger] properties[k]).0 == name;
                assert(rest[k - 1].0 == name);
                let found = (name, property_or(properties, name, other));
                let j = choose|j: int| 0 <= j < rest.len() && rest[j] == found;
                assert(properties[j + 1] == found);
            } else {
                assert forall|k: int| 0 <= k < rest.len() implies (#[trigger] rest[k]).0
                    != name by {
                    assert(rest[k] == properties[k + 1]);
                }
            }
        }
    }
}

proof fn lemma_first_property(
    properties: Seq<(Seq<char>, Seq<char>)>,
    name: Seq<char>,
    other: Seq<char>,
    k: int,
)
    requires
        0 <= k < properties.len(),
        properties[k].0 == name,
        forall|i: int| 0 <= i < k ==> (#[trigger] properties[i]).0 != name,
    ensures
        property_or(properties, name, other) == properties[k].1,
    decreases k,
{
    if k > 0 {
        let rest = properties.skip(1);
        assert(properties[0].0 != name);
        assert(rest[k - 1] == properties[k]);
        assert forall|i: int| 0 <= i < k - 1 implies (#[trigger] rest[i]).0 != name by {
            assert(rest[i] == properties[i + 1]);
        }
        lemma_first_property(rest, name, other, k - 1);
    }
}

/// What is told of a symbol as its reference, value and footprint is what its first
/// property of that name holds.
pub proof fn law_the_first_property_is_told<L, P>(fields: ComponentFields<L, P>, k: int)
    requires
        0 <= k < fields.properties@.len(),
        forall|i: int|
            0 <= i < k ==> (#[trigger] fields.properties@[i]).0@ != fields.properties@[k].0@,
    ensures
        ({
            let name = fields.properties@[k].0@;
            let value = fields.properties@[k].1@;
            let row = row_of(fields);
            &&& name == "Reference"@ ==> row.reference == value
            &&& name == "Value"@ ==> row.value == value
            &&& name == "Footprint"@ ==> row.footprint == value
        }),
{
    let all = property_views(fields.properties@);
    let name = fields.properties@[k].0@;
    assert(all[k] == (name, fields.properties@[k].1@));
    assert forall|i: int| 0 <= i < k implies (#[trigger] all[i]).0 != name by {
        assert(all[i].0 == fields.properties@[i].0@);
    }
    lemma_first_property(all, name, "?"@, k);
    lemma_first_property(all, name, ""@, k);
}

/// A symbol without a property of that name has no value and no footprint to tell,
/// and a question mark for a reference.
pub proof fn law_what_is_missing_is_told_so<L, P>(fields: ComponentFields<L, P>, name: Seq<char>)
    requires
        forall|i: int|
            0 <= i < fields.properties@.len() ==> (#[trigger] fields.properties@[i]).0@ != name,
    ensures
        name == "Reference"@ ==> row_of(fields).reference == seq!['?'],
        name == "Value"@ ==> row_of(fields).value.len() == 0,
        name == "Footprint"@ ==> row_of(fields).footprint.len() == 0,
{
    let all = property_views(fields.properties@);
    reveal_strlit("?");
    reveal_strlit("");
    assert("?"@ =~= seq!['?']);
    assert forall|i: int| 0 <= i < all.len() implies (#[trigger] all[i]).0 != name by {
        assert(all[i].0 == fields.properties@[i].0@);
    }
    law_named_values_are_listed(all, name, "?"@);
    law_named_values_are_listed(all, name, ""@);
}

/// A symbol is told as mirrored along an axis exactly where its mirror text names
/// that axis: with `x` along x and not along y, with `y` along y and not along x,
/// and without a mirror along neither.
pub proof fn law_mirrors_are_told_by_their_axis<L, P>(fields: ComponentFields<L, P>)
    ensures
        row_of(fields).mirror_x <==> {
            &&& fields.mirror is Some
            &&& exists|k: int|
                0 <= k < (fields.mirror->0)@.len() && #[trigger] (fields.mirror->0)@[k] == 'x'
        },
        row_of(fields).mirror_y <==> {
            &&& fields.mirror is Some
            &&& exists|k: int|
                0 <= k < (fields.mirror->0)@.len() && #[trigger] (fields.mirror->0)@[k] == 'y'
        },
        fields.mirror matches Some(text) ==> {
            &&& text@ == seq!['x'] ==> row_of(fields).mirror_x && !row_of(fields).mirror_y
            &&& text@ == seq!['y'] ==> row_of(fields).mirror_y && !row_of(fields).mirror_x
        },
        fields.mirror is None ==> !row_of(fields).mirror_x && !row_of(fields).mirror_y,
{
    if let Some(text) = fields.mirror {
        if text@ == seq!['x'] {
            assert(text@[0] == 'x');
        }
        if text@ == seq!['y'] {
            assert(text@[0] == 'y');
        }
    }
}

/// The library symbol, the place, the pins and every property are told as they are,
/// in order.
pub proof fn law_the_rest_is_told_as_it_is<L, P>(fields: ComponentFields<L, P>)
    ensures
        row_of(fields).lib_id == fields.lib_id@,
        row_of(fields).place == fields.place,
        row_of(fields).pins == fields.pins@,
        row_of(fields).properties.len() == fields.properties@.len(),
        forall|k: int|
            0 <= k < fields.properties@.len() ==> #[trigger] row_of(fields).properties[k] == (
                fields.properties@[k].0@,
                fields.properties@[k].1@,
            ),
{
}

} // verus!
