//! Adding properties to symbol instances: annotations and groups.

use crate::scan::{child_tagged, find_child, node_text};
use crate::symbols::{
    find_symbol_instance_block, instance_block, item_id, symbol_item_id, ItemError,
};
use crate::text::{append_range, append_str, join3, to_chars, to_text, views};
use vstd::prelude::*;
use vstd::slice::slice_subrange;

verus! {

/// Where a property goes into a symbol block: before its `(instances …)`, or
/// before the closing parenthesis.
pub open spec fn property_place(b: Seq<char>) -> int {
    match child_tagged(b, "instances"@) {
        Some(n) => n.start,
        None => b.len() - 1,
    }
}

/// A hidden property, on lines of its own.
pub open spec fn note_property(key: Seq<char>, value: Seq<char>) -> Seq<char> {
    "    (property \""@ + key + "\" \""@ + value
        + "\"\n      (at 0 0 0)\n      (effects (font (size 1.27 1.27)) (hide yes))\n    )\n    "@
}

/// `s`, with the property in the first placement of `reference`.
pub open spec fn annotated(
    s: Seq<char>,
    reference: Seq<char>,
    key: Seq<char>,
    value: Seq<char>,
) -> Option<Seq<char>> {
    match instance_block(s, reference) {
        None => None,
        Some(n) => {
            let at = n.start + property_place(node_text(s, n));
            Some(s.take(at) + note_property(key, value) + s.skip(at))
        },
    }
}

fn insert_property(content: &str, reference: &str, key: &str, value: &str) -> (res: Option<String>)
    ensures
        match res {
            Some(text) => annotated(content@, reference@, key@, value@) == Some(text@),
            None => annotated(content@, reference@, key@, value@) is None,
        },
{
    let chars = to_chars(content);
    let s = chars.as_slice();
    let len = s.len();
    match find_symbol_instance_block(s, reference) {
        None => None,
        Some(span) => {
            assert(span.end < len);
            let block = slice_subrange(s, span.start, span.end + 1);
            let place = match find_child(block, "instances") {
                Some(child) => child.start,
                None => block.len() - 1,
            };
            let at = span.start + place;
            let mut out: Vec<char> = Vec::new();
            append_range(&mut out, s, 0, at);
            assert(out@ =~= s@.take(at as int));
            let mut note = to_chars("    (property \"");
            append_str(&mut note, key);
            append_str(&mut note, "\" \"");
            append_str(&mut note, value);
            append_str(
                &mut note,
                "\"\n      (at 0 0 0)\n      (effects (font (size 1.27 1.27)) (hide yes))\n    )\n    ",
            );
            append_range(&mut out, note.as_slice(), 0, note.len());
            assert(note@.subrange(0, note@.len() as int) =~= note@);
            append_range(&mut out, s, at, len);
            assert(s@.subrange(at as int, len as int) =~= s@.skip(at as int));
            Some(to_text(out.as_slice()))
        },
    }
}

/// Add a custom property (annotation) to a symbol instance.
pub fn add_component_annotation(content: &str, reference: &str, key: &str, value: &str) -> (res:
    Result<String, String>)
    ensures
        match res {
            Ok(text) => annotated(content@, reference@, key@, value@) == Some(text@),
            Err(why) => annotated(content@, reference@, key@, value@) is None && why@
                == "Component '"@ + reference@ + "' not found"@,
        },
{
    match insert_property(content, reference, key, value) {
        Some(text) => Ok(text),
        None => Err(join3("Component '", reference, "' not found")),
    }
}

// ─── Groups ──────────────────────────────────────────────────────────────────

/// How far a grouping has come: the content, the references that were grouped,
/// and what identifies their symbols.
pub ghost struct GroupState {
    pub content: Seq<char>,
    pub grouped: Seq<Seq<char>>,
    pub item_ids: Seq<Seq<char>>,
}

/// After one more reference. One that no symbol shows is passed over; a symbol
/// that cannot be identified in the schematic as it was, `expected`, ends it.
pub open spec fn group_step(
    expected: Seq<char>,
    state: GroupState,
    reference: Seq<char>,
    group_name: Seq<char>,
) -> Result<GroupState, (Seq<char>, ItemError)> {
    match annotated(state.content, reference, "Group"@, group_name) {
        None => Ok(state),
        Some(content) => match item_id(expected, reference) {
            Ok(id) => Ok(
                GroupState {
                    content,
                    grouped: state.grouped.push(reference),
                    item_ids: state.item_ids.push(id),
                },
            ),
            Err(e) => Err((reference, e)),
        },
    }
}

/// After all of `refs`.
pub open spec fn grouping(
    expected: Seq<char>,
    refs: Seq<Seq<char>>,
    group_name: Seq<char>,
) -> Result<GroupState, (Seq<char>, ItemError)>
    decreases refs.len(),
{
    if refs.len() == 0 {
        Ok(GroupState { content: expected, grouped: Seq::empty(), item_ids: Seq::empty() })
    } else {
        match grouping(expected, refs.drop_last(), group_name) {
            Ok(state) => group_step(expected, state, refs.last(), group_name),
            Err(e) => Err(e),
        }
    }
}

/// What came of a grouping.
#[derive(Debug)]
pub struct Grouping {
    /// The schematic with the group property in each symbol.
    pub content: String,
    /// The references that were grouped.
    pub grouped: Vec<String>,
    /// The UUIDs of their symbols.
    pub item_ids: Vec<String>,
}

impl View for Grouping {
    type V = GroupState;

    open spec fn view(&self) -> GroupState {
        GroupState {
            content: self.content@,
            grouped: views(self.grouped@),
            item_ids: views(self.item_ids@),
        }
    }
}

/// Why components cannot be grouped.
#[derive(Debug)]
pub enum GroupError {
    /// No references were given.
    NoReferences,
    /// The symbol that shows the reference cannot be identified.
    Item { reference: String, error: ItemError },
}

impl GroupError {
    /// The error in words.
    pub fn message(&self) -> (res: String)
        ensures
            match *self {
                GroupError::NoReferences => res@ == "No references provided"@,
                GroupError::Item { reference, error } => res@ == (match error {
                    ItemError::NotFound => "component '"@ + reference@ + "' not found"@,
                    ItemError::Malformed => "component '"@ + reference@ + "' is malformed"@,
                    ItemError::NoUuid => "component '"@ + reference@ + "' has no UUID"@,
                }),
            },
    {
        match self {
            GroupError::NoReferences => "No references provided".to_string(),
            GroupError::Item { reference, error } => error.message(reference.as_str()),
        }
    }
}

/// Add a group property to multiple components.
pub fn group_components(content: &str, refs: &[String], group_name: &str) -> (res: Result<
    Grouping,
    GroupError,
>)
    ensures
        match res {
            Ok(done) => refs@.len() > 0 && grouping(content@, views(refs@), group_name@) == Ok::<
                GroupState,
                (Seq<char>, ItemError),
            >(done@),
            Err(GroupError::NoReferences) => refs@.len() == 0,
            Err(GroupError::Item { reference, error }) => refs@.len() > 0 && grouping(
                content@,
                views(refs@),
                group_name@,
            ) == Err::<GroupState, (Seq<char>, ItemError)>((reference@, error)),
        },
{
    if refs.len() == 0 {
        return Err(GroupError::NoReferences);
    }
    let ghost all = views(refs@);
    let mut done = Grouping {
        content: content.to_string(),
        grouped: Vec::new(),
        item_ids: Vec::new(),
    };
    let mut i: usize = 0;
    proof {
        assert(all.take(0) =~= Seq::<Seq<char>>::empty());
        assert(views(done.grouped@) =~= Seq::<Seq<char>>::empty());
        assert(views(done.item_ids@) =~= Seq::<Seq<char>>::empty());
    }
    while i < refs.len()
        invariant
            i <= refs@.len(),
            refs@.len() > 0,
            all == views(refs@),
            grouping(content@, all.take(i as int), group_name@) == Ok::<
                GroupState,
                (Seq<char>, ItemError),
            >(done@),
        decreases refs@.len() - i,
    {
        let reference = refs[i].as_str();
        proof {
            assert(all.take(i + 1).drop_last() =~= all.take(i as int));
            assert(all.take(i + 1).last() == reference@);
        }
        if let Some(text) = insert_property(done.content.as_str(), reference, "Group", group_name) {
            match symbol_item_id(content, reference) {
                Ok(id) => {
                    let ghost grouped = views(done.grouped@);
                    let ghost ids = views(done.item_ids@);
                    done.content = text;
                    done.grouped.push(reference.to_string());
                    done.item_ids.push(id);
                    assert(views(done.grouped@) =~= grouped.push(reference@));
                    assert(views(done.item_ids@) =~= ids.push(id@));
                },
                Err(error) => {
                    proof {
                        lemma_grouping_stops(content@, all, i + 1, group_name@);
                    }
                    return Err(GroupError::Item { reference: reference.to_string(), error });
                },
            }
        }
        i = i + 1;
    }
    assert(all.take(all.len() as int) =~= all);
    Ok(done)
}

proof fn lemma_grouping_stops(
    expected: Seq<char>,
    refs: Seq<Seq<char>>,
    k: int,
    group_name: Seq<char>,
)
    requires
        0 <= k <= refs.len(),
        grouping(expected, refs.take(k), group_name) is Err,
    ensures
        grouping(expected, refs, group_name) == grouping(expected, refs.take(k), group_name),
    decreases refs.len(),
{
    if k == refs.len() {
        assert(refs.take(k) =~= refs);
    } else {
        assert(refs.drop_last().take(k) =~= refs.take(k));
        lemma_grouping_stops(expected, refs.drop_last(), k, group_name);
    }
}

/// A grouping lists what it grouped: one identified symbol per reference, each of
/// them asked for.
pub proof fn law_grouping_is_listed(
    expected: Seq<char>,
    refs: Seq<Seq<char>>,
    group_name: Seq<char>,
)
    ensures
        grouping(expected, refs, group_name) matches Ok(state) ==> {
            &&& state.grouped.len() == state.item_ids.len()
            &&& state.grouped.len() <= refs.len()
            &&& forall|k: int|
                0 <= k < state.grouped.len() ==> refs.contains(#[trigger] state.grouped[k])
            &&& state.grouped.len() == 0 ==> state.content == expected
        },
    decreases refs.len(),
{
    if refs.len() > 0 {
        let front = refs.drop_last();
        law_grouping_is_listed(expected, front, group_name);
        if let Ok(state) = grouping(expected, refs, group_name) {
            let before = grouping(expected, front, group_name)->Ok_0;
            assert forall|k: int| 0 <= k < state.grouped.len() implies refs.contains(
                #[trigger] state.grouped[k],
            ) by {
                if k < before.grouped.len() {
                    assert(before.grouped[k] == state.grouped[k]);
                    let j = choose|j: int| 0 <= j < front.len() && front[j] == before.grouped[k];
                    assert(refs[j] == state.grouped[k]);
                } else {
                    assert(refs[refs.len() - 1] == state.grouped[k]);
                }
            }
        }
    }
}

} // verus!
