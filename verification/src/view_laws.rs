//! What results show as plain values is what they hold.

use crate::annotation::Grouping;
use crate::component_edit::{anchor_view, field_requests, same_outcome, ComponentEdit, CustomField};
use crate::components::ComponentRow;
use crate::live_view::{Action, LiveViewSettings, ViewAction};
use crate::netlist::Netlist;
use crate::pins::same_pins;
use crate::placement::{slot_views, InstanceSlot, PlannedSymbol};
use crate::replace::{InstanceRef, Replaced};
use crate::scan::Span;
use crate::sexp::{lemma_trees, SexpNode, Tree};
use crate::text::views;
use crate::tools::ToolSpec;
use vstd::prelude::*;

verus! {

/// Strings are shown one for one, in order.
pub proof fn law_strings_are_shown_one_for_one(strings: Seq<String>, k: int)
    requires
        0 <= k < strings.len(),
    ensures
        views(strings).len() == strings.len(),
        views(strings)[k] == strings[k]@,
{
}

/// An outcome is the expected one exactly where both succeeded with the same text or
/// both failed for the same reason.
pub proof fn law_outcomes_agree(
    res: Result<String, String>,
    expected: Result<Seq<char>, Seq<char>>,
)
    ensures
        same_outcome(res, expected) ==> (res is Ok <==> expected is Ok),
        res is Ok && expected is Ok ==> (same_outcome(res, expected) <==> (res->Ok_0)@
            == expected->Ok_0),
        res is Err && expected is Err ==> (same_outcome(res, expected) <==> (res->Err_0)@
            == expected->Err_0),
{
}

/// The same holds of the symbol whose pins are reported.
pub proof fn law_reported_pins_agree(
    res: Result<usize, String>,
    expected: Result<int, Seq<char>>,
)
    ensures
        same_pins(res, expected) ==> (res is Ok <==> expected is Ok),
        res is Ok && expected is Ok ==> (same_pins(res, expected) <==> res->Ok_0 == expected->Ok_0),
        res is Err && expected is Err ==> (same_pins(res, expected) <==> (res->Err_0)@
            == expected->Err_0),
{
}

/// A grouping shows its content, the references and the UUIDs that it lists.
pub proof fn law_a_grouping_shows_what_it_holds(done: Grouping)
    ensures
        done@.content == done.content@,
        done@.grouped == views(done.grouped@),
        done@.item_ids == views(done.item_ids@),
{
}

/// An edit shows its designator, its content, and its two lists.
pub proof fn law_an_edit_shows_what_it_holds(edit: ComponentEdit)
    ensures
        edit@.reference == edit.reference@,
        edit@.content == edit.content@,
        edit@.changed == views(edit.changed@),
        edit@.errors == views(edit.errors@),
{
}

/// Custom fields are asked for one for one, each with its own name and value, and all
/// with the anchor that was read.
pub proof fn law_custom_fields_are_asked_for_one_for_one(
    fields: Seq<CustomField>,
    anchor: Option<(String, String)>,
    k: int,
)
    requires
        0 <= k < fields.len(),
    ensures
        field_requests(fields, anchor).len() == fields.len(),
        field_requests(fields, anchor)[k].name == fields[k].name@,
        fields[k].value is None <==> field_requests(fields, anchor)[k].value is None,
        fields[k].value matches Some(text) ==> field_requests(fields, anchor)[k].value == Some(
            text@,
        ),
        field_requests(fields, anchor)[k].anchor == anchor_view(anchor),
        anchor is None <==> anchor_view(anchor) is None,
        anchor matches Some(at) ==> anchor_view(anchor) == Some((at.0@, at.1@)),
{
}

/// A swap shows its content, what the library symbol was, and the other references.
pub proof fn law_a_swap_shows_what_it_holds(done: Replaced, k: int)
    ensures
        done@.content == done.content@,
        done@.old_lib_id == done.old_lib_id@,
        done@.also_affects.len() == done.also_affects@.len(),
        0 <= k < done.also_affects@.len() ==> {
            let entry: InstanceRef = done.also_affects@[k];
            &&& done@.also_affects[k].project == entry.project@
            &&& done@.also_affects[k].path == entry.path@
            &&& done@.also_affects[k].reference == entry.reference@
        },
{
}

/// Settings show their two switches and their address.
pub proof fn law_settings_show_what_they_hold(settings: LiveViewSettings)
    ensures
        settings@.enabled == settings.enabled,
        settings@.reload_open_boards == settings.reload_open_boards,
        settings@.ipc_address == settings.ipc_address@,
{
}

/// An action shows which one it is, and with what.
pub proof fn law_an_action_shows_what_it_is(action: ViewAction)
    ensures
        action is Nothing ==> action@ == Action::Nothing,
        action matches ViewAction::ReloadBoard { ipc_address } ==> action@ == Action::ReloadBoard(
            ipc_address@,
        ),
        action matches ViewAction::PostFocus { reason } ==> action@ == Action::PostFocus(reason@),
{
}

/// A netlist shows its names, the net of each pad, and its references.
pub proof fn law_a_netlist_shows_what_it_holds(netlist: Netlist)
    ensures
        netlist@.nets == views(netlist.nets@),
        netlist@.pads == netlist.pad_nets@,
        netlist@.refs == netlist.refs@,
{
}

/// Slots show their project and their path, in order.
pub proof fn law_slots_show_what_they_hold(slots: Seq<InstanceSlot>, k: int)
    requires
        0 <= k < slots.len(),
    ensures
        slot_views(slots).len() == slots.len(),
        slot_views(slots)[k].0 == slots[k].project@,
        slot_views(slots)[k].1 == slots[k].path@,
{
}

/// A symbol that is to be placed shows all that it is made of, in order.
pub proof fn law_a_planned_symbol_shows_what_it_holds(symbol: PlannedSymbol, k: int)
    ensures
        symbol@.reference == symbol.reference@,
        symbol@.value == symbol.value@,
        symbol@.unit == symbol.unit,
        symbol@.shared_instances == symbol.shared_instances,
        symbol@.properties.len() == symbol.properties@.len(),
        0 <= k < symbol.properties@.len() ==> {
            &&& symbol@.properties[k].name == symbol.properties@[k].name@
            &&& symbol@.properties[k].value == symbol.properties@[k].value@
            &&& symbol@.properties[k].anchor == symbol.properties@[k].anchor
            &&& symbol@.properties[k].hidden == symbol.properties@[k].hidden
        },
        symbol@.instances.len() == symbol.instances@.len(),
        0 <= k < symbol.instances@.len() ==> {
            &&& symbol@.instances[k].0 == symbol.instances@[k].project@
            &&& symbol@.instances[k].1 == symbol.instances@[k].path@
            &&& symbol@.instances[k].2 == symbol.instances@[k].reference@
        },
{
}

/// A tool shows its name, what it does, what it takes and what it must be given.
pub proof fn law_a_tool_shows_what_it_holds(tool: ToolSpec, k: int)
    ensures
        tool@.name == tool.name@,
        tool@.description == tool.description@,
        tool@.required == views(tool.required@),
        tool@.params.len() == tool.params@.len(),
        0 <= k < tool.params@.len() ==> {
            &&& tool@.params[k].name == tool.params@[k].name@
            &&& tool@.params[k].kind == tool.params@[k].kind
            &&& tool@.params[k].default == tool.params@[k].default
            &&& tool.params@[k].description is None <==> tool@.params[k].description is None
            &&& tool.params@[k].description matches Some(text) ==> tool@.params[k].description
                == Some(text@)
        },
{
}

/// What is told of a component shows all that it holds, each under its own name.
pub proof fn law_a_row_shows_what_it_holds<L, P>(row: ComponentRow<L, P>, k: int)
    ensures
        row@.reference == row.reference@,
        row@.value == row.value@,
        row@.footprint == row.footprint@,
        row@.lib_id == row.lib_id@,
        row@.mirror_x == row.mirror_x,
        row@.mirror_y == row.mirror_y,
        row@.place == row.place,
        row@.pins == row.pins@,
        row@.properties.len() == row.properties@.len(),
        0 <= k < row.properties@.len() ==> row@.properties[k].0 == row.properties@[k].0@
            && row@.properties[k].1 == row.properties@[k].1@,
{
}

/// A located list shows where it opens and where it closes.
pub proof fn law_a_span_shows_where_it_stands(span: Span)
    ensures
        span@.start == span.start,
        span@.end == span.end,
{
}

/// A parsed expression shows what it is: an atom, a text, or a list of what its items
/// show, in order.
pub proof fn law_a_parsed_node_shows_what_it_is(node: SexpNode)
    ensures
        node matches SexpNode::Atom(text) ==> node@ == Tree::Atom(text@),
        node matches SexpNode::Str(text) ==> node@ == Tree::Text(text@),
        node matches SexpNode::List(items) ==> node@ is List && (node@->List_0).len()
            == items@.len() && forall|k: int|
            0 <= k < items@.len() ==> (node@->List_0)[k] == (#[trigger] items@[k])@,
{
    if let SexpNode::List(items) = node {
        lemma_trees(items@);
    }
}

} // verus!
