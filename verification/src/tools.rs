//! The tools that are offered for schematic components, and what they take.

use crate::text::views;
use vstd::prelude::*;

verus! {

/// What a parameter holds.
#[derive(Debug, Clone, Copy, PartialEq, Eq, Structural)]
pub enum ParamKind {
    Text,
    Number,
    Integer,
    /// Key and value pairs.
    Object,
    /// A list of texts.
    TextList,
}

/// A parameter of a tool.
#[derive(Debug)]
pub struct ToolParam {
    pub name: String,
    pub kind: ParamKind,
    pub description: Option<String>,
    pub default: Option<u32>,
}

/// A parameter, as plain values.
pub ghost struct Param {
    pub name: Seq<char>,
    pub kind: ParamKind,
    pub description: Option<Seq<char>>,
    pub default: Option<u32>,
}

impl View for ToolParam {
    type V = Param;

    open spec fn view(&self) -> Param {
        Param {
            name: self.name@,
            kind: self.kind,
            description: match self.description {
                Some(text) => Some(text@),
                None => None,
            },
            default: self.default,
        }
    }
}

/// A tool: its name, what it does, what it takes and what it must be given.
#[derive(Debug)]
pub struct ToolSpec {
    pub name: String,
    pub description: String,
    pub params: Vec<ToolParam>,
    pub required: Vec<String>,
}

/// A tool, as plain values.
pub ghost struct Tool {
    pub name: Seq<char>,
    pub description: Seq<char>,
    pub params: Seq<Param>,
    pub required: Seq<Seq<char>>,
}

/// Parameters, as plain values.
pub open spec fn param_views(list: Seq<ToolParam>) -> Seq<Param> {
    list.map_values(|p: ToolParam| p@)
}

impl View for ToolSpec {
    type V = Tool;

    open spec fn view(&self) -> Tool {
        Tool {
            name: self.name@,
            description: self.description@,
            params: param_views(self.params@),
            required: views(self.required@),
        }
    }
}

/// Tools, as plain values.
pub open spec fn tool_views(list: Seq<ToolSpec>) -> Seq<Tool> {
    list.map_values(|t: ToolSpec| t@)
}

/// A parameter without a description.
pub open spec fn bare(name: Seq<char>, kind: ParamKind) -> Param {
    Param { name, kind, description: None, default: None }
}

/// A parameter with a description.
pub open spec fn described(name: Seq<char>, kind: ParamKind, description: Seq<char>) -> Param {
    Param { name, kind, description: Some(description), default: None }
}

/// A parameter with a description and a default.
pub open spec fn defaulted(
    name: Seq<char>,
    kind: ParamKind,
    description: Seq<char>,
    default: u32,
) -> Param {
    Param { name, kind, description: Some(description), default: Some(default) }
}

fn bare_param(name: &str, kind: ParamKind) -> (res: ToolParam)
    ensures
        res@ == bare(name@, kind),
{
    ToolParam { name: name.to_string(), kind, description: None, default: None }
}

fn described_param(name: &str, kind: ParamKind, description: &str) -> (res: ToolParam)
    ensures
        res@ == described(name@, kind, description@),
{
    ToolParam {
        name: name.to_string(),
        kind,
        description: Some(description.to_string()),
        default: None,
    }
}

fn defaulted_param(name: &str, kind: ParamKind, description: &str, default: u32) -> (res: ToolParam)
    ensures
        res@ == defaulted(name@, kind, description@, default),
{
    ToolParam {
        name: name.to_string(),
        kind,
        description: Some(description.to_string()),
        default: Some(default),
    }
}

/// An empty list of names, or one with one more.
fn with_name(list: Vec<String>, name: &str) -> (res: Vec<String>)
    ensures
        views(res@) == views(list@).push(name@),
{
    let mut out = list;
    let ghost before = out@;
    out.push(name.to_string());
    assert(views(out@) =~= views(before).push(name@));
    out
}

/// A list of parameters with one more.
fn with_param(list: Vec<ToolParam>, param: ToolParam) -> (res: Vec<ToolParam>)
    ensures
        param_views(res@) == param_views(list@).push(param@),
{
    let mut out = list;
    let ghost before = out@;
    out.push(param);
    assert(param_views(out@) =~= param_views(before).push(param@));
    out
}

// ─── The tools ───────────────────────────────────────────────────────────────

/// `create_schematic`.
pub open spec fn create_schematic_tool() -> Tool {
    Tool {
        name: "create_schematic"@,
        description: "Create a new blank .kicad_sch schematic file."@,
        params: seq![
            described("path"@, ParamKind::Text, "Full path for the new .kicad_sch file"@),
        ],
        required: seq!["path"@],
    }
}

fn create_schematic() -> (res: ToolSpec)
    ensures
        res@ == create_schematic_tool(),
{
    let mut params: Vec<ToolParam> = Vec::new();
    params = with_param(
        params,
        described_param("path", ParamKind::Text, "Full path for the new .kicad_sch file"),
    );
    let mut required: Vec<String> = Vec::new();
    required = with_name(required, "path");
    assert(param_views(params@) =~= create_schematic_tool().params);
    assert(views(required@) =~= create_schematic_tool().required);
    ToolSpec {
        name: "create_schematic".to_string(),
        description: "Create a new blank .kicad_sch schematic file.".to_string(),
        params,
        required,
    }
}

/// `add_schematic_component`.
pub open spec fn add_schematic_component_tool() -> Tool {
    Tool {
        name: "add_schematic_component"@,
        description: "Add a symbol from a KiCAD library to the schematic. The symbol is snapped \
            to the 1.27mm schematic grid. Specify position in schematic mm coordinates."@,
        params: seq![
            described("schematic"@, ParamKind::Text, "Path to .kicad_sch file"@),
            described("lib_id"@, ParamKind::Text, "Library:Symbol (e.g. 'Device:R')"@),
            described("x"@, ParamKind::Number, "X position in mm"@),
            described("y"@, ParamKind::Number, "Y position in mm"@),
            defaulted("rotation"@, ParamKind::Number, "Rotation in degrees (0/90/180/270)"@, 0),
            described("reference"@, ParamKind::Text, "Optional override for reference designator"@),
            described("value"@, ParamKind::Text, "Optional override for value field"@),
            defaulted(
                "unit"@,
                ParamKind::Integer,
                "Unit number for multi-unit symbols (gate/part selection). Default 1."@,
                1,
            ),
        ],
        required: seq!["schematic"@, "lib_id"@, "x"@, "y"@],
    }
}

fn add_schematic_component() -> (res: ToolSpec)
    ensures
        res@ == add_schematic_component_tool(),
{
    let mut params: Vec<ToolParam> = Vec::new();
    params = with_param(
        params,
        described_param("schematic", ParamKind::Text, "Path to .kicad_sch file"),
    );
    params = with_param(
        params,
        described_param("lib_id", ParamKind::Text, "Library:Symbol (e.g. 'Device:R')"),
    );
    params = with_param(params, described_param("x", ParamKind::Number, "X position in mm"));
    params = with_param(params, described_param("y", ParamKind::Number, "Y position in mm"));
    params = with_param(
        params,
        defaulted_param("rotation", ParamKind::Number, "Rotation in degrees (0/90/180/270)", 0),
    );
    params = with_param(
        params,
        described_param("reference", ParamKind::Text, "Optional override for reference designator"),
    );
    params = with_param(
        params,
        described_param("value", ParamKind::Text, "Optional override for value field"),
    );
    params = with_param(
        params,
        defaulted_param(
            "unit",
            ParamKind::Integer,
            "Unit number for multi-unit symbols (gate/part selection). Default 1.",
            1,
        ),
    );
    let mut required: Vec<String> = Vec::new();
    required = with_name(required, "schematic");
    required = with_name(required, "lib_id");
    required = with_name(required, "x");
    required = with_name(required, "y");
    assert(param_views(params@) =~= add_schematic_component_tool().params);
    assert(views(required@) =~= add_schematic_component_tool().required);
    ToolSpec {
        name: "add_schematic_component".to_string(),
        description: "Add a symbol from a KiCAD library to the schematic. The symbol is snapped \
            to the 1.27mm schematic grid. Specify position in schematic mm coordinates.".to_string(),
        params,
        required,
    }
}

/// `delete_schematic_component`.
pub open spec fn delete_schematic_component_tool() -> Tool {
    Tool {
        name: "delete_schematic_component"@,
        description: "Remove a symbol instance from the schematic by its reference designator."@,
        params: seq![
            bare("schematic"@, ParamKind::Text),
            described("reference"@, ParamKind::Text, "Reference designator (e.g. 'R1')"@),
        ],
        required: seq!["schematic"@, "reference"@],
    }
}

fn delete_schematic_component() -> (res: ToolSpec)
    ensures
        res@ == delete_schematic_component_tool(),
{
    let mut params: Vec<ToolParam> = Vec::new();
    params = with_param(params, bare_param("schematic", ParamKind::Text));
    params = with_param(
        params,
        described_param("reference", ParamKind::Text, "Reference designator (e.g. 'R1')"),
    );
    let mut required: Vec<String> = Vec::new();
    required = with_name(required, "schematic");
    required = with_name(required, "reference");
    assert(param_views(params@) =~= delete_schematic_component_tool().params);
    assert(views(required@) =~= delete_schematic_component_tool().required);
    ToolSpec {
        name: "delete_schematic_component".to_string(),
        description: "Remove a symbol instance from the schematic by its reference designator.".to_string(),
        params,
        required,
    }
}

/// `edit_schematic_component`.
pub open spec fn edit_schematic_component_tool() -> Tool {
    Tool {
        name: "edit_schematic_component"@,
        description: "Update fields (Reference, Value, Footprint, custom properties) of a \
            symbol instance."@,
        params: seq![
            bare("schematic"@, ParamKind::Text),
            described("reference"@, ParamKind::Text, "Current reference designator"@),
            described("new_reference"@, ParamKind::Text, "New reference designator (optional)"@),
            described("value"@, ParamKind::Text, "New value (optional)"@),
            described("footprint"@, ParamKind::Text, "New footprint (optional)"@),
            described("datasheet"@, ParamKind::Text, "New datasheet URL (optional)"@),
            described(
                "fields"@,
                ParamKind::Object,
                "Additional property fields to set as key:value pairs"@,
            ),
        ],
        required: seq!["schematic"@, "reference"@],
    }
}

fn edit_schematic_component() -> (res: ToolSpec)
    ensures
        res@ == edit_schematic_component_tool(),
{
    let mut params: Vec<ToolParam> = Vec::new();
    params = with_param(params, bare_param("schematic", ParamKind::Text));
    params = with_param(
        params,
        described_param("reference", ParamKind::Text, "Current reference designator"),
    );
    params = with_param(
        params,
        described_param("new_reference", ParamKind::Text, "New reference designator (optional)"),
    );
    params = with_param(params, described_param("value", ParamKind::Text, "New value (optional)"));
    params = with_param(
        params,
        described_param("footprint", ParamKind::Text, "New footprint (optional)"),
    );
    params = with_param(
        params,
        described_param("datasheet", ParamKind::Text, "New datasheet URL (optional)"),
    );
    params = with_param(
        params,
        described_param(
            "fields",
            ParamKind::Object,
            "Additional property fields to set as key:value pairs",
        ),
    );
    let mut required: Vec<String> = Vec::new();
    required = with_name(required, "schematic");
    required = with_name(required, "reference");
    assert(param_views(params@) =~= edit_schematic_component_tool().params);
    assert(views(required@) =~= edit_schematic_component_tool().required);
    ToolSpec {
        name: "edit_schematic_component".to_string(),
        description: "Update fields (Reference, Value, Footprint, custom properties) of a \
            symbol instance.".to_string(),
        params,
        required,
    }
}

/// `get_schematic_component`.
pub open spec fn get_schematic_component_tool() -> Tool {
    Tool {
        name: "get_schematic_component"@,
        description: "Get all properties, position, and pin locations for a symbol instance."@,
        params: seq![
            bare("schematic"@, ParamKind::Text),
            bare("reference"@, ParamKind::Text),
        ],
        required: seq!["schematic"@, "reference"@],
    }
}

fn get_schematic_component() -> (res: ToolSpec)
    ensures
        res@ == get_schematic_component_tool(),
{
    let mut params: Vec<ToolParam> = Vec::new();
    params = with_param(params, bare_param("schematic", ParamKind::Text));
    params = with_param(params, bare_param("reference", ParamKind::Text));
    let mut required: Vec<String> = Vec::new();
    required = with_name(required, "schematic");
    required = with_name(required, "reference");
    assert(param_views(params@) =~= get_schematic_component_tool().params);
    assert(views(required@) =~= get_schematic_component_tool().required);
    ToolSpec {
        name: "get_schematic_component".to_string(),
        description: "Get all properties, position, and pin locations for a symbol instance.".to_string(),
        params,
        required,
    }
}

/// `list_schematic_components`.
pub open spec fn list_schematic_components_tool() -> Tool {
    Tool {
        name: "list_schematic_components"@,
        description: "List all symbol instances in a schematic with their positions, values, \
            footprints, and pin locations."@,
        params: seq![
            bare("schematic"@, ParamKind::Text),
        ],
        required: seq!["schematic"@],
    }
}

fn list_schematic_components() -> (res: ToolSpec)
    ensures
        res@ == list_schematic_components_tool(),
{
    let mut params: Vec<ToolParam> = Vec::new();
    params = with_param(params, bare_param("schematic", ParamKind::Text));
    let mut required: Vec<String> = Vec::new();
    required = with_name(required, "schematic");
    assert(param_views(params@) =~= list_schematic_components_tool().params);
    assert(views(required@) =~= list_schematic_components_tool().required);
    ToolSpec {
        name: "list_schematic_components".to_string(),
        description: "List all symbol instances in a schematic with their positions, values, \
            footprints, and pin locations.".to_string(),
        params,
        required,
    }
}

/// `move_schematic_component`.
pub open spec fn move_schematic_component_tool() -> Tool {
    Tool {
        name: "move_schematic_component"@,
        description: "Move a symbol to a new position. Does NOT adjust connected wires."@,
        params: seq![
            bare("schematic"@, ParamKind::Text),
            bare("reference"@, ParamKind::Text),
            described("x"@, ParamKind::Number, "New X position in mm"@),
            described("y"@, ParamKind::Number, "New Y position in mm"@),
        ],
        required: seq!["schematic"@, "reference"@, "x"@, "y"@],
    }
}

fn move_schematic_component() -> (res: ToolSpec)
    ensures
        res@ == move_schematic_component_tool(),
{
    let mut params: Vec<ToolParam> = Vec::new();
    params = with_param(params, bare_param("schematic", ParamKind::Text));
    params = with_param(params, bare_param("reference", ParamKind::Text));
    params = with_param(params, described_param("x", ParamKind::Number, "New X position in mm"));
    params = with_param(params, described_param("y", ParamKind::Number, "New Y position in mm"));
    let mut required: Vec<String> = Vec::new();
    required = with_name(required, "schematic");
    required = with_name(required, "reference");
    required = with_name(required, "x");
    required = with_name(required, "y");
    assert(param_views(params@) =~= move_schematic_component_tool().params);
    assert(views(required@) =~= move_schematic_component_tool().required);
    ToolSpec {
        name: "move_schematic_component".to_string(),
        description: "Move a symbol to a new position. Does NOT adjust connected wires.".to_string(),
        params,
        required,
    }
}

/// `rotate_schematic_component`.
pub open spec fn rotate_schematic_component_tool() -> Tool {
    Tool {
        name: "rotate_schematic_component"@,
        description: "Rotate a symbol by setting its absolute rotation angle (0/90/180/270)."@,
        params: seq![
            bare("schematic"@, ParamKind::Text),
            bare("reference"@, ParamKind::Text),
            described("rotation"@, ParamKind::Number, "Absolute rotation in degrees"@),
        ],
        required: seq!["schematic"@, "reference"@, "rotation"@],
    }
}

fn rotate_schematic_component() -> (res: ToolSpec)
    ensures
        res@ == rotate_schematic_component_tool(),
{
    let mut params: Vec<ToolParam> = Vec::new();
    params = with_param(params, bare_param("schematic", ParamKind::Text));
    params = with_param(params, bare_param("reference", ParamKind::Text));
    params = with_param(
        params,
        described_param("rotation", ParamKind::Number, "Absolute rotation in degrees"),
    );
    let mut required: Vec<String> = Vec::new();
    required = with_name(required, "schematic");
    required = with_name(required, "reference");
    required = with_name(required, "rotation");
    assert(param_views(params@) =~= rotate_schematic_component_tool().params);
    assert(views(required@) =~= rotate_schematic_component_tool().required);
    ToolSpec {
        name: "rotate_schematic_component".to_string(),
        description: "Rotate a symbol by setting its absolute rotation angle (0/90/180/270).".to_string(),
        params,
        required,
    }
}

/// `move_connected`.
pub open spec fn move_connected_tool() -> Tool {
    Tool {
        name: "move_connected"@,
        description: "Move a symbol and drag everything attached to its pins with it, so the \
            move preserves connectivity instead of silently disconnecting the part. Wire \
            endpoints sitting on a pin follow it (the wire stretches from its far end); \
            net/global/hierarchical labels, no-connect flags and junctions on a pin travel with \
            it. Attachment is exact coincidence, matching KiCAD, so nothing merely near a pin \
            is touched. One exception is reported rather than guessed: a junction where a wire \
            passes *through* the pin point is left in place, because it holds that T together — \
            see junctions_left_behind in the result. Prefer this over move_schematic_component \
            for any symbol that is already wired."@,
        params: seq![
            bare("schematic"@, ParamKind::Text),
            bare("reference"@, ParamKind::Text),
            bare("x"@, ParamKind::Number),
            bare("y"@, ParamKind::Number),
        ],
        required: seq!["schematic"@, "reference"@, "x"@, "y"@],
    }
}

fn move_connected() -> (res: ToolSpec)
    ensures
        res@ == move_connected_tool(),
{
    let mut params: Vec<ToolParam> = Vec::new();
    params = with_param(params, bare_param("schematic", ParamKind::Text));
    params = with_param(params, bare_param("reference", ParamKind::Text));
    params = with_param(params, bare_param("x", ParamKind::Number));
    params = with_param(params, bare_param("y", ParamKind::Number));
    let mut required: Vec<String> = Vec::new();
    required = with_name(required, "schematic");
    required = with_name(required, "reference");
    required = with_name(required, "x");
    required = with_name(required, "y");
    assert(param_views(params@) =~= move_connected_tool().params);
    assert(views(required@) =~= move_connected_tool().required);
    ToolSpec {
        name: "move_connected".to_string(),
        description: "Move a symbol and drag everything attached to its pins with it, so the \
            move preserves connectivity instead of silently disconnecting the part. Wire \
            endpoints sitting on a pin follow it (the wire stretches from its far end); \
            net/global/hierarchical labels, no-connect flags and junctions on a pin travel with \
            it. Attachment is exact coincidence, matching KiCAD, so nothing merely near a pin \
            is touched. One exception is reported rather than guessed: a junction where a wire \
            passes *through* the pin point is left in place, because it holds that T together — \
            see junctions_left_behind in the result. Prefer this over move_schematic_component \
            for any symbol that is already wired.".to_string(),
        params,
        required,
    }
}

/// `move_region`.
pub open spec fn move_region_tool() -> Tool {
    Tool {
        name: "move_region"@,
        description: "Move all symbols within a bounding box by a given offset."@,
        params: seq![
            bare("schematic"@, ParamKind::Text),
            described("x1"@, ParamKind::Number, "Region bounding box min X"@),
            described("y1"@, ParamKind::Number, "Region bounding box min Y"@),
            described("x2"@, ParamKind::Number, "Region bounding box max X"@),
            described("y2"@, ParamKind::Number, "Region bounding box max Y"@),
            described("dx"@, ParamKind::Number, "X offset to move by"@),
            described("dy"@, ParamKind::Number, "Y offset to move by"@),
        ],
        required: seq!["schematic"@, "x1"@, "y1"@, "x2"@, "y2"@, "dx"@, "dy"@],
    }
}

fn move_region() -> (res: ToolSpec)
    ensures
        res@ == move_region_tool(),
{
    let mut params: Vec<ToolParam> = Vec::new();
    params = with_param(params, bare_param("schematic", ParamKind::Text));
    params = with_param(
        params,
        described_param("x1", ParamKind::Number, "Region bounding box min X"),
    );
    params = with_param(
        params,
        described_param("y1", ParamKind::Number, "Region bounding box min Y"),
    );
    params = with_param(
        params,
        described_param("x2", ParamKind::Number, "Region bounding box max X"),
    );
    params = with_param(
        params,
        described_param("y2", ParamKind::Number, "Region bounding box max Y"),
    );
    params = with_param(params, described_param("dx", ParamKind::Number, "X offset to move by"));
    params = with_param(params, described_param("dy", ParamKind::Number, "Y offset to move by"));
    let mut required: Vec<String> = Vec::new();
    required = with_name(required, "schematic");
    required = with_name(required, "x1");
    required = with_name(required, "y1");
    required = with_name(required, "x2");
    required = with_name(required, "y2");
    required = with_name(required, "dx");
    required = with_name(required, "dy");
    assert(param_views(params@) =~= move_region_tool().params);
    assert(views(required@) =~= move_region_tool().required);
    ToolSpec {
        name: "move_region".to_string(),
        description: "Move all symbols within a bounding box by a given offset.".to_string(),
        params,
        required,
    }
}

/// `annotate_schematic`.
pub open spec fn annotate_schematic_tool() -> Tool {
    Tool {
        name: "annotate_schematic"@,
        description: "Run kicad-cli to auto-assign reference designators (R? → R1, U? → U1, \
            etc.)."@,
        params: seq![
            bare("schematic"@, ParamKind::Text),
        ],
        required: seq!["schematic"@],
    }
}

fn annotate_schematic() -> (res: ToolSpec)
    ensures
        res@ == annotate_schematic_tool(),
{
    let mut params: Vec<ToolParam> = Vec::new();
    params = with_param(params, bare_param("schematic", ParamKind::Text));
    let mut required: Vec<String> = Vec::new();
    required = with_name(required, "schematic");
    assert(param_views(params@) =~= annotate_schematic_tool().params);
    assert(views(required@) =~= annotate_schematic_tool().required);
    ToolSpec {
        name: "annotate_schematic".to_string(),
        description: "Run kicad-cli to auto-assign reference designators (R? → R1, U? → U1, \
            etc.).".to_string(),
        params,
        required,
    }
}

/// `get_schematic_pin_locations`.
pub open spec fn get_schematic_pin_locations_tool() -> Tool {
    Tool {
        name: "get_schematic_pin_locations"@,
        description: "Get the exact schematic-space (X,Y) coordinates of every pin on a symbol, \
            accounting for rotation and mirroring. Uses the canonical pin transform. Each pin \
            also reports 'orientation_degrees', the direction leading away from the symbol body \
            (0 = east) — a net label at the pin must read that way or its text runs back over \
            the symbol's pin names — and 'length_mm'."@,
        params: seq![
            bare("schematic"@, ParamKind::Text),
            bare("reference"@, ParamKind::Text),
        ],
        required: seq!["schematic"@, "reference"@],
    }
}

fn get_schematic_pin_locations() -> (res: ToolSpec)
    ensures
        res@ == get_schematic_pin_locations_tool(),
{
    let mut params: Vec<ToolParam> = Vec::new();
    params = with_param(params, bare_param("schematic", ParamKind::Text));
    params = with_param(params, bare_param("reference", ParamKind::Text));
    let mut required: Vec<String> = Vec::new();
    required = with_name(required, "schematic");
    required = with_name(required, "reference");
    assert(param_views(params@) =~= get_schematic_pin_locations_tool().params);
    assert(views(required@) =~= get_schematic_pin_locations_tool().required);
    ToolSpec {
        name: "get_schematic_pin_locations".to_string(),
        description: "Get the exact schematic-space (X,Y) coordinates of every pin on a symbol, \
            accounting for rotation and mirroring. Uses the canonical pin transform. Each pin \
            also reports 'orientation_degrees', the direction leading away from the symbol body \
            (0 = east) — a net label at the pin must read that way or its text runs back over \
            the symbol's pin names — and 'length_mm'.".to_string(),
        params,
        required,
    }
}

/// `batch_get_schematic_pin_locations`.
pub open spec fn batch_get_schematic_pin_locations_tool() -> Tool {
    Tool {
        name: "batch_get_schematic_pin_locations"@,
        description: "Get pin locations for multiple components in a single file read. Reports \
            the same per-pin fields as get_schematic_pin_locations, including \
            'orientation_degrees' and 'length_mm'."@,
        params: seq![
            bare("schematic"@, ParamKind::Text),
            described("references"@, ParamKind::TextList, "List of reference designators"@),
        ],
        required: seq!["schematic"@, "references"@],
    }
}

fn batch_get_schematic_pin_locations() -> (res: ToolSpec)
    ensures
        res@ == batch_get_schematic_pin_locations_tool(),
{
    let mut params: Vec<ToolParam> = Vec::new();
    params = with_param(params, bare_param("schematic", ParamKind::Text));
    params = with_param(
        params,
        described_param("references", ParamKind::TextList, "List of reference designators"),
    );
    let mut required: Vec<String> = Vec::new();
    required = with_name(required, "schematic");
    required = with_name(required, "references");
    assert(param_views(params@) =~= batch_get_schematic_pin_locations_tool().params);
    assert(views(required@) =~= batch_get_schematic_pin_locations_tool().required);
    ToolSpec {
        name: "batch_get_schematic_pin_locations".to_string(),
        description: "Get pin locations for multiple components in a single file read. Reports \
            the same per-pin fields as get_schematic_pin_locations, including \
            'orientation_degrees' and 'length_mm'.".to_string(),
        params,
        required,
    }
}

/// `add_component_annotation`.
pub open spec fn add_component_annotation_tool() -> Tool {
    Tool {
        name: "add_component_annotation"@,
        description: "Add a custom property (annotation) to a symbol instance in the schematic."@,
        params: seq![
            described("schematic"@, ParamKind::Text, "Path to .kicad_sch file"@),
            described("reference"@, ParamKind::Text, "Component reference designator (e.g. 'R1')"@),
            described("key"@, ParamKind::Text, "Property name"@),
            described("value"@, ParamKind::Text, "Property value"@),
        ],
        required: seq!["schematic"@, "reference"@, "key"@, "value"@],
    }
}

fn add_component_annotation() -> (res: ToolSpec)
    ensures
        res@ == add_component_annotation_tool(),
{
    let mut params: Vec<ToolParam> = Vec::new();
    params = with_param(
        params,
        described_param("schematic", ParamKind::Text, "Path to .kicad_sch file"),
    );
    params = with_param(
        params,
        described_param("reference", ParamKind::Text, "Component reference designator (e.g. 'R1')"),
    );
    params = with_param(params, described_param("key", ParamKind::Text, "Property name"));
    params = with_param(params, described_param("value", ParamKind::Text, "Property value"));
    let mut required: Vec<String> = Vec::new();
    required = with_name(required, "schematic");
    required = with_name(required, "reference");
    required = with_name(required, "key");
    required = with_name(required, "value");
    assert(param_views(params@) =~= add_component_annotation_tool().params);
    assert(views(required@) =~= add_component_annotation_tool().required);
    ToolSpec {
        name: "add_component_annotation".to_string(),
        description: "Add a custom property (annotation) to a symbol instance in the \
            schematic.".to_string(),
        params,
        required,
    }
}

/// `group_components`.
pub open spec fn group_components_tool() -> Tool {
    Tool {
        name: "group_components"@,
        description: "Add a group property to multiple components in the schematic."@,
        params: seq![
            described("schematic"@, ParamKind::Text, "Path to .kicad_sch file"@),
            described(
                "references"@,
                ParamKind::TextList,
                "List of reference designators to group"@,
            ),
            described("group_name"@, ParamKind::Text, "Group name to assign"@),
        ],
        required: seq!["schematic"@, "references"@, "group_name"@],
    }
}

fn group_components() -> (res: ToolSpec)
    ensures
        res@ == group_components_tool(),
{
    let mut params: Vec<ToolParam> = Vec::new();
    params = with_param(
        params,
        described_param("schematic", ParamKind::Text, "Path to .kicad_sch file"),
    );
    params = with_param(
        params,
        described_param(
            "references",
            ParamKind::TextList,
            "List of reference designators to group",
        ),
    );
    params = with_param(
        params,
        described_param("group_name", ParamKind::Text, "Group name to assign"),
    );
    let mut required: Vec<String> = Vec::new();
    required = with_name(required, "schematic");
    required = with_name(required, "references");
    required = with_name(required, "group_name");
    assert(param_views(params@) =~= group_components_tool().params);
    assert(views(required@) =~= group_components_tool().required);
    ToolSpec {
        name: "group_components".to_string(),
        description: "Add a group property to multiple components in the schematic.".to_string(),
        params,
        required,
    }
}

/// `replace_component`.
pub open spec fn replace_component_tool() -> Tool {
    Tool {
        name: "replace_component"@,
        description: "Replace a component's lib_id with a new library symbol (swap the \
            component type). The reference is resolved through the symbol's (instances) block \
            as well as its cached Reference property, so a reference that exists only in a \
            sheet instantiated more than once — where one symbol is J2, J3, J4 and J7 at the \
            same time — resolves instead of coming back 'not found'. Because those are one \
            placement, the swap changes all of them; the returned `also_affects` lists the \
            other references and `shared_instances` counts them. The (instances) block itself \
            is preserved untouched."@,
        params: seq![
            described("schematic"@, ParamKind::Text, "Path to .kicad_sch file"@),
            described("reference"@, ParamKind::Text, "Component reference designator (e.g. 'U1')"@),
            described(
                "new_lib_id"@,
                ParamKind::Text,
                "New Library:Symbol identifier (e.g. 'Device:C')"@,
            ),
            described(
                "unit"@,
                ParamKind::Integer,
                "Optional unit number for multi-unit symbols; validated against the new \
                    symbol's unit count. When omitted the existing unit is kept."@,
            ),
        ],
        required: seq!["schematic"@, "reference"@, "new_lib_id"@],
    }
}

fn replace_component() -> (res: ToolSpec)
    ensures
        res@ == replace_component_tool(),
{
    let mut params: Vec<ToolParam> = Vec::new();
    params = with_param(
        params,
        described_param("schematic", ParamKind::Text, "Path to .kicad_sch file"),
    );
    params = with_param(
        params,
        described_param("reference", ParamKind::Text, "Component reference designator (e.g. 'U1')"),
    );
    params = with_param(
        params,
        described_param(
            "new_lib_id",
            ParamKind::Text,
            "New Library:Symbol identifier (e.g. 'Device:C')",
        ),
    );
    params = with_param(
        params,
        described_param(
            "unit",
            ParamKind::Integer,
            "Optional unit number for multi-unit symbols; validated against the new symbol's \
                unit count. When omitted the existing unit is kept.",
        ),
    );
    let mut required: Vec<String> = Vec::new();
    required = with_name(required, "schematic");
    required = with_name(required, "reference");
    required = with_name(required, "new_lib_id");
    assert(param_views(params@) =~= replace_component_tool().params);
    assert(views(required@) =~= replace_component_tool().required);
    ToolSpec {
        name: "replace_component".to_string(),
        description: "Replace a component's lib_id with a new library symbol (swap the \
            component type). The reference is resolved through the symbol's (instances) block \
            as well as its cached Reference property, so a reference that exists only in a \
            sheet instantiated more than once — where one symbol is J2, J3, J4 and J7 at the \
            same time — resolves instead of coming back 'not found'. Because those are one \
            placement, the swap changes all of them; the returned `also_affects` lists the \
            other references and `shared_instances` counts them. The (instances) block itself \
            is preserved untouched.".to_string(),
        params,
        required,
    }
}

/// `get_schematic_view`.
pub open spec fn get_schematic_view_tool() -> Tool {
    Tool {
        name: "get_schematic_view"@,
        description: "Render the schematic to a PNG image (base64-encoded) via kicad-cli."@,
        params: seq![
            bare("schematic"@, ParamKind::Text),
        ],
        required: seq!["schematic"@],
    }
}

fn get_schematic_view() -> (res: ToolSpec)
    ensures
        res@ == get_schematic_view_tool(),
{
    let mut params: Vec<ToolParam> = Vec::new();
    params = with_param(params, bare_param("schematic", ParamKind::Text));
    let mut required: Vec<String> = Vec::new();
    required = with_name(required, "schematic");
    assert(param_views(params@) =~= get_schematic_view_tool().params);
    assert(views(required@) =~= get_schematic_view_tool().required);
    ToolSpec {
        name: "get_schematic_view".to_string(),
        description: "Render the schematic to a PNG image (base64-encoded) via kicad-cli.".to_string(),
        params,
        required,
    }
}

/// The tools that are offered, in order.
pub open spec fn tool_table() -> Seq<Tool> {
    seq![
        create_schematic_tool(),
        add_schematic_component_tool(),
        delete_schematic_component_tool(),
        edit_schematic_component_tool(),
        get_schematic_component_tool(),
        list_schematic_components_tool(),
        move_schematic_component_tool(),
        rotate_schematic_component_tool(),
        move_connected_tool(),
        move_region_tool(),
        annotate_schematic_tool(),
        get_schematic_pin_locations_tool(),
        batch_get_schematic_pin_locations_tool(),
        add_component_annotation_tool(),
        group_components_tool(),
        replace_component_tool(),
        get_schematic_view_tool(),
    ]
}

/// A list of tools with one more.
fn with_tool(list: Vec<ToolSpec>, tool: ToolSpec) -> (res: Vec<ToolSpec>)
    ensures
        tool_views(res@) == tool_views(list@).push(tool@),
{
    let mut out = list;
    let ghost before = out@;
    out.push(tool);
    assert(tool_views(out@) =~= tool_views(before).push(tool@));
    out
}

/// The tools that are offered, in order.
pub fn tools() -> (res: Vec<ToolSpec>)
    ensures
        tool_views(res@) == tool_table(),
{
    let mut all: Vec<ToolSpec> = Vec::new();
    all = with_tool(all, create_schematic());
    all = with_tool(all, add_schematic_component());
    all = with_tool(all, delete_schematic_component());
    all = with_tool(all, edit_schematic_component());
    all = with_tool(all, get_schematic_component());
    all = with_tool(all, list_schematic_components());
    all = with_tool(all, move_schematic_component());
    all = with_tool(all, rotate_schematic_component());
    all = with_tool(all, move_connected());
    all = with_tool(all, move_region());
    all = with_tool(all, annotate_schematic());
    all = with_tool(all, get_schematic_pin_locations());
    all = with_tool(all, batch_get_schematic_pin_locations());
    all = with_tool(all, add_component_annotation());
    all = with_tool(all, group_components());
    all = with_tool(all, replace_component());
    all = with_tool(all, get_schematic_view());
    assert(tool_views(all@) =~= tool_table());
    all
}

/// Whether what a tool must be given is among what it takes.
pub open spec fn takes_what_it_requires(tool: Tool) -> bool {
    forall|j: int| 0 <= j < tool.required.len() ==> takes(tool, #[trigger] tool.required[j])
}

/// Whether a tool takes a parameter of that name.
pub open spec fn takes(tool: Tool, name: Seq<char>) -> bool {
    exists|i: int| 0 <= i < tool.params.len() && (#[trigger] tool.params[i]).name == name
}

proof fn lemma_create_schematic()
    ensures
        takes_what_it_requires(create_schematic_tool()),
{
    let tool = create_schematic_tool();
    assert(tool.params[0].name == tool.required[0]);
    assert forall|j: int| 0 <= j < tool.required.len() implies takes(
        tool,
        #[trigger] tool.required[j],
    ) by {
        assert(takes(tool, tool.required[0]));
    }
}

proof fn lemma_add_schematic_component()
    ensures
        takes_what_it_requires(add_schematic_component_tool()),
{
    let tool = add_schematic_component_tool();
    assert(tool.params[0].name == tool.required[0]);
    assert(tool.params[1].name == tool.required[1]);
    assert(tool.params[2].name == tool.required[2]);
    assert(tool.params[3].name == tool.required[3]);
    assert forall|j: int| 0 <= j < tool.required.len() implies takes(
        tool,
        #[trigger] tool.required[j],
    ) by {
        assert(takes(tool, tool.required[0]));
        assert(takes(tool, tool.required[1]));
        assert(takes(tool, tool.required[2]));
        assert(takes(tool, tool.required[3]));
    }
}

proof fn lemma_delete_schematic_component()
    ensures
        takes_what_it_requires(delete_schematic_component_tool()),
{
    let tool = delete_schematic_component_tool();
    assert(tool.params[0].name == tool.required[0]);
    assert(tool.params[1].name == tool.required[1]);
    assert forall|j: int| 0 <= j < tool.required.len() implies takes(
        tool,
        #[trigger] tool.required[j],
    ) by {
        assert(takes(tool, tool.required[0]));
        assert(takes(tool, tool.required[1]));
    }
}

proof fn lemma_edit_schematic_component()
    ensures
        takes_what_it_requires(edit_schematic_component_tool()),
{
    let tool = edit_schematic_component_tool();
    assert(tool.params[0].name == tool.required[0]);
    assert(tool.params[1].name == tool.required[1]);
    assert forall|j: int| 0 <= j < tool.required.len() implies takes(
        tool,
        #[trigger] tool.required[j],
    ) by {
        assert(takes(tool, tool.required[0]));
        assert(takes(tool, tool.required[1]));
    }
}

proof fn lemma_get_schematic_component()
    ensures
        takes_what_it_requires(get_schematic_component_tool()),
{
    let tool = get_schematic_component_tool();
    assert(tool.params[0].name == tool.required[0]);
    assert(tool.params[1].name == tool.required[1]);
    assert forall|j: int| 0 <= j < tool.required.len() implies takes(
        tool,
        #[trigger] tool.required[j],
    ) by {
        assert(takes(tool, tool.required[0]));
        assert(takes(tool, tool.required[1]));
    }
}

proof fn lemma_list_schematic_components()
    ensures
        takes_what_it_requires(list_schematic_components_tool()),
{
    let tool = list_schematic_components_tool();
    assert(tool.params[0].name == tool.required[0]);
    assert forall|j: int| 0 <= j < tool.required.len() implies takes(
        tool,
        #[trigger] tool.required[j],
    ) by {
        assert(takes(tool, tool.required[0]));
    }
}

proof fn lemma_move_schematic_component()
    ensures
        takes_what_it_requires(move_schematic_component_tool()),
{
    let tool = move_schematic_component_tool();
    assert(tool.params[0].name == tool.required[0]);
    assert(tool.params[1].name == tool.required[1]);
    assert(tool.params[2].name == tool.required[2]);
    assert(tool.params[3].name == tool.required[3]);
    assert forall|j: int| 0 <= j < tool.required.len() implies takes(
        tool,
        #[trigger] tool.required[j],
    ) by {
        assert(takes(tool, tool.required[0]));
        assert(takes(tool, tool.required[1]));
        assert(takes(tool, tool.required[2]));
        assert(takes(tool, tool.required[3]));
    }
}

proof fn lemma_rotate_schematic_component()
    ensures
        takes_what_it_requires(rotate_schematic_component_tool()),
{
    let tool = rotate_schematic_component_tool();
    assert(tool.params[0].name == tool.required[0]);
    assert(tool.params[1].name == tool.required[1]);
    assert(tool.params[2].name == tool.required[2]);
    assert forall|j: int| 0 <= j < tool.required.len() implies takes(
        tool,
        #[trigger] tool.required[j],
    ) by {
        assert(takes(tool, tool.required[0]));
        assert(takes(tool, tool.required[1]));
        assert(takes(tool, tool.required[2]));
    }
}

proof fn lemma_move_connected()
    ensures
        takes_what_it_requires(move_connected_tool()),
{
    let tool = move_connected_tool();
    assert(tool.params[0].name == tool.required[0]);
    assert(tool.params[1].name == tool.required[1]);
    assert(tool.params[2].name == tool.required[2]);
    assert(tool.params[3].name == tool.required[3]);
    assert forall|j: int| 0 <= j < tool.required.len() implies takes(
        tool,
        #[trigger] tool.required[j],
    ) by {
        assert(takes(tool, tool.required[0]));
        assert(takes(tool, tool.required[1]));
        assert(takes(tool, tool.required[2]));
        assert(takes(tool, tool.required[3]));
    }
}

proof fn lemma_move_region()
    ensures
        takes_what_it_requires(move_region_tool()),
{
    let tool = move_region_tool();
    assert(tool.params[0].name == tool.required[0]);
    assert(tool.params[1].name == tool.required[1]);
    assert(tool.params[2].name == tool.required[2]);
    assert(tool.params[3].name == tool.required[3]);
    assert(tool.params[4].name == tool.required[4]);
    assert(tool.params[5].name == tool.required[5]);
    assert(tool.params[6].name == tool.required[6]);
    assert forall|j: int| 0 <= j < tool.required.len() implies takes(
        tool,
        #[trigger] tool.required[j],
    ) by {
        assert(takes(tool, tool.required[0]));
        assert(takes(tool, tool.required[1]));
        assert(takes(tool, tool.required[2]));
        assert(takes(tool, tool.required[3]));
        assert(takes(tool, tool.required[4]));
        assert(takes(tool, tool.required[5]));
        assert(takes(tool, tool.required[6]));
    }
}

proof fn lemma_annotate_schematic()
    ensures
        takes_what_it_requires(annotate_schematic_tool()),
{
    let tool = annotate_schematic_tool();
    assert(tool.params[0].name == tool.required[0]);
    assert forall|j: int| 0 <= j < tool.required.len() implies takes(
        tool,
        #[trigger] tool.required[j],
    ) by {
        assert(takes(tool, tool.required[0]));
    }
}

proof fn lemma_get_schematic_pin_locations()
    ensures
        takes_what_it_requires(get_schematic_pin_locations_tool()),
{
    let tool = get_schematic_pin_locations_tool();
    assert(tool.params[0].name == tool.required[0]);
    assert(tool.params[1].name == tool.required[1]);
    assert forall|j: int| 0 <= j < tool.required.len() implies takes(
        tool,
        #[trigger] tool.required[j],
    ) by {
        assert(takes(tool, tool.required[0]));
        assert(takes(tool, tool.required[1]));
    }
}

proof fn lemma_batch_get_schematic_pin_locations()
    ensures
        takes_what_it_requires(batch_get_schematic_pin_locations_tool()),
{
    let tool = batch_get_schematic_pin_locations_tool();
    assert(tool.params[0].name == tool.required[0]);
    assert(tool.params[1].name == tool.required[1]);
    assert forall|j: int| 0 <= j < tool.required.len() implies takes(
        tool,
        #[trigger] tool.required[j],
    ) by {
        assert(takes(tool, tool.required[0]));
        assert(takes(tool, tool.required[1]));
    }
}

proof fn lemma_add_component_annotation()
    ensures
        takes_what_it_requires(add_component_annotation_tool()),
{
    let tool = add_component_annotation_tool();
    assert(tool.params[0].name == tool.required[0]);
    assert(tool.params[1].name == tool.required[1]);
    assert(tool.params[2].name == tool.required[2]);
    assert(tool.params[3].name == tool.required[3]);
    assert forall|j: int| 0 <= j < tool.required.len() implies takes(
        tool,
        #[trigger] tool.required[j],
    ) by {
        assert(takes(tool, tool.required[0]));
        assert(takes(tool, tool.required[1]));
        assert(takes(tool, tool.required[2]));
        assert(takes(tool, tool.required[3]));
    }
}

proof fn lemma_group_components()
    ensures
        takes_what_it_requires(group_components_tool()),
{
    let tool = group_components_tool();
    assert(tool.params[0].name == tool.required[0]);
    assert(tool.params[1].name == tool.required[1]);
    assert(tool.params[2].name == tool.required[2]);
    assert forall|j: int| 0 <= j < tool.required.len() implies takes(
        tool,
        #[trigger] tool.required[j],
    ) by {
        assert(takes(tool, tool.required[0]));
        assert(takes(tool, tool.required[1]));
        assert(takes(tool, tool.required[2]));
    }
}

proof fn lemma_replace_component()
    ensures
        takes_what_it_requires(replace_component_tool()),
{
    let tool = replace_component_tool();
    assert(tool.params[0].name == tool.required[0]);
    assert(tool.params[1].name == tool.required[1]);
    assert(tool.params[2].name == tool.required[2]);
    assert forall|j: int| 0 <= j < tool.required.len() implies takes(
        tool,
        #[trigger] tool.required[j],
    ) by {
        assert(takes(tool, tool.required[0]));
        assert(takes(tool, tool.required[1]));
        assert(takes(tool, tool.required[2]));
    }
}

proof fn lemma_get_schematic_view()
    ensures
        takes_what_it_requires(get_schematic_view_tool()),
{
    let tool = get_schematic_view_tool();
    assert(tool.params[0].name == tool.required[0]);
    assert forall|j: int| 0 <= j < tool.required.len() implies takes(
        tool,
        #[trigger] tool.required[j],
    ) by {
        assert(takes(tool, tool.required[0]));
    }
}

/// Every tool takes what it must be given.
pub proof fn law_tools_take_what_they_require()
    ensures
        forall|k: int|
            0 <= k < tool_table().len() ==> takes_what_it_requires(#[trigger] tool_table()[k]),
{
    lemma_create_schematic();
    lemma_add_schematic_component();
    lemma_delete_schematic_component();
    lemma_edit_schematic_component();
    lemma_get_schematic_component();
    lemma_list_schematic_components();
    lemma_move_schematic_component();
    lemma_rotate_schematic_component();
    lemma_move_connected();
    lemma_move_region();
    lemma_annotate_schematic();
    lemma_get_schematic_pin_locations();
    lemma_batch_get_schematic_pin_locations();
    lemma_add_component_annotation();
    lemma_group_components();
    lemma_replace_component();
    lemma_get_schematic_view();
    let table = tool_table();
    assert forall|k: int| 0 <= k < table.len() implies takes_what_it_requires(
        #[trigger] table[k],
    ) by {
        assert(table[0] == create_schematic_tool());
        assert(table[1] == add_schematic_component_tool());
        assert(table[2] == delete_schematic_component_tool());
        assert(table[3] == edit_schematic_component_tool());
        assert(table[4] == get_schematic_component_tool());
        assert(table[5] == list_schematic_components_tool());
        assert(table[6] == move_schematic_component_tool());
        assert(table[7] == rotate_schematic_component_tool());
        assert(table[8] == move_connected_tool());
        assert(table[9] == move_region_tool());
        assert(table[10] == annotate_schematic_tool());
        assert(table[11] == get_schematic_pin_locations_tool());
        assert(table[12] == batch_get_schematic_pin_locations_tool());
        assert(table[13] == add_component_annotation_tool());
        assert(table[14] == group_components_tool());
        assert(table[15] == replace_component_tool());
        assert(table[16] == get_schematic_view_tool());
    }
}

} // verus!
