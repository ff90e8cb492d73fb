//! Placing and replacing symbols, and what is told of them.

use konnect::components::{describe_component, list_components, ComponentFields};
use konnect::names::NameSet;
use konnect::pins::{batch_pin_locations, pin_locations, Definition, PlacedSymbol};
use konnect::placement::{
    allocate_references, check_unit, place_one_component, refs_for_slots, sheet_slots_for, Anchor,
    InstanceSlot, PlacementError,
};
use konnect::replace::{other_references, replace_component, symbol_instance_refs};
use konnect::tools::{tools, ParamKind};

/// A sheet instantiated three times in one project and once in another.
const SHARED: &str = "(kicad_sch\n\t(uuid \"a44ef46f\")\n\
\t(symbol\n\t\t(lib_id \"Device:R\")\n\t\t(at 10 10 0)\n\t\t(unit 1)\n\
\t\t(property \"Reference\" \"R4\"\n\t\t\t(at 10 6 0)\n\t\t)\n\
\t\t(instances\n\
\t\t\t(project \"PowerModule\"\n\
\t\t\t\t(path \"/pm/if1\"\n\t\t\t\t\t(reference \"R25\")\n\t\t\t\t\t(unit 1)\n\t\t\t\t)\n\t\t\t)\n\
\t\t\t(project \"ModuleBase\"\n\
\t\t\t\t(path \"/root/if2\"\n\t\t\t\t\t(reference \"R5\")\n\t\t\t\t\t(unit 1)\n\t\t\t\t)\n\
\t\t\t\t(path \"/root/if1\"\n\t\t\t\t\t(reference \"R4\")\n\t\t\t\t\t(unit 1)\n\t\t\t\t)\n\
\t\t\t\t(path \"/root/if9\"\n\t\t\t\t\t(reference \"R5\")\n\t\t\t\t\t(unit 1)\n\t\t\t\t)\n\t\t\t)\n\t\t)\n\t)\n)\n";

fn slots() -> Vec<InstanceSlot> {
    [
        ("ModuleBase", "/root/if1"),
        ("ModuleBase", "/root/if2"),
        ("ModuleBase", "/root/if3"),
        ("PowerModule", "/pm/if1"),
    ]
    .iter()
    .map(|(project, path)| InstanceSlot {
        project: project.to_string(),
        path: path.to_string(),
    })
    .collect()
}

fn used() -> NameSet {
    let mut used = NameSet::new();
    for name in ["R4", "R5", "R6", "R25", "R9"] {
        used.insert(name.to_string());
    }
    used
}

#[test]
fn adding_to_a_shared_sheet_writes_every_instance_path() {
    let slots = slots();
    let mut used = used();
    let refs = refs_for_slots("R7", &slots, &mut used);
    let placed =
        place_one_component(&slots, &refs, "Device:R", Some("100k"), 1, true, Some(1)).unwrap();
    assert_eq!(
        placed.shared_instances, 4,
        "three ModuleBase instantiations plus the stale PowerModule one"
    );
    for p in ["/root/if1", "/root/if2", "/root/if3"] {
        assert!(
            placed.instances.iter().any(|i| i.project == "ModuleBase" && i.path == p),
            "missing ModuleBase path {p}"
        );
    }
    assert!(placed.instances.iter().any(|i| i.project == "PowerModule" && i.path == "/pm/if1"));

    let refs: Vec<&str> = placed.instances.iter().map(|i| i.reference.as_str()).collect();
    assert_eq!(refs.len(), 4);
    for r in &refs {
        assert!(
            !["R4", "R5", "R6", "R25"].contains(r),
            "{r} collides with an existing designator"
        );
    }
    assert_eq!(refs, vec!["R7", "R8", "R10", "R11"]);
    assert!(used.contains("R10"));
    assert_eq!(used.len(), 9);
}

#[test]
fn an_unannotated_add_to_a_shared_sheet_stays_unannotated() {
    let slots = slots();
    let mut used = used();
    let refs = refs_for_slots("?", &slots, &mut used);
    assert_eq!(refs, vec!["?", "?", "?", "?"]);
    assert_eq!(used.len(), 5);
}

#[test]
fn a_sheet_instantiated_once_keeps_the_reference() {
    let one = sheet_slots_for(Vec::new(), "amp", "abc-1");
    assert_eq!(one.len(), 1);
    assert_eq!((one[0].project.as_str(), one[0].path.as_str()), ("amp", "/abc-1"));
    let mut used = used();
    assert_eq!(refs_for_slots("R4", &one, &mut used), vec!["R4"]);
    assert_eq!(used.len(), 5);
    assert_eq!(sheet_slots_for(slots(), "amp", "abc-1").len(), 4);
}

#[test]
fn designators_too_large_to_count_with_are_kept() {
    let mut used = NameSet::new();
    assert_eq!(allocate_references("R99999999999999999999", 2, &mut used), None);
    assert_eq!(allocate_references("R18446744073709551614", 2, &mut used), None);
    assert!(used.is_empty());
    assert_eq!(
        allocate_references("R007", 2, &mut used),
        Some(vec!["R7".to_string(), "R8".to_string()])
    );
}

#[test]
fn add_component_writes_requested_unit() {
    let slots = slots();
    let refs = vec!["U1".to_string()];
    let placed =
        place_one_component(&slots[..1], &refs, "Device:OPAMP_DUAL", None, 3, true, Some(3))
            .expect("unit 3 of a 3-unit part must be accepted");
    assert_eq!(placed.unit, 3, "symbol (unit N) must match the requested unit");
    assert_eq!(placed.value, "OPAMP_DUAL");
}

#[test]
fn add_component_rejects_out_of_range_unit() {
    for bad_unit in [0, 99] {
        let text = check_unit(bad_unit, "Device:OPAMP_DUAL", Some(3))
            .unwrap_or_else(|| panic!("unit {bad_unit} must be rejected"));
        assert!(text.contains("3 unit"), "error must state the unit count: {text}");
    }
    assert_eq!(
        check_unit(2, "Device:R", None).as_deref(),
        Some("Invalid unit 2 for 'Device:R': the symbol has 1 unit(s) (valid: 1..=1)."),
        "unit 2 of a 1-unit symbol must be rejected"
    );
    let refused = place_one_component(&slots(), &[], "Device:R", None, 2, true, Some(1));
    assert!(matches!(refused, Err(PlacementError::InvalidUnit(_))));
    let refused = place_one_component(&slots(), &[], "Device:CP", None, 2, false, None);
    assert!(matches!(refused, Err(PlacementError::NoDefinition)));
}

#[test]
fn add_schematic_component_hides_power_reference() {
    let refs = vec!["#PWR010".to_string()];
    let placed =
        place_one_component(&slots()[..1], &refs, "power:GND", Some("GND"), 1, true, None).unwrap();
    let reference = &placed.properties[0];
    assert_eq!(reference.name, "Reference");
    assert_eq!(reference.value, "#PWR010");
    assert_eq!(reference.anchor, Anchor::Above);
    assert!(reference.hidden);
    let value = &placed.properties[1];
    assert_eq!((value.name.as_str(), value.value.as_str()), ("Value", "GND"));
    assert_eq!(value.anchor, Anchor::Below);
    assert!(!value.hidden, "Value stays visible");
    assert!(placed.properties[2..].iter().all(|p| p.hidden && p.value.is_empty()));
}

#[test]
fn a_plain_symbol_shows_its_reference() {
    let placed = place_one_component(&slots(), &[], "R", None, 1, true, None).unwrap();
    assert_eq!(placed.reference, "?");
    assert_eq!(placed.value, "R");
    assert!(!placed.properties[0].hidden);
    assert!(placed.instances.is_empty());
}

#[test]
fn replace_component_sets_validated_unit() {
    let refused =
        replace_component(SHARED, "R4", "Device:OPAMP_DUAL", Some(99), Some(3)).unwrap_err();
    assert!(refused.contains("3 unit"));

    let done = replace_component(SHARED, "R4", "Device:OPAMP_DUAL", Some(2), Some(3)).unwrap();
    assert!(
        done.content.contains("(unit 2)"),
        "unit must be updated to 2:\n{}",
        done.content
    );
    assert!(
        !done.content.contains("(unit 1)"),
        "no stale (unit 1) may remain in the instance:\n{}",
        done.content
    );
    assert_eq!(done.content.matches("(unit 2)").count(), 5);
    assert_eq!(done.old_lib_id, "Device:R");
}

#[test]
fn a_swap_names_every_other_reference_once() {
    let done = replace_component(SHARED, "R25", "Device:C", None, None).unwrap();
    assert_eq!(done.content, SHARED.replace("Device:R", "Device:C"));
    let others: Vec<(&str, &str, &str)> = done
        .also_affects
        .iter()
        .map(|r| (r.project.as_str(), r.path.as_str(), r.reference.as_str()))
        .collect();
    assert_eq!(
        others,
        vec![("ModuleBase", "/root/if1", "R4"), ("ModuleBase", "/root/if2", "R5")]
    );
}

#[test]
fn a_swap_says_why_it_cannot_be_made() {
    assert_eq!(
        replace_component(SHARED, "R99", "Device:C", None, None).unwrap_err(),
        "Component 'R99' not found"
    );
    let bare = "(kicad_sch (symbol (property \"Reference\" \"R1\")))";
    assert_eq!(
        replace_component(bare, "R1", "Device:C", None, None).unwrap_err(),
        "Could not find lib_id in symbol block"
    );
}

fn placed(reference: &str, name: &str, definition: Option<Definition>) -> PlacedSymbol {
    PlacedSymbol {
        reference: reference.to_string(),
        definition_name: name.to_string(),
        definition,
    }
}

#[test]
fn pin_locations_error_on_extends_stub_with_zero_pins() {
    let stub = Definition { extends: Some("Device:OPAMP_DUAL".to_string()), pin_count: 0 };
    let symbols = [placed("U1", "Device:OPAMP_DERIVED", Some(stub))];
    let text = pin_locations(&symbols, "U1").unwrap_err();
    assert!(text.contains("Device:OPAMP_DERIVED"), "error must name the lib_id: {text}");
    assert!(text.contains("Device:OPAMP_DUAL"), "error must name the extends target: {text}");
    let batch = batch_pin_locations(&symbols, &["U1".to_string()]);
    let err = batch[0].as_ref().unwrap_err();
    assert_eq!(
        err,
        "embedded definition for 'Device:OPAMP_DERIVED' is an (extends \"Device:OPAMP_DUAL\") \
         stub with no pins — re-add the component so it is embedded in full"
    );
}

#[test]
fn pin_locations_error_when_definition_not_embedded() {
    let symbols = [placed("C1", "Device:CP", None)];
    let msg = pin_locations(&symbols, "C1").unwrap_err();
    assert!(msg.contains("Device:CP"));
    assert!(msg.contains("no embedded definition"));
    let batch = batch_pin_locations(&symbols, &["C1".to_string(), "C2".to_string()]);
    assert_eq!(
        batch[0].as_ref().unwrap_err(),
        "no embedded definition for 'Device:CP' in lib_symbols — likely added with a nonexistent lib_id"
    );
    assert_eq!(batch[1].as_ref().unwrap_err(), "not found");
    assert_eq!(pin_locations(&symbols, "C2").unwrap_err(), "Component 'C2' not found");
}

#[test]
fn pins_are_reported_from_the_first_symbol_with_the_reference() {
    let whole = |pins: usize| Some(Definition { extends: None, pin_count: pins });
    let symbols = [placed("U2", "a", whole(1)), placed("U1", "b", whole(0)), placed("U1", "c", None)];
    assert_eq!(pin_locations(&symbols, "U1"), Ok(1));
    assert_eq!(batch_pin_locations(&symbols, &["U2".to_string()]), vec![Ok(0)]);
}

#[test]
fn missing_properties_are_told_as_such() {
    let fields = ComponentFields {
        properties: vec![("Footprint".to_string(), "R_0402".to_string())],
        lib_id: "Device:R".to_string(),
        mirror: Some("xy".to_string()),
        place: (),
        pins: Vec::<u8>::new(),
    };
    let row = describe_component(fields);
    assert_eq!((row.reference.as_str(), row.value.as_str()), ("?", ""));
    assert_eq!((row.footprint.as_str(), row.lib_id.as_str()), ("R_0402", "Device:R"));
    assert!(row.mirror_x && row.mirror_y);
}

#[test]
fn every_property_and_pin_of_a_symbol_is_told() {
    let properties: Vec<(String, String)> = [
        ("Reference", "R1"),
        ("Value", "10k"),
        ("MPN", "RC0402"),
        ("Value", "shadowed"),
    ]
    .iter()
    .map(|(name, value)| (name.to_string(), value.to_string()))
    .collect();
    let fields = ComponentFields {
        properties: properties.clone(),
        lib_id: "Device:R".to_string(),
        mirror: None,
        place: (50.0, 60.0),
        pins: vec![("1", 50.0, 56.19), ("2", 50.0, 63.81)],
    };
    let rows = list_components(vec![fields]);
    assert_eq!(rows.len(), 1);
    assert_eq!((rows[0].reference.as_str(), rows[0].value.as_str()), ("R1", "10k"));
    assert_eq!(rows[0].footprint, "");
    assert_eq!(rows[0].properties, properties);
    assert_eq!(rows[0].place, (50.0, 60.0));
    assert_eq!(rows[0].pins, vec![("1", 50.0, 56.19), ("2", 50.0, 63.81)]);
    assert!(!rows[0].mirror_x && !rows[0].mirror_y);
}

#[test]
fn tools_are_named_apart_and_require_what_they_take() {
    let all = tools();
    assert_eq!(all.len(), 17);
    for (i, tool) in all.iter().enumerate() {
        assert!(all[i + 1..].iter().all(|t| t.name != tool.name), "{}", tool.name);
        for name in &tool.required {
            assert!(tool.params.iter().any(|p| &p.name == name), "{}: {name}", tool.name);
        }
    }
    let add = &all[1];
    assert_eq!(add.name, "add_schematic_component");
    assert_eq!(add.required, vec!["schematic", "lib_id", "x", "y"]);
    assert_eq!(add.params[4].default, Some(0));
    assert_eq!(add.params[7].kind, ParamKind::Integer);
    assert_eq!(all[3].params[6].kind, ParamKind::Object);
    assert!(all[15].description.contains("also_affects"));
}

#[test]
fn instance_entries_are_read_in_file_order() {
    let start = SHARED.find("(symbol").unwrap();
    let entries = symbol_instance_refs(SHARED[start..].trim_end().trim_end_matches(')').trim_end());
    let refs: Vec<&str> = entries.iter().map(|e| e.reference.as_str()).collect();
    assert_eq!(refs, vec!["R25", "R5", "R4", "R5"]);
    assert_eq!((entries[0].project.as_str(), entries[0].path.as_str()), ("PowerModule", "/pm/if1"));
    let rest = other_references(entries, "R4");
    let refs: Vec<&str> = rest.iter().map(|e| e.reference.as_str()).collect();
    assert_eq!(refs, vec!["R5", "R25"]);
    assert!(symbol_instance_refs("(symbol").is_empty());
}
