//! Editing the properties of a symbol instance.

use konnect::annotation::{add_component_annotation, group_components, GroupError};
use konnect::component_edit::{
    append_property, is_reserved_property, placement_tokens, property_exists, rename_placements,
    rewrite_instance_references, update_field, ComponentEdit, CustomField, EditRequest,
};
use konnect::replace::replace_component;
use konnect::sexp::{parse_sexp, SexpNode};
use konnect::symbols::{find_symbol_instance_block, symbol_item_id, symbol_item_ids, ItemError};

/// One R1, with an instances path, as eeschema writes it.
const SCH: &str = "(kicad_sch\n\t(version 20250610)\n\t(generator \"eeschema\")\n\t(uuid \"root\")\n\t(lib_symbols\n\t\t(symbol \"Device:R\"\n\t\t\t(property \"Reference\" \"R\" (at 0 0 0))\n\t\t)\n\t)\n\t(symbol\n\t\t(lib_id \"Device:R\")\n\t\t(at 50 60 0)\n\t\t(unit 1)\n\t\t(uuid \"sym-1\")\n\t\t(property \"Reference\" \"R1\"\n\t\t\t(at 52 58 0)\n\t\t)\n\t\t(property \"Value\" \"10k\"\n\t\t\t(at 52 62 0)\n\t\t)\n\t\t(instances\n\t\t\t(project \"proj\"\n\t\t\t\t(path \"/root\"\n\t\t\t\t\t(reference \"R1\") (unit 1)\n\t\t\t\t)\n\t\t\t)\n\t\t)\n\t)\n\t(sheet_instances\n\t\t(path \"/\" (page \"1\"))\n\t)\n)\n";

/// Two units of one part.
const UNITS: &str = "(kicad_sch\n\t(symbol (uuid \"u-1\") (property \"Reference\" \"U1\") (instances (project \"p\" (path \"/\" (reference \"U1\") (unit 1)))))\n\t(symbol (uuid \"u-2\") (property \"Reference\" \"U1\") (instances (project \"p\" (path \"/\" (reference \"U1\") (unit 2)))))\n\t(symbol (uuid \"u-3\") (property \"Reference\" \"U10\"))\n)\n";

fn anchor(edit: &ComponentEdit) -> Option<(String, String)> {
    let (x, y) = edit.placement()?;
    let x: f64 = x.parse().ok()?;
    let y: f64 = y.parse().ok()?;
    Some((format!("{x}"), format!("{y}")))
}

fn custom(fields: &[(&str, &str)]) -> Vec<CustomField> {
    fields
        .iter()
        .map(|(name, value)| CustomField {
            name: name.to_string(),
            value: Some(value.to_string()),
        })
        .collect()
}

/// The content after the edit, and what is replied.
fn edit(request: EditRequest, fields: &[(&str, &str)]) -> (String, String) {
    let mut edit = ComponentEdit::new(SCH, "R1");
    let at = anchor(&edit);
    edit.apply_all(&request, &custom(fields), at);
    match edit.refusal() {
        Some(text) => (SCH.to_string(), text),
        None => {
            let reply = format!("\"changes\":{:?} {:?}", edit.changed, edit.errors);
            (edit.content, reply)
        }
    }
}

fn nothing() -> EditRequest {
    EditRequest { new_reference: None, value: None, footprint: None, datasheet: None }
}

#[test]
fn renaming_a_reference_rewrites_the_instances_path() {
    let (out, reply) = edit(
        EditRequest { new_reference: Some("R7".to_string()), ..nothing() },
        &[],
    );
    assert!(
        out.contains("(property \"Reference\" \"R7\""),
        "property renamed:\n{out}"
    );
    assert!(
        out.contains("(reference \"R7\")"),
        "instances path must carry the new designator, or the netlist \
         ignores the rename:\n{out}"
    );
    assert!(
        !out.contains("(reference \"R1\")"),
        "no instances entry may keep the old designator:\n{out}"
    );
    assert!(reply.contains("Reference → R7"), "{reply}");
    assert!(reply.contains("instances reference → R7 (1)"), "{reply}");
}

#[test]
fn a_new_custom_field_is_written_into_the_symbol() {
    let (out, reply) = edit(nothing(), &[("MPN", "RC0402FR-0710KL")]);
    assert!(
        out.contains("(property \"MPN\" \"RC0402FR-0710KL\""),
        "custom field must land in the file:\n{out}"
    );
    assert!(
        out.contains("(hide yes)"),
        "a custom field is data, not sheet artwork:\n{out}"
    );
    assert!(reply.contains("MPN"), "the reply must report it: {reply}");
    assert!(
        !out.contains("(property \"MPN\" \"RC0402FR-0710KL\"\n\t\t\t(at 0 0 0)"),
        "must not land at the sheet origin:\n{out}"
    );
    assert!(out.contains(
        "\n\t\t(property \"MPN\" \"RC0402FR-0710KL\"\n\t\t\t(at 50 60 0)\n\t\t\t(hide yes)\n\t\t\t(effects\n\t\t\t\t(font\n\t\t\t\t\t(size 1.27 1.27)\n\t\t\t\t)\n\t\t\t)\n\t\t))\n\t(sheet_instances"
    ), "{out}");
}

#[test]
fn an_existing_custom_field_is_updated_not_duplicated() {
    let (out, _) = edit(nothing(), &[("MPN", "first")]);
    assert_eq!(out.matches("(property \"MPN\"").count(), 1);

    let (out2, _) = edit(EditRequest { value: Some("22k".to_string()), ..nothing() }, &[]);
    assert_eq!(out2.matches("(property \"Value\"").count(), 1, "{out2}");
    assert!(out2.contains("(property \"Value\" \"22k\""), "{out2}");

    let (out3, _) = edit(nothing(), &[("MPN", "first"), ("MPN", "second")]);
    assert_eq!(out3.matches("(property \"MPN\"").count(), 1, "{out3}");
    assert!(out3.contains("(property \"MPN\" \"second\""), "{out3}");
}

#[test]
fn a_fields_only_call_no_longer_reports_an_empty_success() {
    let (_, reply) = edit(nothing(), &[("MPN", "RC0402FR-0710KL")]);
    assert!(
        !reply.contains("\"changes\":[]"),
        "a fields-only call must not report an empty change set: {reply}"
    );
}

#[test]
fn reserved_names_are_refused_inside_fields() {
    let (out, reply) = edit(nothing(), &[("Reference", "R9")]);
    assert!(
        out.contains("(property \"Reference\" \"R1\""),
        "the designator must be untouched:\n{out}"
    );
    assert!(
        reply.contains("Reference"),
        "the refusal is reported: {reply}"
    );
    assert_eq!(
        reply,
        "No fields were updated on 'R1': Reference: set this through the 'reference' parameter, not 'fields'"
    );
}

#[test]
fn a_rename_reaches_every_unit() {
    let renamed = rename_placements(UNITS, "U1", "U5").unwrap();
    assert_eq!(renamed.matches("(property \"Reference\" \"U5\"").count(), 2);
    assert!(!renamed.contains("\"Reference\" \"U1\""));
    assert!(renamed.contains("(property \"Reference\" \"U10\""));
    let (done, count) = rewrite_instance_references(&renamed, "U1", "U5").unwrap();
    assert_eq!(count, 2);
    assert!(!done.contains("(reference \"U1\")"));
    assert!(done.contains("(reference \"U5\") (unit 2)"));
}

#[test]
fn an_update_reads_back() {
    let out = update_field(SCH, "R1", "Value", "4k7").unwrap();
    assert_eq!(out, SCH.replace("\"Value\" \"10k\"", "\"Value\" \"4k7\""));
}

#[test]
fn every_failure_says_why() {
    assert_eq!(
        update_field(SCH, "R2", "Value", "1").unwrap_err(),
        "symbol 'R2' not found in this schematic"
    );
    assert_eq!(
        update_field(SCH, "R1", "MPN", "1").unwrap_err(),
        "'R1' has no 'MPN' property"
    );
    assert_eq!(
        rename_placements(SCH, "R2", "R3").unwrap_err(),
        "symbol 'R2' not found in this schematic"
    );
    assert_eq!(
        rewrite_instance_references(SCH, "R2", "R3").unwrap_err(),
        "symbol 'R2' not found after the rename"
    );
    assert_eq!(
        rewrite_instance_references(SCH, "R2", "R1").unwrap_err(),
        "'R1' has no (reference \"R2\") in its instances path — the property was renamed but the netlist still reads the old designator"
    );
    assert_eq!(
        append_property(SCH, "R2", "A", "1", None).unwrap_err(),
        "symbol 'R2' not found in this schematic"
    );
    assert_eq!(
        append_property(SCH, "R1", "A", "1", None).unwrap_err(),
        "'R1' has no readable (at …) placement"
    );
}

#[test]
fn a_request_that_changes_nothing_fails() {
    let mut edit = ComponentEdit::new(SCH, "R1");
    assert_eq!(edit.refusal().as_deref(), Some("No fields were updated on 'R1'"));
    edit.apply_all(&nothing(), &[], None);
    assert_eq!(edit.refusal().as_deref(), Some("No fields were updated on 'R1'"));
    edit.set_custom_field("MPN", None, None);
    edit.set_property("Footprint", "0402");
    assert_eq!(
        edit.refusal().as_deref(),
        Some(
            "No fields were updated on 'R1': MPN: field values must be strings; \
             Footprint: 'R1' has no 'Footprint' property"
        )
    );
    assert_eq!(edit.content, SCH);
}

#[test]
fn values_are_escaped_when_a_field_is_added() {
    let out = append_property(SCH, "R1", "Note", "a\"b\\c", anchor(&ComponentEdit::new(SCH, "R1"))).unwrap();
    assert!(out.contains("(property \"Note\" \"a\\\"b\\\\c\"\n"), "{out}");
    assert!(property_exists(&out, "R1", "Note"));
    assert!(!property_exists(SCH, "R1", "Note"));
    assert!(!property_exists(SCH, "R2", "Value"));
}

#[test]
fn placements_are_read_from_the_symbol() {
    assert_eq!(
        placement_tokens(SCH, "R1"),
        Some(("50".to_string(), "60".to_string()))
    );
    assert_eq!(placement_tokens(SCH, "R9"), None);
    assert_eq!(placement_tokens(UNITS, "U1"), None);
}

#[test]
fn four_names_are_reserved() {
    for name in ["Reference", "Value", "Footprint", "Datasheet"] {
        assert!(is_reserved_property(name));
    }
    assert!(!is_reserved_property("MPN"));
    assert!(!is_reserved_property("value"));
}

#[test]
fn library_symbols_are_no_instances() {
    let chars: Vec<char> = SCH.chars().collect();
    assert!(find_symbol_instance_block(&chars, "R").is_none());
    let span = find_symbol_instance_block(&chars, "R1").unwrap();
    let block: String = chars[span.start..=span.end].iter().collect();
    assert!(block.starts_with("(symbol\n\t\t(lib_id"));
    assert!(block.ends_with("\n\t)"));
}

#[test]
fn symbols_are_identified_by_their_uuid() {
    assert_eq!(symbol_item_id(SCH, "R1").unwrap(), "sym-1");
    assert_eq!(symbol_item_id(SCH, "R2").unwrap_err(), ItemError::NotFound);
    let bare = "(kicad_sch (symbol (property \"Reference\" \"R1\")))";
    assert_eq!(symbol_item_id(bare, "R1").unwrap_err(), ItemError::NoUuid);
    assert_eq!(symbol_item_ids(UNITS, "U1").unwrap(), vec!["u-1", "u-2"]);
    assert_eq!(symbol_item_ids(UNITS, "U2").unwrap_err(), ItemError::NotFound);
    assert_eq!(symbol_item_ids(bare, "R1").unwrap_err(), ItemError::NoUuid);
    assert_eq!(ItemError::NotFound.message("R2"), "component 'R2' not found");
    assert_eq!(ItemError::NoUuid.message("R1"), "component 'R1' has no UUID");
    assert_eq!(ItemError::Malformed.message("R1"), "component 'R1' is malformed");
}

#[test]
fn an_annotation_goes_before_the_instances() {
    let out = add_component_annotation(SCH, "R1", "Tolerance", "1%").unwrap();
    assert!(
        out.contains(
            "\t\t    (property \"Tolerance\" \"1%\"\n      (at 0 0 0)\n      (effects (font (size 1.27 1.27)) (hide yes))\n    )\n    (instances\n"
        ),
        "{out}"
    );
    assert!(property_exists(&out, "R1", "Tolerance"));
    assert_eq!(
        add_component_annotation(SCH, "R9", "a", "b").unwrap_err(),
        "Component 'R9' not found"
    );
}

#[test]
fn grouping_passes_over_what_is_not_there() {
    let refs = vec!["R9".to_string(), "R1".to_string()];
    let done = group_components(SCH, &refs, "Power").unwrap();
    assert_eq!(done.grouped, vec!["R1"]);
    assert_eq!(done.item_ids, vec!["sym-1"]);
    assert!(done.content.contains("(property \"Group\" \"Power\""));
    let none = group_components(SCH, &refs[..1], "Power").unwrap();
    assert_eq!(none.content, SCH);
    assert!(none.grouped.is_empty());
}

#[test]
fn grouping_needs_references_and_identified_symbols() {
    let err = group_components(SCH, &[], "Power").unwrap_err();
    assert!(matches!(err, GroupError::NoReferences));
    assert_eq!(err.message(), "No references provided");
    let bare = "(kicad_sch (symbol (property \"Reference\" \"R1\")))";
    let err = group_components(bare, &["R1".to_string()], "Power").unwrap_err();
    assert_eq!(err.message(), "component 'R1' has no UUID");
}

#[test]
fn rewriting_leaves_other_symbols_alone() {
    let both = "(kicad_sch\n\t(symbol (property \"Reference\" \"U5\") (instances (reference \"U1\")))\n\
                \t(symbol (property \"Reference\" \"U9\") (instances (reference \"U1\"))))";
    let (out, count) = rewrite_instance_references(both, "U1", "U5").unwrap();
    assert_eq!(count, 1);
    assert_eq!(out, both.replacen("(reference \"U1\")", "(reference \"U5\")", 1));
}

#[test]
fn a_rename_keeps_the_other_changes_of_its_request() {
    let mut edit = ComponentEdit::new(SCH, "R1");
    edit.apply_all(
        &EditRequest {
            new_reference: Some("R7".to_string()),
            value: Some("22k".to_string()),
            ..nothing()
        },
        &[],
        None,
    );
    assert!(edit.content.contains("(property \"Reference\" \"R7\""));
    assert!(edit.content.contains("(property \"Value\" \"22k\""));
    assert!(edit.content.contains("(reference \"R7\")"));
    assert!(edit.errors.is_empty(), "{:?}", edit.errors);
    assert_eq!(edit.reference, "R7");
    assert_eq!(
        edit.changed,
        vec!["Value → 22k", "Reference → R7", "instances reference → R7 (1)"]
    );
    // A custom field set afterwards reaches the renamed symbol.
    let at = anchor(&edit);
    edit.set_custom_field("MPN", Some("X1"), at);
    assert!(edit.errors.is_empty(), "{:?}", edit.errors);
    assert!(property_exists(&edit.content, "R7", "MPN"));

    let (out, reply) = edit_all();
    assert!(out.contains("(property \"MPN\" \"X1\""), "{out}");
    assert!(out.contains("(property \"Reference\" \"R7\""), "{out}");
    assert!(reply.ends_with("[]"), "{reply}");
}

fn edit_all() -> (String, String) {
    edit(
        EditRequest {
            new_reference: Some("R7".to_string()),
            value: Some("22k".to_string()),
            ..nothing()
        },
        &[("MPN", "X1")],
    )
}

#[test]
fn properties_reach_the_symbol_that_is_renamed() {
    let two = "(kicad_sch\n\t(symbol (property \"Reference\" \"R7\") (property \"Value\" \"1k\"))\n\
               \t(symbol (property \"Reference\" \"R1\") (property \"Value\" \"2k\")\n\
               \t\t(instances (reference \"R1\"))))";
    let mut edit = ComponentEdit::new(two, "R1");
    edit.apply_all(
        &EditRequest {
            new_reference: Some("R7".to_string()),
            value: Some("3k".to_string()),
            ..nothing()
        },
        &[],
        None,
    );
    assert!(edit.errors.is_empty(), "{:?}", edit.errors);
    assert!(edit.content.contains("\"R7\") (property \"Value\" \"1k\")"));
    assert!(edit.content.contains("\"R7\") (property \"Value\" \"3k\")"));
}

#[test]
fn a_refused_request_leaves_the_schematic_alone() {
    let mut edit = ComponentEdit::new(SCH, "R9");
    edit.apply_all(
        &EditRequest {
            new_reference: Some("R10".to_string()),
            value: Some("1".to_string()),
            ..nothing()
        },
        &[],
        None,
    );
    edit.set_custom_field("MPN", Some("x"), None);
    assert!(edit.refusal().is_some());
    assert_eq!(edit.content, SCH);
    assert_eq!(edit.reference, "R9");
}

/// The names and values of the properties of the symbol that shows `reference`.
fn properties(content: &str, reference: &str) -> Vec<(String, String)> {
    let chars: Vec<char> = content.chars().collect();
    let span = find_symbol_instance_block(&chars, reference).unwrap();
    let block: String = chars[span.start..=span.end].iter().collect();
    let tree = parse_sexp(&block).unwrap();
    let mut out = Vec::new();
    for property in tree.find_all("property") {
        if let SexpNode::List(items) = property {
            let name = items[1].as_str().unwrap().to_string();
            out.push((name, items[2].as_str().unwrap().to_string()));
        }
    }
    out
}

#[test]
fn an_added_value_reads_back_as_it_was_given() {
    for value in ["plain", "a\"b\\c", "\\", "(property \"X\" \"", "( \"", ""] {
        let mut edit = ComponentEdit::new(SCH, "R1");
        let at = anchor(&edit);
        edit.set_custom_field("Note", Some(value), at);
        assert!(edit.errors.is_empty(), "{:?}", edit.errors);
        let found = properties(&edit.content, "R1");
        assert_eq!(found.len(), 3, "{found:?}");
        assert_eq!(found[2], ("Note".to_string(), value.to_string()));
    }
}

#[test]
fn a_field_set_twice_is_there_once_with_its_second_value() {
    let mut edit = ComponentEdit::new(SCH, "R1");
    for value in ["first (old)", "second"] {
        let at = anchor(&edit);
        edit.set_custom_field("MPN", Some(value), at);
    }
    let found = properties(&edit.content, "R1");
    let mpn: Vec<&str> =
        found.iter().filter(|p| p.0 == "MPN").map(|p| p.1.as_str()).collect();
    assert_eq!(mpn, vec!["second"]);
}

#[test]
fn one_request_makes_all_its_changes() {
    let full = SCH.replace(
        "\t\t(instances\n",
        "\t\t(property \"Footprint\" \"\")\n\t\t(property \"Datasheet\" \"~\")\n\
         \t\t(property \"Tolerance\" \"5%\")\n\t\t(instances\n",
    );
    let request = EditRequest {
        new_reference: Some("R7".to_string()),
        value: Some("22k".to_string()),
        footprint: Some("R_0402".to_string()),
        datasheet: Some("r.pdf".to_string()),
    };
    let mut edit = ComponentEdit::new(&full, "R1");
    let at = anchor(&edit);
    edit.apply_all(&request, &custom(&[("Tolerance", "1%"), ("MPN", "X1")]), at);
    assert!(edit.errors.is_empty(), "{:?}", edit.errors);
    assert_eq!(edit.refusal(), None);
    let found = properties(&edit.content, "R7");
    let found: Vec<(&str, &str)> =
        found.iter().map(|p| (p.0.as_str(), p.1.as_str())).collect();
    assert_eq!(
        found,
        vec![
            ("Reference", "R7"),
            ("Value", "22k"),
            ("Footprint", "R_0402"),
            ("Datasheet", "r.pdf"),
            ("Tolerance", "1%"),
            ("MPN", "X1"),
        ]
    );
    assert_eq!(edit.changed.len(), 7, "{:?}", edit.changed);
}

/// A symbol whose property comes before its own placement, and whose texts look
/// like lists.
const LISTS_IN_TEXT: &str = "(kicad_sch\n\t(symbol\n\t\t(lib_id \"Device:R\")\n\
\t\t(property \"Reference\" \"R1\"\n\t\t\t(at 1 2 0)\n\t\t)\n\
\t\t(property \"Note\" \"(at 3 4 0) (instances (unit A)\")\n\
\t\t(at 50 60 0)\n\t\t(unit 1)\n\
\t\t(instances\n\t\t\t(path \"/\" (reference \"R1\") (unit 1))\n\t\t)\n\t)\n)\n";

#[test]
fn a_field_is_anchored_at_the_symbols_own_placement() {
    assert_eq!(
        placement_tokens(LISTS_IN_TEXT, "R1"),
        Some(("50".to_string(), "60".to_string()))
    );
}

#[test]
fn an_annotation_goes_before_the_instances_list_and_not_into_a_text() {
    let out = add_component_annotation(LISTS_IN_TEXT, "R1", "Key", "v").unwrap();
    assert!(out.contains("\"(at 3 4 0) (instances (unit A)\")"), "{out}");
    let found = properties(&out, "R1");
    assert_eq!(found[2], ("Key".to_string(), "v".to_string()));
}

#[test]
fn a_unit_in_a_text_is_no_unit() {
    let done = replace_component(LISTS_IN_TEXT, "R1", "Device:C", Some(2), Some(2)).unwrap();
    assert_eq!(done.content.matches("(unit 2)").count(), 2, "{}", done.content);
    assert!(done.content.contains("(instances (unit A)\")"), "{}", done.content);
    assert!(!done.content.contains("(unit 1)"), "{}", done.content);
}

#[test]
fn a_swap_does_not_reach_into_the_next_symbol() {
    let two = "(kicad_sch (symbol (property \"Reference\" \"R1\") (note \"(lib_id \")) \
               (symbol (lib_id \"Device:R\") (property \"Reference\" \"R2\")))";
    let why = replace_component(two, "R1", "Device:C", None, None).unwrap_err();
    assert_eq!(why, "Malformed lib_id");
}

#[test]
fn one_rename_reaches_every_unit_in_both_places() {
    let mut edit = ComponentEdit::new(UNITS, "U1");
    edit.rename("U5");
    assert!(edit.errors.is_empty(), "{:?}", edit.errors);
    assert_eq!(edit.reference, "U5");
    assert_eq!(edit.changed, vec!["Reference → U5", "instances reference → U5 (2)"]);
    assert_eq!(
        edit.content,
        UNITS
            .replace("\"Reference\" \"U1\")", "\"Reference\" \"U5\")")
            .replace("(reference \"U1\")", "(reference \"U5\")")
    );
}

#[test]
fn a_rename_without_an_entry_says_so() {
    let bare = "(kicad_sch (symbol (property \"Reference\" \"R1\")))";
    let mut edit = ComponentEdit::new(bare, "R1");
    edit.rename("R2");
    assert_eq!(edit.content, bare.replace("R1", "R2"));
    assert_eq!(edit.changed, vec!["Reference → R2"]);
    assert_eq!(edit.errors.len(), 1);
    assert!(edit.errors[0].starts_with("instances reference: 'R2' has no (reference \"R1\")"));
}

#[test]
fn fields_leave_the_placement() {
    let mut edit = ComponentEdit::new(SCH, "R1");
    let at = anchor(&edit);
    let fields = custom(&[("MPN", "(at 1 2 0)"), ("Note", "x")]);
    edit.apply_all(&EditRequest { value: Some("(at 3 4)".to_string()), ..nothing() }, &fields, at);
    assert!(edit.errors.is_empty(), "{:?}", edit.errors);
    assert_eq!(edit.placement(), Some(("50".to_string(), "60".to_string())));
    assert_eq!(edit.content.matches("\n\t\t\t(at 50 60 0)").count(), 2, "{}", edit.content);
}

#[test]
fn fields_that_cannot_be_set_do_not_stop_the_rest() {
    let mut fields = custom(&[("Value", "1"), ("MPN", "X1")]);
    fields.insert(0, CustomField { name: "Count".to_string(), value: None });
    let mut edit = ComponentEdit::new(SCH, "R1");
    let at = anchor(&edit);
    edit.apply_all(&EditRequest { new_reference: Some("R7".to_string()), ..nothing() }, &fields, at);
    assert_eq!(
        edit.errors,
        vec![
            "Count: field values must be strings",
            "Value: set this through the 'value' parameter, not 'fields'"
        ]
    );
    assert_eq!(
        edit.changed,
        vec!["MPN → X1 (added)", "Reference → R7", "instances reference → R7 (1)"]
    );
}
