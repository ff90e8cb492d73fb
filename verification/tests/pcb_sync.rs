//! Syncing a board's nets to its schematic.

use konnect::netlist::{parse_netlist, Netlist, NetlistError};
use konnect::pcb_sync::{
    footprint_reference, has_legacy_net_ids, net_insert_point, net_name, pad_number, reconcile,
    SyncError, SyncReport,
};
use konnect::scan::{children_of, close_of, nodes_at_depth, Span};

const NETLIST: &str = r#"
(export (version "E")
  (components
    (comp (ref "U1"))
    (comp (ref "J3")))
  (nets
    (net (code "1") (name "GND")
      (node (ref "U1") (pin "2"))
      (node (ref "J3") (pin "1")))
    (net (code "2") (name "/IF2_TX")
      (node (ref "U1") (pin "13"))
      (node (ref "J3") (pin "15")))))
"#;

/// A stale `IF2_TX` on the MCU pin, disjoint from `/IF2_TX` on the connector.
const BOARD: &str = "(kicad_pcb\n\t(version 20260206)\n\t(generator \"pcbnew\")\n\
\t(footprint \"L:U\"\n\t\t(property \"Reference\" \"U1\")\n\
\t\t(pad \"13\" smd rect\n\t\t\t(net \"IF2_TX\")\n\t\t)\n\
\t\t(pad \"2\" smd rect\n\t\t\t(net \"GND\")\n\t\t)\n\
\t\t(pad \"99\" smd rect\n\t\t\t(net \"GND\")\n\t\t)\n\t)\n\
\t(footprint \"L:J\"\n\t\t(property \"Reference\" \"J3\")\n\
\t\t(pad \"15\" smd rect\n\t\t\t(at 1 2 90)\n\t\t\t(layers \"F.Cu\" \"F.Mask\")\n\t\t\t(uuid \"abc\")\n\t\t)\n\
\t\t(pad \"1\" smd rect\n\t\t\t(net \"GND\")\n\t\t)\n\t)\n)";

fn chars(text: &str) -> Vec<char> {
    text.chars().collect()
}

fn netlist_of(pads: &[(&str, &str, &str)]) -> Netlist {
    let mut nl = Netlist::default();
    for (reference, pad, net) in pads {
        nl.refs.insert(reference.to_string());
        if !nl.nets.iter().any(|n| n == net) {
            nl.nets.push(net.to_string());
        }
        nl.pad_nets
            .insert((reference.to_string(), pad.to_string()), net.to_string());
    }
    nl
}

#[test]
fn netlist_parses_nets_and_nodes() {
    let nl = parse_netlist(NETLIST).unwrap();
    assert_eq!(nl.nets, vec!["GND", "/IF2_TX"]);
    assert_eq!(
        nl.pad_nets
            .get(&("U1".into(), "13".into()))
            .map(String::as_str),
        Some("/IF2_TX")
    );
    assert!(nl.refs.contains("J3"));
}

#[test]
fn split_net_is_rejoined_and_the_stale_name_disappears() {
    let nl = parse_netlist(NETLIST).unwrap();
    let (out, report) = reconcile(BOARD, &nl).unwrap();
    assert!(
        !out.contains("(net \"IF2_TX\")"),
        "stale bare name survived:\n{out}"
    );
    assert_eq!(
        out.matches("(net \"/IF2_TX\")").count(),
        2,
        "both the MCU pin and the connector pin must carry it"
    );
    assert!(report.stale_nets_removed.contains(&"IF2_TX".to_string()));
}

#[test]
fn a_kicad_9_board_is_refused_rather_than_half_converted() {
    let legacy = BOARD.replace("(net \"GND\")", "(net 9 \"GND\")");
    let nl = parse_netlist(NETLIST).unwrap();
    let err = reconcile(&legacy, &nl).unwrap_err().message();
    assert!(err.contains("KiCad 9"), "unhelpful refusal: {err}");
}

#[test]
fn a_board_already_in_step_is_left_byte_identical() {
    let nl = parse_netlist(NETLIST).unwrap();
    let (once, _) = reconcile(BOARD, &nl).unwrap();
    let (twice, report) = reconcile(&once, &nl).unwrap();
    assert_eq!(once, twice, "second run was not a no-op");
    assert_eq!(report.pads_assigned, 0);
    assert_eq!(report.pads_cleared, 0);
}

#[test]
fn a_pad_the_schematic_does_not_mention_is_cleared() {
    let nl = parse_netlist(NETLIST).unwrap();
    let (out, report) = reconcile(BOARD, &nl).unwrap();
    assert_eq!(report.pads_cleared, 1);
    let start = out.find("(pad \"99\"").unwrap();
    let text = chars(&out);
    let end = close_of(&text, start).unwrap();
    let pad99: String = text[start..=end].iter().collect();
    assert!(!pad99.contains("(net "), "pad 99 kept a net:\n{pad99}");
}

#[test]
fn a_pad_with_no_net_child_gains_one() {
    let nl = parse_netlist(NETLIST).unwrap();
    let (out, _) = reconcile(BOARD, &nl).unwrap();
    let j3 = &out[out.find("\"Reference\" \"J3\"").unwrap()..];
    let pad15 = &j3[j3.find("(pad \"15\"").unwrap()..];
    assert!(
        pad15.contains("(net \"/IF2_TX\")"),
        "pad 15 not assigned:\n{pad15}"
    );
    assert!(
        pad15.contains(
            "(layers \"F.Cu\" \"F.Mask\")\n\t\t\t(net \"/IF2_TX\")\n\t\t\t(uuid \"abc\")"
        ),
        "net child in the wrong place:\n{pad15}"
    );
}

#[test]
fn footprint_mismatches_are_reported_not_acted_on() {
    let nl = parse_netlist(NETLIST).unwrap();
    let before = BOARD.matches("(footprint ").count();
    let (out, report) = reconcile(BOARD, &nl).unwrap();
    assert_eq!(
        out.matches("(footprint ").count(),
        before,
        "footprints must never be added or removed"
    );
    assert!(report.extra_footprints.is_empty());
    assert!(report.missing_footprints.is_empty());
}

#[test]
fn parens_inside_quoted_strings_do_not_confuse_the_scanner() {
    let board = BOARD.replace(
        "(property \"Reference\" \"U1\")",
        "(descr \"a )( pathological :-( description\")\n\t\t(property \"Reference\" \"U1\")",
    );
    let nl = parse_netlist(NETLIST).unwrap();
    let (out, _) = reconcile(&board, &nl).unwrap();
    assert!(out.contains("(net \"/IF2_TX\")"));
    assert!(out.contains("pathological"));
}

#[test]
fn the_report_counts_every_pad_once() {
    let nl = parse_netlist(NETLIST).unwrap();
    let (_, report) = reconcile(BOARD, &nl).unwrap();
    assert_eq!(report.nets_in_schematic, 2);
    assert_eq!(report.nets_on_board_before, 2);
    assert_eq!(report.pads_assigned, 2);
    assert_eq!(report.pads_cleared, 1);
    assert_eq!(report.pads_unchanged, 2);
    assert_eq!(report.stale_nets_removed, vec!["IF2_TX"]);
}

#[test]
fn a_fresh_report_is_empty() {
    let report = SyncReport::default();
    assert_eq!(report.pads_assigned + report.pads_cleared + report.pads_unchanged, 0);
    assert!(report.stale_nets_removed.is_empty());
}

#[test]
fn a_refusal_says_what_to_do() {
    assert_eq!(
        SyncError::LegacyNetIds.message(),
        "this board uses KiCad 9's numeric net form `(net <id> \"name\")`; \
         update_pcb_from_schematic targets the KiCad 10 name-only form and \
         will not half-convert it. Open the board in KiCad 10 once to \
         migrate it, then re-run."
    );
}

#[test]
fn mismatched_footprints_are_listed_in_order() {
    let nl = netlist_of(&[("C9", "1", "A"), ("C1", "1", "A")]);
    let board = "(kicad_pcb (footprint \"x\" (property \"Reference\" \"Z2\")) \
                 (footprint \"x\" (property \"Reference\" \"B1\")))";
    let (out, report) = reconcile(board, &nl).unwrap();
    assert_eq!(out, board);
    assert_eq!(report.extra_footprints, vec!["B1", "Z2"]);
    assert_eq!(report.missing_footprints, vec!["C1", "C9"]);
}

#[test]
fn a_net_on_the_pads_own_line_is_cleared_without_its_pad() {
    let nl = netlist_of(&[("U1", "2", "A")]);
    let board = "(kicad_pcb\n\t(footprint \"x\"\n\t\t(property \"Reference\" \"U1\")\n\
                 \t\t(pad \"1\" smd (net \"OLD\"))\n\t)\n)";
    let (out, report) = reconcile(board, &nl).unwrap();
    assert_eq!(report.pads_cleared, 1);
    assert!(out.contains("\n\t\t(pad \"1\" smd )\n"), "{out}");
}

#[test]
fn a_net_lands_in_first_child_position_without_a_leader() {
    let nl = netlist_of(&[("U1", "1", "A")]);
    let board = "(kicad_pcb\n\t(footprint \"x\"\n\t\t(property \"Reference\" \"U1\")\n\
                 \t\t(pad \"1\" smd rect\n\t\t\t(uuid \"abc\")\n\t\t)\n\t)\n)";
    let (out, _) = reconcile(board, &nl).unwrap();
    assert!(
        out.contains("(pad \"1\" smd rect\n\t\t\t(net \"A\")\n\t\t\t(uuid \"abc\")\n\t\t)"),
        "{out}"
    );
}

#[test]
fn a_childless_pad_gains_an_indented_net() {
    let nl = netlist_of(&[("U1", "1", "A")]);
    let board = "(kicad_pcb\n\t(footprint \"x\"\n\t\t(property \"Reference\" \"U1\")\n\
                 \t\t(pad \"1\" smd rect)\n\t)\n)";
    let (out, _) = reconcile(board, &nl).unwrap();
    assert!(
        out.contains("\t\t(pad \"1\" smd rect\n\t\t\t(net \"A\"))\n"),
        "{out}"
    );
    let (again, report) = reconcile(&out, &nl).unwrap();
    assert_eq!(again, out);
    assert_eq!(report.pads_unchanged, 1);
}

#[test]
fn footprints_without_a_reference_are_left_alone() {
    let nl = netlist_of(&[("U1", "1", "A")]);
    let board = "(kicad_pcb (footprint \"x\" (pad \"1\" smd (net \"OLD\"))))";
    let (out, report) = reconcile(board, &nl).unwrap();
    assert_eq!(out, board);
    assert_eq!(report.nets_on_board_before, 0);
    assert_eq!(report.missing_footprints, vec!["U1"]);
}

#[test]
fn characters_outside_ascii_keep_their_places() {
    let nl = netlist_of(&[("U1", "1", "µC_Ω")]);
    let board = "(kicad_pcb (footprint \"größe\" (property \"Reference\" \"U1\")\n\
                 (pad \"1\" smd (net \"é\"))))";
    let (out, report) = reconcile(board, &nl).unwrap();
    assert_eq!(out, board.replace("(net \"é\")", "(net \"µC_Ω\")"));
    assert_eq!(report.stale_nets_removed, vec!["é"]);
}

#[test]
fn scanning_finds_nodes_by_depth_and_tag() {
    let text = chars("(a (b \"(b\") (c (b)) (b 2))");
    let found = nodes_at_depth(&text, (0, text.len()), "b", 1);
    let starts: Vec<usize> = found.iter().map(|s| s.start).collect();
    assert_eq!(starts, vec![3, 20]);
    assert_eq!(found[0].end, 10);
    let kids = children_of(&text, Span { start: 0, end: text.len() - 1 });
    let tags: Vec<&str> = kids.iter().map(|k| k.tag.as_str()).collect();
    assert_eq!(tags, vec!["b", "c", "b"]);
    assert_eq!(close_of(&text, 0), Some(text.len() - 1));
    assert_eq!(close_of(&chars("(a (b)"), 0), None);
}

#[test]
fn readings_come_from_the_block() {
    let text = chars("(footprint \"x\" (property \"Reference\" \"U7\") (pad \"4\" smd (net \"N\")))");
    let whole = Span { start: 0, end: text.len() - 1 };
    assert_eq!(footprint_reference(&text, whole).as_deref(), Some("U7"));
    let pad = nodes_at_depth(&text, (0, text.len()), "pad", 1)[0];
    assert_eq!(pad_number(&text, pad).as_deref(), Some("4"));
    let net = nodes_at_depth(&text, (pad.start, pad.end + 1), "net", 1)[0];
    assert_eq!(net_name(&text, net).as_deref(), Some("N"));
    let (at, indent) = net_insert_point(&text, pad);
    assert_eq!((at, indent.as_str()), (net.start, ""));
    assert!(!has_legacy_net_ids(&text));
    assert!(has_legacy_net_ids(&chars("(net 0 \"\")")));
    assert!(!has_legacy_net_ids(&chars("(net ")));
}

#[test]
fn a_text_that_is_no_netlist_is_refused() {
    assert_eq!(parse_netlist("(export").unwrap_err(), NetlistError::Malformed);
    let err = parse_netlist("(export (components))").unwrap_err();
    assert_eq!(err, NetlistError::NoNets);
    assert_eq!(err.message(), "netlist has no (nets) section");
    assert_eq!(NetlistError::Malformed.message(), "malformed s-expression");
}

#[test]
fn the_unconnected_net_is_no_net() {
    let nl = parse_netlist(
        "(export (nets (net (name \"\") (node (ref \"U1\") (pin \"1\"))) \
         (net (name \"A\") (node (ref \"U1\") (pin \"2\")) (node (ref \"U1\"))) \
         (net (name \"A\") (node (ref \"U2\") (pin \"1\"))) (net)))",
    )
    .unwrap();
    assert_eq!(nl.nets, vec!["A"]);
    assert_eq!(nl.pad_nets.get(&("U1".into(), "1".into())), None);
    assert_eq!(nl.pad_nets.get(&("U2".into(), "1".into())).map(String::as_str), Some("A"));
    assert!(nl.refs.is_empty());
}

#[test]
fn a_board_in_step_has_the_schematics_net_count() {
    let nl = parse_netlist(NETLIST).unwrap();
    let (once, _) = reconcile(BOARD, &nl).unwrap();
    let (_, report) = reconcile(&once, &nl).unwrap();
    assert_eq!(report.nets_on_board_before, report.nets_in_schematic);
    assert!(report.stale_nets_removed.is_empty());
}

#[test]
fn more_names_than_nets_means_a_stale_one() {
    let nl = netlist_of(&[("U1", "1", "A")]);
    let board = "(kicad_pcb (footprint \"x\" (property \"Reference\" \"U1\") \
                 (pad \"1\" smd (net \"A\")) (pad \"2\" smd (net \"B\"))))";
    let (out, report) = reconcile(board, &nl).unwrap();
    assert_eq!((report.nets_in_schematic, report.nets_on_board_before), (1, 2));
    assert_eq!(report.stale_nets_removed, vec!["B"]);
    assert!(!out.contains("\"B\""));
}

#[test]
fn only_nets_that_the_schematic_does_not_mention_are_stale() {
    // Pad 1 loses A, which the schematic still has on pad 2.
    let nl = netlist_of(&[("U1", "2", "A"), ("U1", "3", "C")]);
    let board = "(kicad_pcb (footprint \"x\" (property \"Reference\" \"U1\") \
                 (pad \"1\" smd (net \"A\")) (pad \"2\" smd (net \"B\")) \
                 (pad \"3\" smd (net \"A\"))))";
    let (_, report) = reconcile(board, &nl).unwrap();
    assert_eq!((report.pads_assigned, report.pads_cleared), (2, 1));
    assert_eq!(report.stale_nets_removed, vec!["B"]);
}

#[test]
fn a_net_is_inserted_inside_its_pad() {
    for pad in ["(pad \"1\" smd)", "(pad)", "(pad \"1\"\n\t(at 0 0)\n)", "(pad (layers \"F.Cu\"))"] {
        let text = chars(&format!("(x {pad} )"));
        let span = Span { start: 3, end: 2 + pad.chars().count() };
        let (at, _) = net_insert_point(&text, span);
        assert!(span.start < at && at <= span.end, "{pad}: {at}");
    }
}
