//! Live view: settings, actions and the focus channel.

use konnect::live_view::{
    configure, current, effective_ipc_address, focus_dir, focus_path, observer_change,
    on_document_written, write_focus, LiveViewSettings, ObserverChange, ViewAction,
};

const SOCKET: &str = "ipc:///tmp/kicad/api.sock";

#[test]
fn disabling_removes_the_observer() {
    let mut slot = LiveViewSettings::default();
    assert_eq!(configure(&mut slot, true, false, String::new(), SOCKET), ObserverChange::Install);
    assert_eq!(configure(&mut slot, false, false, String::new(), SOCKET), ObserverChange::Remove);
    assert!(!current(Some(&slot)).enabled);
}

#[test]
fn focus_messages_carry_increasing_sequence_numbers() {
    let sheet = "/tmp/konnect-focus-test.kicad_sch";
    let (first, _) = write_focus(0, sheet, &[], "test");
    let (second, written) = write_focus(first, sheet, &["R1".into()], "test");
    assert!(
        second > first,
        "sequence must advance so the viewer can distinguish a repeat \
         focus from a duplicate filesystem event: {first} then {second}"
    );

    let parsed: serde_json::Value = serde_json::from_str(&written).expect("focus json");
    assert_eq!(parsed["seq"].as_u64(), Some(second));
    assert_eq!(parsed["highlight"][0].as_str(), Some("R1"));
    assert_eq!(parsed["file"].as_str(), Some(sheet));
    assert_eq!(parsed["reason"].as_str(), Some("test"));
}

#[test]
fn a_focus_message_is_json_text() {
    let (seq, text) = write_focus(6, "a\"b.kicad_sch", &[], "written");
    assert_eq!(seq, 7);
    assert_eq!(
        text,
        "{\"file\":\"a\\\"b.kicad_sch\",\"highlight\":[],\"reason\":\"written\",\"seq\":7}"
    );
}

#[test]
fn nothing_can_be_read_means_off() {
    let settings = current(None);
    assert!(!settings.enabled);
    assert!(!settings.reload_open_boards);
    assert_eq!(settings.ipc_address, "");
}

#[test]
fn an_empty_address_is_resolved_to_the_default_socket() {
    let mut slot = LiveViewSettings::default();
    configure(&mut slot, true, true, String::new(), SOCKET);
    assert_eq!(slot.ipc_address, SOCKET);
    configure(&mut slot, true, true, "ipc://mine".to_string(), SOCKET);
    assert_eq!(current(Some(&slot)).ipc_address, "ipc://mine");
    assert_eq!(effective_ipc_address("", SOCKET), SOCKET);
    assert_eq!(effective_ipc_address("x", SOCKET), "x");
    assert_eq!(observer_change(true), ObserverChange::Install);
    assert_eq!(observer_change(false), ObserverChange::Remove);
}

#[test]
fn boards_are_reloaded_only_where_that_was_asked_for() {
    let mut slot = LiveViewSettings::default();
    assert!(matches!(on_document_written(&slot, Some("kicad_pcb")), ViewAction::Nothing));
    assert!(matches!(on_document_written(&slot, Some("kicad_sch")), ViewAction::Nothing));
    configure(&mut slot, true, false, String::new(), SOCKET);
    assert!(matches!(on_document_written(&slot, Some("kicad_pcb")), ViewAction::Nothing));
    configure(&mut slot, true, true, String::new(), SOCKET);
    match on_document_written(&slot, Some("kicad_pcb")) {
        ViewAction::ReloadBoard { ipc_address } => assert_eq!(ipc_address, SOCKET),
        other => panic!("{other:?}"),
    }
    assert!(matches!(on_document_written(&slot, Some("txt")), ViewAction::Nothing));
    assert!(matches!(on_document_written(&slot, None), ViewAction::Nothing));
}

#[test]
fn schematics_go_to_the_viewer_without_a_second_opt_in() {
    let mut slot = LiveViewSettings::default();
    configure(&mut slot, true, false, String::new(), SOCKET);
    match on_document_written(&slot, Some("kicad_sch")) {
        ViewAction::PostFocus { reason } => assert_eq!(reason, "written"),
        other => panic!("{other:?}"),
    }
}

#[test]
fn the_focus_file_has_a_fixed_place() {
    assert_eq!(focus_dir("/tmp", '/'), "/tmp/konnect-viewer");
    assert_eq!(focus_path("/tmp/", '/'), "/tmp/konnect-viewer/focus.json");
    assert_eq!(focus_path("", '/'), "konnect-viewer/focus.json");
}
