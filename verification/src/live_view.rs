//! Live view: keeping what is on screen in step with what is written to disk.
//!
//! A board in an open pcbnew can be brought up to date by reverting it, which
//! silently destroys unsaved changes, so reloading boards is opt-in and off by
//! default. A schematic cannot be reached in eeschema at all; it goes to the
//! viewer instead, through a focus file that the viewer watches. That path
//! writes a small JSON file and nothing else, so it needs no separate opt-in.

use crate::text::{append_str, same_text, to_chars, to_text, views};
use vstd::prelude::*;

verus! {

// ─── Settings ────────────────────────────────────────────────────────────────

/// What live view is currently doing. `enabled` gates everything; the
/// destructive half is gated again by `reload_open_boards`.
#[derive(Debug)]
pub struct LiveViewSettings {
    pub enabled: bool,
    pub reload_open_boards: bool,
    pub ipc_address: String,
}

/// The settings as plain values.
pub ghost struct ViewSettings {
    pub enabled: bool,
    pub reload_open_boards: bool,
    pub ipc_address: Seq<char>,
}

impl View for LiveViewSettings {
    type V = ViewSettings;

    open spec fn view(&self) -> ViewSettings {
        ViewSettings {
            enabled: self.enabled,
            reload_open_boards: self.reload_open_boards,
            ipc_address: self.ipc_address@,
        }
    }
}

/// Live view off.
pub open spec fn default_settings() -> ViewSettings {
    ViewSettings { enabled: false, reload_open_boards: false, ipc_address: Seq::empty() }
}

impl Default for LiveViewSettings {
    fn default() -> (res: LiveViewSettings)
        ensures
            res@ == default_settings(),
    {
        let res = LiveViewSettings {
            enabled: false,
            reload_open_boards: false,
            ipc_address: String::new(),
        };
        assert(res.ipc_address@ =~= Seq::<char>::empty());
        res
    }
}

impl Clone for LiveViewSettings {
    fn clone(&self) -> (res: LiveViewSettings)
        ensures
            res@ == self@,
    {
        LiveViewSettings {
            enabled: self.enabled,
            reload_open_boards: self.reload_open_boards,
            ipc_address: self.ipc_address.clone(),
        }
    }
}

/// Read the current settings: those that are held, or the default where nothing
/// can be read.
pub fn current(held: Option<&LiveViewSettings>) -> (res: LiveViewSettings)
    ensures
        res@ == match held {
            Some(settings) => settings@,
            None => default_settings(),
        },
{
    match held {
        Some(settings) => settings.clone(),
        None => LiveViewSettings::default(),
    }
}

/// What becomes of the write observer.
#[derive(Debug, Clone, Copy, PartialEq, Eq, Structural)]
pub enum ObserverChange {
    Install,
    Remove,
}

/// The address live view will use, for a configured one and KiCad's default.
pub open spec fn resolved_address(configured: Seq<char>, default_socket: Seq<char>) -> Seq<char> {
    if configured.len() == 0 {
        default_socket
    } else {
        configured
    }
}

/// Apply new settings, and say whether the write observer is to be installed or
/// removed to match.
///
/// Installing on enable rather than at startup keeps the default path exactly
/// as it was: with live view off, a write calls no observer at all. An empty
/// `ipc_address` is resolved to KiCad's default socket location.
pub fn configure(
    slot: &mut LiveViewSettings,
    enabled: bool,
    reload_open_boards: bool,
    ipc_address: String,
    default_socket: &str,
) -> (res: ObserverChange)
    ensures
        final(slot)@ == (ViewSettings {
            enabled,
            reload_open_boards,
            ipc_address: resolved_address(ipc_address@, default_socket@),
        }),
        res == if enabled {
            ObserverChange::Install
        } else {
            ObserverChange::Remove
        },
{
    slot.enabled = enabled;
    slot.reload_open_boards = reload_open_boards;
    slot.ipc_address = effective_ipc_address(ipc_address.as_str(), default_socket);
    observer_change(enabled)
}

/// Whether the write observer is to be installed or removed.
pub fn observer_change(enabled: bool) -> (res: ObserverChange)
    ensures
        res == if enabled {
            ObserverChange::Install
        } else {
            ObserverChange::Remove
        },
{
    if enabled {
        ObserverChange::Install
    } else {
        ObserverChange::Remove
    }
}

/// The address live view will use, for reporting back to the caller.
pub fn effective_ipc_address(configured: &str, default_socket: &str) -> (res: String)
    ensures
        res@ == resolved_address(configured@, default_socket@),
{
    if configured.unicode_len() == 0 {
        default_socket.to_string()
    } else {
        configured.to_string()
    }
}

// ─── After a write ───────────────────────────────────────────────────────────

/// What is to be done once a document is on disk.
#[derive(Debug)]
pub enum ViewAction {
    /// Nothing on screen is touched.
    Nothing,
    /// Revert the board in the pcbnew that listens at the address.
    ReloadBoard { ipc_address: String },
    /// Tell the viewer which sheet was written, and why.
    PostFocus { reason: String },
}

/// What is to be done, as plain values.
pub ghost enum Action {
    Nothing,
    ReloadBoard(Seq<char>),
    PostFocus(Seq<char>),
}

impl View for ViewAction {
    type V = Action;

    open spec fn view(&self) -> Action {
        match self {
            ViewAction::Nothing => Action::Nothing,
            ViewAction::ReloadBoard { ipc_address } => Action::ReloadBoard(ipc_address@),
            ViewAction::PostFocus { reason } => Action::PostFocus(reason@),
        }
    }
}

/// What is to be done once a document with the extension is on disk.
pub open spec fn view_action(settings: ViewSettings, extension: Option<Seq<char>>) -> Action {
    if !settings.enabled {
        Action::Nothing
    } else if extension == Some("kicad_pcb"@) && settings.reload_open_boards {
        Action::ReloadBoard(settings.ipc_address)
    } else if extension == Some("kicad_sch"@) {
        Action::PostFocus("written"@)
    } else {
        Action::Nothing
    }
}

/// What is to be done after a successful write of a document with the extension.
pub fn on_document_written(settings: &LiveViewSettings, extension: Option<&str>) -> (res:
    ViewAction)
    ensures
        res@ == view_action(
            settings@,
            match extension {
                Some(text) => Some(text@),
                None => None,
            },
        ),
{
    if !settings.enabled {
        return ViewAction::Nothing;
    }
    proof {
        reveal_strlit("kicad_pcb");
        reveal_strlit("kicad_sch");
        assert("kicad_pcb"@[6] != "kicad_sch"@[6]);
    }
    match extension {
        Some(text) => {
            if same_text(text, "kicad_pcb") {
                if settings.reload_open_boards {
                    ViewAction::ReloadBoard { ipc_address: settings.ipc_address.clone() }
                } else {
                    ViewAction::Nothing
                }
            } else if same_text(text, "kicad_sch") {
                ViewAction::PostFocus { reason: "written".to_string() }
            } else {
                ViewAction::Nothing
            }
        },
        None => ViewAction::Nothing,
    }
}

/// With live view off, a write touches nothing on screen.
pub proof fn law_off_means_untouched(settings: ViewSettings, extension: Option<Seq<char>>)
    requires
        !settings.enabled,
    ensures
        view_action(settings, extension) == Action::Nothing,
{
}

/// A board is reverted only where that was asked for, on top of live view
/// itself, and never by default.
pub proof fn law_reloading_is_opt_in(settings: ViewSettings, extension: Option<Seq<char>>)
    ensures
        view_action(settings, extension) is ReloadBoard ==> {
            &&& settings.enabled
            &&& settings.reload_open_boards
            &&& extension == Some("kicad_pcb"@)
        },
        view_action(default_settings(), extension) == Action::Nothing,
{
}

/// A written schematic reaches the viewer whenever live view is on.
pub proof fn law_schematics_need_no_second_opt_in(settings: ViewSettings)
    requires
        settings.enabled,
    ensures
        view_action(settings, Some("kicad_sch"@)) == Action::PostFocus("written"@),
{
    reveal_strlit("kicad_pcb");
    reveal_strlit("kicad_sch");
    assert("kicad_pcb"@[6] != "kicad_sch"@[6]);
}

/// A written board is reverted wherever that was asked for, at the address that was
/// configured, and left alone where it was not.
pub proof fn law_boards_are_reloaded_on_request(settings: ViewSettings)
    requires
        settings.enabled,
    ensures
        settings.reload_open_boards ==> view_action(settings, Some("kicad_pcb"@))
            == Action::ReloadBoard(settings.ipc_address),
        !settings.reload_open_boards ==> view_action(settings, Some("kicad_pcb"@))
            == Action::Nothing,
{
    reveal_strlit("kicad_pcb");
    reveal_strlit("kicad_sch");
    assert("kicad_pcb"@[6] != "kicad_sch"@[6]);
}

/// A document that is neither a board nor a schematic touches nothing on screen.
pub proof fn law_other_documents_are_left_alone(
    settings: ViewSettings,
    extension: Option<Seq<char>>,
)
    requires
        extension != Some("kicad_pcb"@),
        extension != Some("kicad_sch"@),
    ensures
        view_action(settings, extension) == Action::Nothing,
{
}

/// Live view is off by default, in both its halves, and has no address.
pub proof fn law_live_view_is_off_by_default()
    ensures
        !default_settings().enabled,
        !default_settings().reload_open_boards,
        default_settings().ipc_address.len() == 0,
{
}

/// A configured address is used as it is; KiCad's own stands in only where none is
/// configured.
pub proof fn law_a_configured_address_is_used(configured: Seq<char>, default_socket: Seq<char>)
    ensures
        configured.len() > 0 ==> resolved_address(configured, default_socket) == configured,
        configured.len() == 0 ==> resolved_address(configured, default_socket) == default_socket,
{
}

// ─── Viewer focus channel ────────────────────────────────────────────────────

/// The path of `name` in the directory `base`.
pub open spec fn joined(base: Seq<char>, separator: char, name: Seq<char>) -> Seq<char> {
    if base.len() == 0 || base.last() == separator {
        base + name
    } else {
        base.push(separator) + name
    }
}

fn join(base: &str, separator: char, name: &str) -> (res: String)
    ensures
        res@ == joined(base@, separator, name@),
{
    let mut out = to_chars(base);
    let len = out.len();
    if len > 0 && out[len - 1] != separator {
        out.push(separator);
    }
    append_str(&mut out, name);
    to_text(out.as_slice())
}

/// Directory the viewer watches for focus messages.
///
/// A fixed path under the system temp directory rather than something derived
/// from the viewer's process id: the writer here and the viewer are separate
/// processes that never meet.
pub fn focus_dir(temp_dir: &str, separator: char) -> (res: String)
    ensures
        res@ == joined(temp_dir@, separator, "konnect-viewer"@),
{
    join(temp_dir, separator, "konnect-viewer")
}

/// The single file the viewer watches. Rewritten in place on every message.
pub fn focus_path(temp_dir: &str, separator: char) -> (res: String)
    ensures
        res@ == joined(
            joined(temp_dir@, separator, "konnect-viewer"@),
            separator,
            "focus.json"@,
        ),
{
    join(focus_dir(temp_dir, separator).as_str(), separator, "focus.json")
}

/// The text that `serde_json` writes for an object of four members: a number, a
/// string, a list of strings and a string, each under its key.
pub uninterp spec fn object_text(
    number_key: Seq<char>,
    number: u64,
    text_key: Seq<char>,
    text: Seq<char>,
    list_key: Seq<char>,
    list: Seq<Seq<char>>,
    note_key: Seq<char>,
    note: Seq<char>,
) -> Seq<char>;

/// `serde_json::Value::to_string` on the object that `serde_json::Map::insert`
/// builds of the four members. The text depends on the keys and values alone;
/// how JSON is written is left to the crate.
#[verifier::external_body]
fn json_object(
    number: (&str, u64),
    text: (&str, &str),
    list: (&str, &[String]),
    note: (&str, &str),
) -> (res: String)
    ensures
        res@ == object_text(
            number.0@,
            number.1,
            text.0@,
            text.1@,
            list.0@,
            views(list.1@),
            note.0@,
            note.1@,
        ),
{
    let mut object = serde_json::Map::new();
    object.insert(number.0.to_string(), serde_json::Value::from(number.1));
    object.insert(text.0.to_string(), serde_json::Value::from(text.1));
    object.insert(list.0.to_string(), serde_json::Value::from(list.1.to_vec()));
    object.insert(note.0.to_string(), serde_json::Value::from(note.1));
    serde_json::Value::Object(object).to_string()
}

/// What the focus file says in message number `seq`.
pub open spec fn focus_text(
    seq: u64,
    sheet: Seq<char>,
    highlight: Seq<Seq<char>>,
    reason: Seq<char>,
) -> Seq<char> {
    object_text("seq"@, seq, "file"@, sheet, "highlight"@, highlight, "reason"@, reason)
}

/// The message that tells the viewer which sheet is being worked on, and
/// optionally which symbols to mark: its number and its text.
///
/// `previous` is the number of the message before it. The number increments on
/// every message so the viewer can tell a genuine repeat ("focus this sheet
/// again") from a duplicate filesystem event, which the watcher will deliver
/// more than once for a single write.
pub fn write_focus(previous: u64, sheet: &str, highlight: &[String], reason: &str) -> (res: (
    u64,
    String,
))
    requires
        previous < u64::MAX,
    ensures
        res.0 == previous + 1,
        res.1@ == focus_text(res.0, sheet@, views(highlight@), reason@),
        res.1@ == object_text(
            "seq"@,
            res.0,
            "file"@,
            sheet@,
            "highlight"@,
            views(highlight@),
            "reason"@,
            reason@,
        ),
{
    let seq: u64 = previous + 1;
    let text = json_object(("seq", seq), ("file", sheet), ("highlight", highlight), ("reason", reason));
    (seq, text)
}

/// A path is the directory, one separator and the name: the separator is put in
/// exactly where the directory does not end in one already.
pub proof fn law_paths_have_one_separator(base: Seq<char>, separator: char, name: Seq<char>)
    requires
        base.len() > 0,
        base.last() != separator,
    ensures
        joined(base, separator, name) == base + seq![separator] + name,
        joined(base.push(separator), separator, name) == base + seq![separator] + name,
        joined(Seq::<char>::empty(), separator, name) == name,
{
    assert(joined(base, separator, name) =~= base + seq![separator] + name);
    assert(joined(base.push(separator), separator, name) =~= base + seq![separator] + name);
    assert(joined(Seq::<char>::empty(), separator, name) =~= name);
}

/// A focus message holds the number, the sheet, the symbols to mark and the reason,
/// each under its own key.
pub proof fn law_a_focus_message_says_all(
    seq: u64,
    sheet: Seq<char>,
    highlight: Seq<Seq<char>>,
    reason: Seq<char>,
)
    ensures
        focus_text(seq, sheet, highlight, reason) == object_text(
            "seq"@,
            seq,
            "file"@,
            sheet,
            "highlight"@,
            highlight,
            "reason"@,
            reason,
        ),
{
}

} // verus!
