//! What macOS gates, and what our last answer for each gate was.
//!
//! Three directories inside home sit behind a consent dialog: Desktop, Documents
//! and Downloads. Reading one for the first time *is* the request. Left alone
//! that happens inside the scan, which walks with several workers, so the dialogs
//! surface in an order nobody chose. What is decided here makes the only call
//! that can raise a dialog be one the user just clicked.
//!
//! Nothing here can grant anything. Past a refusal the honest move is to put the
//! user in front of the switch.
use vstd::prelude::*;

use crate::path::{
    child_path, path_below, path_name, paths, separator, spelled, within, FsPath, PartView,
    Platform,
};
use crate::text::{ends_with, joined, texts, trim, trimmed};

verus! {

/// Where we stand with one gated folder.
///
/// `Unknown` is "we have never asked", which is not `Denied`: an `Unknown` gate
/// still has a dialog waiting behind it and a `Denied` one does not.
#[derive(Debug, Clone, Copy, PartialEq, Eq, Structural)]
pub enum AccessState {
    Unknown,
    Granted,
    Denied,
}

impl Default for AccessState {
    fn default() -> (r: Self)
        ensures
            r is Unknown,
    {
        AccessState::Unknown
    }
}

/// One folder the operating system asks about.
#[derive(Debug)]
pub struct Gate {
    pub id: String,
    pub label: String,
    pub path: FsPath,
    /// An argument to `tccutil`. It comes out of the table and never from a
    /// caller.
    pub service: String,
}

/// What a [`Gate`] says.
pub struct GateView {
    pub id: Seq<char>,
    pub label: Seq<char>,
    pub path: Seq<PartView>,
    pub service: Seq<char>,
}

impl View for Gate {
    type V = GateView;

    open spec fn view(&self) -> GateView {
        GateView {
            id: self.id@,
            label: self.label@,
            path: self.path@,
            service: self.service@,
        }
    }
}

impl Clone for Gate {
    fn clone(&self) -> (r: Self)
        ensures
            r@ == self@,
    {
        Gate {
            id: self.id.clone(),
            label: self.label.clone(),
            path: self.path.clone(),
            service: self.service.clone(),
        }
    }
}

/// What a list of gates says.
pub open spec fn gate_views(gates: Seq<Gate>) -> Seq<GateView> {
    gates.map_values(|gate: Gate| gate@)
}

/// A gated folder in home. Its name doubles as the label.
pub open spec fn home_gate(
    home: Seq<PartView>,
    id: Seq<char>,
    name: Seq<char>,
    service: Seq<char>,
) -> GateView {
    GateView { id, label: name, path: child_path(home, name), service }
}

/// Every folder that may be gated. Nothing outside macOS puts a consent dialog in
/// front of a directory read.
pub open spec fn gate_table(platform: Platform, home: Seq<PartView>) -> Seq<GateView> {
    if platform is MacOs {
        seq![
            home_gate(home, "desktop"@, "Desktop"@, "SystemPolicyDesktopFolder"@),
            home_gate(home, "documents"@, "Documents"@, "SystemPolicyDocumentsFolder"@),
            home_gate(home, "downloads"@, "Downloads"@, "SystemPolicyDownloadsFolder"@),
        ]
    } else {
        Seq::empty()
    }
}

fn make_gate(home: &FsPath, id: &str, name: &str, service: &str) -> (r: Gate)
    ensures
        r@ == home_gate(home@, id@, name@, service@),
{
    Gate {
        id: id.to_string(),
        label: name.to_string(),
        path: home.child(name),
        service: service.to_string(),
    }
}

/// Every folder that may be gated, whether it exists or not.
pub fn possible_gates(platform: Platform, home: &FsPath) -> (r: Vec<Gate>)
    ensures
        gate_views(r@) == gate_table(platform, home@),
{
    let mut out: Vec<Gate> = Vec::new();
    match platform {
        Platform::MacOs => {
            out.push(make_gate(home, "desktop", "Desktop", "SystemPolicyDesktopFolder"));
            out.push(make_gate(home, "documents", "Documents", "SystemPolicyDocumentsFolder"));
            out.push(make_gate(home, "downloads", "Downloads", "SystemPolicyDownloadsFolder"));
        },
        _ => {},
    }
    assert(gate_views(out@) =~= gate_table(platform, home@));
    out
}

/// The gates of a list that exist. `exists_at` answers for each in turn; one
/// without an answer does not.
pub open spec fn existing_gates(table: Seq<GateView>, exists_at: Seq<bool>) -> Seq<GateView>
    decreases table.len(),
{
    if table.len() == 0 {
        Seq::empty()
    } else {
        let n = table.len() - 1;
        let before = existing_gates(table.drop_last(), exists_at);
        if n < exists_at.len() && exists_at[n] {
            before.push(table.last())
        } else {
            before
        }
    }
}

/// Every gated folder that exists on this machine. `exists_at` says, for each of
/// [`possible_gates`] in turn, whether its path does.
pub fn gates(platform: Platform, home: &FsPath, exists_at: &Vec<bool>) -> (r: Vec<Gate>)
    ensures
        gate_views(r@) == existing_gates(gate_table(platform, home@), exists_at@),
{
    let table = possible_gates(platform, home);
    let ghost all = gate_views(table@);
    let mut out: Vec<Gate> = Vec::new();
    let mut i: usize = 0;
    assert(gate_views(out@) =~= existing_gates(all.take(0), exists_at@));
    while i < table.len()
        invariant
            i <= table.len(),
            all == gate_views(table@),
            gate_views(out@) == existing_gates(all.take(i as int), exists_at@),
        decreases table.len() - i,
    {
        let ghost before = out@;
        assert(all.take(i + 1).drop_last() =~= all.take(i as int));
        assert(all.take(i + 1).last() == table@[i as int]@);
        if i < exists_at.len() && exists_at[i] {
            out.push(table[i].clone());
            assert(gate_views(out@) =~= gate_views(before).push(table@[i as int]@));
        }
        i += 1;
    }
    assert(all.take(all.len() as int) =~= all);
    out
}

/// The gates inside a root.
pub open spec fn gates_inside(gates: Seq<GateView>, root: Seq<PartView>) -> Seq<GateView>
    decreases gates.len(),
{
    if gates.len() == 0 {
        Seq::empty()
    } else if within(gates.last().path, root) {
        gates_inside(gates.drop_last(), root).push(gates.last())
    } else {
        gates_inside(gates.drop_last(), root)
    }
}

/// The gates inside `root` — the only ones a scan of `root` can walk into.
///
/// This is why the access step belongs after the scope step: pointed at a
/// projects folder, the app has nothing to ask for and should say so.
pub fn gates_under(gates: &Vec<Gate>, root: &FsPath) -> (r: Vec<Gate>)
    ensures
        gate_views(r@) == gates_inside(gate_views(gates@), root@),
{
    let ghost all = gate_views(gates@);
    let mut out: Vec<Gate> = Vec::new();
    let mut i: usize = 0;
    assert(gate_views(out@) =~= gates_inside(all.take(0), root@));
    while i < gates.len()
        invariant
            i <= gates.len(),
            all == gate_views(gates@),
            gate_views(out@) == gates_inside(all.take(i as int), root@),
        decreases gates.len() - i,
    {
        let ghost before = out@;
        assert(all.take(i + 1).drop_last() =~= all.take(i as int));
        assert(all.take(i + 1).last() == gates@[i as int]@);
        if crate::guard::is_within(&gates[i].path, root) {
            out.push(gates[i].clone());
            assert(gate_views(out@) =~= gate_views(before).push(gates@[i as int]@));
        }
        i += 1;
    }
    assert(all.take(all.len() as int) =~= all);
    out
}

/// The first gate with an id.
pub open spec fn gate_with(gates: Seq<GateView>, id: Seq<char>) -> Option<GateView>
    decreases gates.len(),
{
    if gates.len() == 0 {
        None
    } else if gates[0].id == id {
        Some(gates[0])
    } else {
        gate_with(gates.drop_first(), id)
    }
}

/// Look one up by id. `None` for anything not in the list, which is how an id
/// from outside is kept out of a `tccutil` argument list.
pub fn gate(gates: &Vec<Gate>, id: &str) -> (r: Option<Gate>)
    ensures
        (match r {
            Some(gate) => gate_with(gate_views(gates@), id@) == Some(gate@),
            None => gate_with(gate_views(gates@), id@) is None,
        }),
{
    let ghost all = gate_views(gates@);
    let mut i: usize = 0;
    assert(all.subrange(0, all.len() as int) =~= all);
    while i < gates.len()
        invariant
            i <= gates.len(),
            all == gate_views(gates@),
            gate_with(all, id@) == gate_with(all.subrange(i as int, all.len() as int), id@),
        decreases gates.len() - i,
    {
        let ghost rest = all.subrange(i as int, all.len() as int);
        assert(rest[0] == gates@[i as int]@);
        if *gates[i].id.as_str() == *id {
            return Some(gates[i].clone());
        }
        assert(rest.drop_first() =~= all.subrange(i + 1, all.len() as int));
        i += 1;
    }
    None
}

// ---------------------------------------------------------------------------
// What is never walked
// ---------------------------------------------------------------------------

/// Whether a name has the extension of a Photos library.
pub open spec fn photos_library(name: Seq<char>) -> bool {
    ".photoslibrary"@.is_suffix_of(name) && name.len() > ".photoslibrary"@.len()
}

/// Whether a path ends in a name with the extension of a Photos library.
pub open spec fn photos_path(path: Seq<PartView>) -> bool {
    path_name(path) matches Some(name) && photos_library(name)
}

fn is_photos_path(path: &FsPath) -> (r: bool)
    ensures
        r == photos_path(path@),
{
    match path.file_name() {
        Some(name) => {
            let bare = *name.as_str() == *".photoslibrary";
            let at_end = ends_with(name.as_str(), ".photoslibrary");
            proof {
                let n = ".photoslibrary"@.len() as int;
                if at_end && name@.len() == n {
                    assert(name@.subrange(0, n) =~= name@);
                }
            }
            at_end && !bare
        },
        None => false,
    }
}

/// The paths of a list that are Photos libraries.
pub open spec fn photos_paths(entries: Seq<Seq<PartView>>) -> Seq<Seq<PartView>>
    decreases entries.len(),
{
    if entries.len() == 0 {
        Seq::empty()
    } else if photos_path(entries.last()) {
        photos_paths(entries.drop_last()).push(entries.last())
    } else {
        photos_paths(entries.drop_last())
    }
}

/// The fixed locations that are never walked.
pub open spec fn fixed_never_walk(home: Seq<PartView>) -> Seq<Seq<PartView>> {
    seq![
        path_below(home, seq!["Library"@, "Application Support"@, "AddressBook"@]),
        path_below(home, seq!["Library"@, "Calendars"@]),
        path_below(home, seq!["Library"@, "Reminders"@]),
    ]
}

/// Locations that raise a consent dialog of their own and can never hold a
/// finding: contacts, calendars, reminders and Photos libraries. `pictures` are
/// the entries of the Pictures folder, where the latter lie.
pub fn never_walk(platform: Platform, home: &FsPath, pictures: &Vec<FsPath>) -> (r: Vec<FsPath>)
    ensures
        paths(r@) == (if platform is MacOs {
            fixed_never_walk(home@) + photos_paths(paths(pictures@))
        } else {
            Seq::empty()
        }),
{
    let mut out: Vec<FsPath> = Vec::new();
    match platform {
        Platform::MacOs => {},
        _ => {
            assert(paths(out@) =~= Seq::empty());
            return out;
        },
    }
    let library = home.child("Library");
    let support = library.child("Application Support");
    let contacts = support.child("AddressBook");
    let calendars = library.child("Calendars");
    let reminders = library.child("Reminders");
    proof {
        let names = seq!["Library"@, "Application Support"@, "AddressBook"@];
        assert(contacts@ =~= path_below(home@, names));
        assert(calendars@ =~= path_below(home@, seq!["Library"@, "Calendars"@]));
        assert(reminders@ =~= path_below(home@, seq!["Library"@, "Reminders"@]));
    }
    out.push(contacts);
    out.push(calendars);
    out.push(reminders);
    let ghost fixed = fixed_never_walk(home@);
    let ghost all = paths(pictures@);
    assert(paths(out@) =~= fixed);
    let mut i: usize = 0;
    assert(paths(out@) =~= fixed + photos_paths(all.take(0)));
    while i < pictures.len()
        invariant
            i <= pictures.len(),
            all == paths(pictures@),
            paths(out@) == fixed + photos_paths(all.take(i as int)),
        decreases pictures.len() - i,
    {
        let ghost before = out@;
        assert(all.take(i + 1).drop_last() =~= all.take(i as int));
        assert(all.take(i + 1).last() == pictures@[i as int]@);
        if is_photos_path(&pictures[i]) {
            out.push(pictures[i].clone());
            assert(paths(out@) =~= paths(before).push(pictures@[i as int]@));
        }
        assert(paths(out@) =~= fixed + photos_paths(all.take(i + 1)));
        i += 1;
    }
    assert(all.take(all.len() as int) =~= all);
    out
}

// ---------------------------------------------------------------------------
// Asking
// ---------------------------------------------------------------------------

/// How reading a directory went.
#[derive(Debug, Clone, Copy, PartialEq, Eq, Structural)]
pub enum ReadOutcome {
    Read,
    PermissionDenied,
    Failed,
}

/// What reading a folder says about our access to it. Anything other than a
/// refusal is not an answer from the user, and none is recorded.
pub open spec fn answer(outcome: ReadOutcome) -> AccessState {
    match outcome {
        ReadOutcome::Read => AccessState::Granted,
        ReadOutcome::PermissionDenied => AccessState::Denied,
        ReadOutcome::Failed => AccessState::Unknown,
    }
}

/// What reading a folder says about our access to it.
pub fn probe(outcome: ReadOutcome) -> (r: AccessState)
    ensures
        r == answer(outcome),
{
    match outcome {
        ReadOutcome::Read => AccessState::Granted,
        ReadOutcome::PermissionDenied => AccessState::Denied,
        ReadOutcome::Failed => AccessState::Unknown,
    }
}

/// The directory that only Full Disk Access can read.
pub fn full_disk_path(home: &FsPath) -> (r: FsPath)
    ensures
        r@ == path_below(home@, seq!["Library"@, "Application Support"@, "com.apple.TCC"@]),
{
    let r = home.child("Library").child("Application Support").child("com.apple.TCC");
    assert(r@ =~= path_below(
        home@,
        seq!["Library"@, "Application Support"@, "com.apple.TCC"@],
    ));
    r
}

/// Whether this process can read the whole disk, given how reading
/// [`full_disk_path`] went. That directory is always there; anything other than a
/// clean read is a refusal. Outside macOS there is nothing to refuse.
pub fn full_disk_access(platform: Platform, outcome: ReadOutcome) -> (r: AccessState)
    ensures
        r == (if platform is MacOs && !(outcome is Read) {
            AccessState::Denied
        } else {
            AccessState::Granted
        }),
{
    match platform {
        Platform::MacOs => match probe(outcome) {
            AccessState::Granted => AccessState::Granted,
            _ => AccessState::Denied,
        },
        _ => AccessState::Granted,
    }
}

/// How running `tccutil` went.
#[derive(Debug)]
pub enum ToolOutcome {
    /// It could not be run, and why.
    NotRun(String),
    Succeeded,
    /// It failed, with this on its error output.
    Failed(String),
}

/// The arguments of the `tccutil` call that hands a folder back.
pub fn revoke_args(gate: &Gate, bundle_id: &str) -> (r: Vec<String>)
    ensures
        texts(r@) == seq!["reset"@, gate.service@, bundle_id@],
{
    let mut out: Vec<String> = Vec::new();
    out.push("reset".to_string());
    out.push(gate.service.clone());
    out.push(bundle_id.to_string());
    assert(texts(out@) =~= seq!["reset"@, gate.service@, bundle_id@]);
    out
}

/// Why a folder could not be handed back, or `None` where it was.
pub open spec fn revoke_error(
    platform: Platform,
    label: Seq<char>,
    outcome: ToolOutcome,
) -> Option<Seq<char>> {
    if !(platform is MacOs) {
        Some("nothing to revoke outside macOS"@)
    } else {
        match outcome {
            ToolOutcome::NotRun(why) => Some("could not run tccutil: "@ + why@),
            ToolOutcome::Succeeded => None,
            ToolOutcome::Failed(output) => Some(
                if trimmed(output@).len() == 0 {
                    "tccutil could not reset "@ + label
                } else {
                    trimmed(output@)
                },
            ),
        }
    }
}

/// Whether a folder was handed back, given how the tool went. After that its gate
/// is back to never-asked.
pub fn revoke(platform: Platform, gate: &Gate, outcome: &ToolOutcome) -> (r: Result<(), String>)
    ensures
        (match r {
            Ok(_) => revoke_error(platform, gate.label@, *outcome) is None,
            Err(why) => revoke_error(platform, gate.label@, *outcome) == Some(why@),
        }),
{
    match platform {
        Platform::MacOs => match outcome {
            ToolOutcome::NotRun(why) => Err(joined("could not run tccutil: ", why.as_str())),
            ToolOutcome::Succeeded => Ok(()),
            ToolOutcome::Failed(output) => {
                let why = trim(output.as_str());
                if why.as_str().is_empty() {
                    Err(joined("tccutil could not reset ", gate.label.as_str()))
                } else {
                    Err(why)
                }
            },
        },
        _ => Err("nothing to revoke outside macOS".to_string()),
    }
}

/// The System Settings panes holding the switches we cannot flip ourselves.
#[derive(Debug, Clone, Copy, PartialEq, Eq, Structural)]
pub enum SettingsPane {
    /// Where a folder the user denied can be turned back on.
    FilesAndFolders,
    /// Where Full Disk Access lives. It is never granted any other way.
    FullDisk,
}

/// The pane an id names.
pub open spec fn pane_of(id: Seq<char>) -> Option<SettingsPane> {
    if id == "files"@ {
        Some(SettingsPane::FilesAndFolders)
    } else if id == "full-disk"@ {
        Some(SettingsPane::FullDisk)
    } else {
        None
    }
}

/// The address of a pane.
pub open spec fn pane_url(pane: SettingsPane) -> Seq<char> {
    match pane {
        SettingsPane::FilesAndFolders =>
            "x-apple.systempreferences:com.apple.settings.PrivacySecurity.extension?Privacy_FilesAndFolders"@,
        SettingsPane::FullDisk =>
            "x-apple.systempreferences:com.apple.settings.PrivacySecurity.extension?Privacy_AllFiles"@,
    }
}

impl SettingsPane {
    /// `None` for anything unrecognised, so that no address can be named from
    /// outside.
    pub fn from_id(id: &str) -> (r: Option<SettingsPane>)
        ensures
            r == pane_of(id@),
    {
        if *id == *"files" {
            Some(SettingsPane::FilesAndFolders)
        } else if *id == *"full-disk" {
            Some(SettingsPane::FullDisk)
        } else {
            None
        }
    }

    pub fn url(self) -> (r: &'static str)
        ensures
            r@ == pane_url(self),
    {
        match self {
            SettingsPane::FilesAndFolders =>
                "x-apple.systempreferences:com.apple.settings.PrivacySecurity.extension?Privacy_FilesAndFolders",
            SettingsPane::FullDisk =>
                "x-apple.systempreferences:com.apple.settings.PrivacySecurity.extension?Privacy_AllFiles",
        }
    }
}

/// Whether a pane was opened. `failure` is why the opener could not be run, if it
/// could not.
pub fn open_pane(platform: Platform, failure: Option<&str>) -> (r: Result<(), String>)
    ensures
        (match r {
            Ok(_) => platform is MacOs && failure is None,
            Err(why) => if platform is MacOs {
                failure matches Some(error) && why@ == "could not open System Settings: "@ + error@
            } else {
                why@ == "System Settings is macOS only"@
            },
        }),
{
    match platform {
        Platform::MacOs => match failure {
            Some(error) => Err(joined("could not open System Settings: ", error)),
            None => Ok(()),
        },
        _ => Err("System Settings is macOS only".to_string()),
    }
}

/// One row of the access step.
#[derive(Debug)]
pub struct GateStatus {
    pub id: String,
    pub label: String,
    pub path: String,
    pub state: AccessState,
}

/// What a [`GateStatus`] says.
pub struct GateStatusView {
    pub id: Seq<char>,
    pub label: Seq<char>,
    pub path: Seq<char>,
    pub state: AccessState,
}

impl View for GateStatus {
    type V = GateStatusView;

    open spec fn view(&self) -> GateStatusView {
        GateStatusView {
            id: self.id@,
            label: self.label@,
            path: self.path@,
            state: self.state,
        }
    }
}

/// The row for a gate.
pub open spec fn status_row(gate: GateView, state: AccessState, platform: Platform) -> GateStatusView {
    GateStatusView {
        id: gate.id,
        label: gate.label,
        path: spelled(gate.path, separator(platform)),
        state,
    }
}

impl GateStatus {
    pub fn new(gate: &Gate, state: AccessState, platform: Platform) -> (r: GateStatus)
        ensures
            r@ == status_row(gate@, state, platform),
    {
        GateStatus {
            id: gate.id.clone(),
            label: gate.label.clone(),
            path: gate.path.display(platform),
            state,
        }
    }
}

// ---------------------------------------------------------------------------
// What access promises
// ---------------------------------------------------------------------------

proof fn lemma_existing_gates(table: Seq<GateView>, exists_at: Seq<bool>)
    ensures
        forall|k: int|
            0 <= k < existing_gates(table, exists_at).len() ==> table.contains(
                #[trigger] existing_gates(table, exists_at)[k],
            ),
    decreases table.len(),
{
    if table.len() > 0 {
        let front = table.drop_last();
        lemma_existing_gates(front, exists_at);
        let before = existing_gates(front, exists_at);
        let all = existing_gates(table, exists_at);
        assert forall|k: int| 0 <= k < all.len() implies table.contains(#[trigger] all[k]) by {
            if k < before.len() {
                assert(all[k] == before[k]);
                let m = choose|m: int| 0 <= m < front.len() && front[m] == before[k];
                assert(table[m] == all[k]);
            } else {
                assert(table[table.len() - 1] == all[k]);
            }
        }
    }
}

/// Every gate lies inside home and has a service to reset.
pub proof fn law_gates_live_inside_home(
    platform: Platform,
    home: Seq<PartView>,
    exists_at: Seq<bool>,
)
    ensures
        forall|k: int|
            0 <= k < existing_gates(gate_table(platform, home), exists_at).len() ==> {
                let gate = #[trigger] existing_gates(gate_table(platform, home), exists_at)[k];
                &&& within(gate.path, home)
                &&& gate.path.len() == home.len() + 1
                &&& gate.service.len() > 0
            },
{
    let table = gate_table(platform, home);
    lemma_existing_gates(table, exists_at);
    reveal_strlit("SystemPolicyDesktopFolder");
    reveal_strlit("SystemPolicyDocumentsFolder");
    reveal_strlit("SystemPolicyDownloadsFolder");
    assert forall|k: int| 0 <= k < existing_gates(table, exists_at).len() implies {
        let gate = #[trigger] existing_gates(table, exists_at)[k];
        &&& within(gate.path, home)
        &&& gate.path.len() == home.len() + 1
        &&& gate.service.len() > 0
    } by {
        let gate = existing_gates(table, exists_at)[k];
        assert(table.contains(gate));
        let m = choose|m: int| 0 <= m < table.len() && table[m] == gate;
        assert(gate.path.subrange(0, home.len() as int) =~= home);
    }
}

proof fn lemma_all_inside(gates: Seq<GateView>, root: Seq<PartView>)
    requires
        forall|k: int| 0 <= k < gates.len() ==> within((#[trigger] gates[k]).path, root),
    ensures
        gates_inside(gates, root) == gates,
    decreases gates.len(),
{
    if gates.len() > 0 {
        let front = gates.drop_last();
        assert forall|k: int| 0 <= k < front.len() implies within(
            (#[trigger] front[k]).path,
            root,
        ) by {
            assert(front[k] == gates[k]);
        }
        lemma_all_inside(front, root);
        assert(within(gates[gates.len() - 1].path, root));
        assert(front.push(gates.last()) =~= gates);
    } else {
        assert(gates_inside(gates, root) =~= gates);
    }
}

/// Scanning home asks for every gate.
pub proof fn law_home_asks_for_every_gate(
    platform: Platform,
    home: Seq<PartView>,
    exists_at: Seq<bool>,
)
    ensures
        gates_inside(existing_gates(gate_table(platform, home), exists_at), home)
            == existing_gates(gate_table(platform, home), exists_at),
{
    law_gates_live_inside_home(platform, home, exists_at);
    let gates = existing_gates(gate_table(platform, home), exists_at);
    assert forall|k: int| 0 <= k < gates.len() implies within((#[trigger] gates[k]).path, home) by {
    }
    lemma_all_inside(gates, home);
}

/// A root that no gate lies inside of asks for nothing at all.
pub proof fn law_elsewhere_asks_for_nothing(gates: Seq<GateView>, root: Seq<PartView>)
    requires
        forall|k: int| 0 <= k < gates.len() ==> !within((#[trigger] gates[k]).path, root),
    ensures
        gates_inside(gates, root).len() == 0,
    decreases gates.len(),
{
    if gates.len() > 0 {
        let front = gates.drop_last();
        assert forall|k: int| 0 <= k < front.len() implies !within(
            (#[trigger] front[k]).path,
            root,
        ) by {
            assert(front[k] == gates[k]);
        }
        law_elsewhere_asks_for_nothing(front, root);
        assert(!within(gates[gates.len() - 1].path, root));
    }
}

proof fn lemma_gate_ids_differ()
    ensures
        "desktop"@ != "documents"@,
        "desktop"@ != "downloads"@,
        "documents"@ != "downloads"@,
{
    reveal_strlit("desktop");
    reveal_strlit("documents");
    reveal_strlit("downloads");
    assert("desktop"@.len() == 7 && "documents"@.len() == 9 && "downloads"@.len() == 9);
    assert("documents"@[2] == 'c' && "downloads"@[2] == 'w');
}

/// An id resolves to a gate that carries it, if one is listed, and to nothing
/// otherwise.
pub proof fn law_ids_resolve(gates: Seq<GateView>, id: Seq<char>)
    ensures
        gate_with(gates, id) is Some <==> exists|k: int|
            0 <= k < gates.len() && (#[trigger] gates[k]).id == id,
        gate_with(gates, id) matches Some(gate) ==> gates.contains(gate) && gate.id == id,
    decreases gates.len(),
{
    if gates.len() > 0 {
        let rest = gates.drop_first();
        law_ids_resolve(rest, id);
        if gates[0].id == id {
            assert(gates.contains(gates[0]));
        } else {
            if exists|k: int| 0 <= k < gates.len() && (#[trigger] gates[k]).id == id {
                let k = choose|k: int| 0 <= k < gates.len() && (#[trigger] gates[k]).id == id;
                assert(rest[k - 1].id == id);
            }
            if exists|k: int| 0 <= k < rest.len() && (#[trigger] rest[k]).id == id {
                let k = choose|k: int| 0 <= k < rest.len() && (#[trigger] rest[k]).id == id;
                assert(gates[k + 1].id == id);
            }
            if let Some(gate) = gate_with(rest, id) {
                let k = choose|k: int| 0 <= k < rest.len() && rest[k] == gate;
                assert(gates[k + 1] == gate);
            }
        }
    }
}

/// Every listed gate resolves by its id, and to itself.
pub proof fn law_listed_gates_resolve(
    platform: Platform,
    home: Seq<PartView>,
    exists_at: Seq<bool>,
    k: int,
)
    requires
        0 <= k < existing_gates(gate_table(platform, home), exists_at).len(),
    ensures
        ({
            let gates = existing_gates(gate_table(platform, home), exists_at);
            gate_with(gates, gates[k].id) == Some(gates[k])
        }),
{
    let table = gate_table(platform, home);
    let gates = existing_gates(table, exists_at);
    lemma_existing_gates(table, exists_at);
    lemma_gate_ids_differ();
    law_ids_resolve(gates, gates[k].id);
    let found = gate_with(gates, gates[k].id)->0;
    let j = choose|j: int| 0 <= j < gates.len() && gates[j] == found;
    assert(table.contains(gates[j]) && table.contains(gates[k]));
    let a = choose|a: int| 0 <= a < table.len() && table[a] == gates[j];
    let b = choose|b: int| 0 <= b < table.len() && table[b] == gates[k];
    assert(a == b);
}

// ---------------------------------------------------------------------------
// Which folders, and what is said about them
// ---------------------------------------------------------------------------

/// On macOS exactly the Desktop, the Documents and the Downloads of home are gated,
/// each with its own service; elsewhere nothing is.
pub proof fn law_three_folders_are_gated(
    platform: Platform,
    home: Seq<PartView>,
    path: Seq<PartView>,
)
    ensures
        (exists|k: int|
            0 <= k < gate_table(platform, home).len() && (#[trigger] gate_table(
                platform,
                home,
            )[k]).path == path) <==> platform is MacOs && {
            ||| path == home.push(PartView::Normal("Desktop"@))
            ||| path == home.push(PartView::Normal("Documents"@))
            ||| path == home.push(PartView::Normal("Downloads"@))
        },
        forall|k: int|
            0 <= k < gate_table(platform, home).len() ==> {
                let gate = #[trigger] gate_table(platform, home)[k];
                &&& gate.path == home.push(PartView::Normal(gate.label))
                &&& gate.id == "desktop"@ ==> gate.label == "Desktop"@ && gate.service
                    == "SystemPolicyDesktopFolder"@
                &&& gate.id == "documents"@ ==> gate.label == "Documents"@ && gate.service
                    == "SystemPolicyDocumentsFolder"@
                &&& gate.id == "downloads"@ ==> gate.label == "Downloads"@ && gate.service
                    == "SystemPolicyDownloadsFolder"@
                &&& gate.id == "desktop"@ || gate.id == "documents"@ || gate.id == "downloads"@
            },
{
    let table = gate_table(platform, home);
    lemma_gate_ids_differ();
    if platform is MacOs {
        assert(table[0].path == home.push(PartView::Normal("Desktop"@)));
        assert(table[1].path == home.push(PartView::Normal("Documents"@)));
        assert(table[2].path == home.push(PartView::Normal("Downloads"@)));
    }
}

/// A gate is there exactly if its folder was found to exist.
pub proof fn law_gates_are_those_that_exist(
    table: Seq<GateView>,
    exists_at: Seq<bool>,
    gate: GateView,
    there: bool,
)
    requires
        exists_at.len() == table.len(),
    ensures
        existing_gates(Seq::empty(), exists_at).len() == 0,
        there ==> existing_gates(table.push(gate), exists_at.push(there)) == existing_gates(
            table,
            exists_at,
        ).push(gate),
        !there ==> existing_gates(table.push(gate), exists_at.push(there)) == existing_gates(
            table,
            exists_at,
        ),
{
    let more = table.push(gate);
    assert(more.drop_last() =~= table);
    assert(more.last() == gate);
    assert(exists_at.push(there)[table.len() as int] == there);
    lemma_later_answers(table, exists_at, there);
}

proof fn lemma_later_answers(table: Seq<GateView>, exists_at: Seq<bool>, there: bool)
    requires
        table.len() <= exists_at.len(),
    ensures
        existing_gates(table, exists_at.push(there)) == existing_gates(table, exists_at),
    decreases table.len(),
{
    if table.len() > 0 {
        lemma_later_answers(table.drop_last(), exists_at, there);
        let n = table.len() - 1;
        assert(exists_at.push(there)[n] == exists_at[n]);
    }
}

/// A scan asks for a folder exactly if it lies in what is scanned, and for all such
/// folders in their order.
pub proof fn law_scans_ask_for_what_they_meet(
    gates: Seq<GateView>,
    gate: GateView,
    root: Seq<PartView>,
)
    ensures
        gates_inside(Seq::empty(), root).len() == 0,
        within(gate.path, root) ==> gates_inside(gates.push(gate), root) == gates_inside(
            gates,
            root,
        ).push(gate),
        !within(gate.path, root) ==> gates_inside(gates.push(gate), root) == gates_inside(
            gates,
            root,
        ),
{
    let more = gates.push(gate);
    assert(more.drop_last() =~= gates);
    assert(more.last() == gate);
}

/// Contacts, calendars and reminders are never walked.
pub proof fn law_private_stores_are_never_walked(home: Seq<PartView>)
    ensures
        ({
            let library = home.push(PartView::Normal("Library"@));
            let all = fixed_never_walk(home);
            &&& all.contains(
                library.push(PartView::Normal("Application Support"@)).push(
                    PartView::Normal("AddressBook"@),
                ),
            )
            &&& all.contains(library.push(PartView::Normal("Calendars"@)))
            &&& all.contains(library.push(PartView::Normal("Reminders"@)))
            &&& all.len() == 3
        }),
{
    let library = home.push(PartView::Normal("Library"@));
    let all = fixed_never_walk(home);
    assert(all[0] =~= library.push(PartView::Normal("Application Support"@)).push(
        PartView::Normal("AddressBook"@),
    ));
    assert(all[1] =~= library.push(PartView::Normal("Calendars"@)));
    assert(all[2] =~= library.push(PartView::Normal("Reminders"@)));
}

/// A Photos library is never walked, whatever it is called, and nothing else among
/// the pictures is kept from the walk.
pub proof fn law_photos_libraries_are_never_walked(
    entries: Seq<Seq<PartView>>,
    dir: Seq<PartView>,
    name: Seq<char>,
)
    requires
        name.len() > 0,
    ensures
        photos_paths(Seq::empty()).len() == 0,
        photos_paths(entries.push(dir.push(PartView::Normal(name + ".photoslibrary"@))))
            == photos_paths(entries).push(dir.push(PartView::Normal(name + ".photoslibrary"@))),
        !".photoslibrary"@.is_suffix_of(name) ==> photos_paths(
            entries.push(dir.push(PartView::Normal(name))),
        ) == photos_paths(entries),
{
    reveal_strlit(".photoslibrary");
    let end = ".photoslibrary"@;
    let long = name + end;
    assert(long.subrange(long.len() - end.len(), long.len() as int) =~= end);
    let one = entries.push(dir.push(PartView::Normal(long)));
    let other = entries.push(dir.push(PartView::Normal(name)));
    assert(one.drop_last() =~= entries);
    assert(other.drop_last() =~= entries);
    assert(path_name(dir.push(PartView::Normal(long))) == Some(long));
    assert(path_name(dir.push(PartView::Normal(name))) == Some(name));
}

/// Reading a folder grants it, a refusal denies it, and any other failure says
/// nothing either way.
pub proof fn law_only_refusals_deny(outcome: ReadOutcome)
    ensures
        answer(outcome) is Granted <==> outcome is Read,
        answer(outcome) is Denied <==> outcome is PermissionDenied,
        answer(outcome) is Unknown <==> outcome is Failed,
{
}

/// A folder is handed back only on macOS and only if the tool succeeded; otherwise
/// there is something to say about it.
pub proof fn law_revoking_succeeds_with_the_tool(
    platform: Platform,
    label: Seq<char>,
    outcome: ToolOutcome,
)
    ensures
        revoke_error(platform, label, outcome) is None <==> platform is MacOs
            && outcome is Succeeded,
        !(platform is MacOs) ==> revoke_error(platform, label, outcome) == Some(
            "nothing to revoke outside macOS"@,
        ),
        platform is MacOs && outcome is NotRun ==> revoke_error(platform, label, outcome) == Some(
            "could not run tccutil: "@ + outcome->NotRun_0@,
        ),
        platform is MacOs && outcome is Failed && trimmed(outcome->Failed_0@).len() > 0
            ==> revoke_error(platform, label, outcome) == Some(trimmed(outcome->Failed_0@)),
        platform is MacOs && outcome is Failed && trimmed(outcome->Failed_0@).len() == 0
            ==> revoke_error(platform, label, outcome) == Some("tccutil could not reset "@ + label),
{
}

/// Each pane has one id, and no other id leads anywhere.
pub proof fn law_panes_are_named(id: Seq<char>)
    ensures
        pane_of(id) == Some(SettingsPane::FilesAndFolders) <==> id == "files"@,
        pane_of(id) == Some(SettingsPane::FullDisk) <==> id == "full-disk"@,
        pane_url(SettingsPane::FilesAndFolders)
            == "x-apple.systempreferences:com.apple.settings.PrivacySecurity.extension?Privacy_FilesAndFolders"@,
        pane_url(SettingsPane::FullDisk)
            == "x-apple.systempreferences:com.apple.settings.PrivacySecurity.extension?Privacy_AllFiles"@,
{
    reveal_strlit("files");
    reveal_strlit("full-disk");
    assert("files"@.len() == 5 && "full-disk"@.len() == 9);
}

/// A row tells the id, label and path of its folder, and the state it was given.
pub proof fn law_rows_tell_their_gate(gate: GateView, state: AccessState, platform: Platform)
    ensures
        status_row(gate, state, platform).id == gate.id,
        status_row(gate, state, platform).label == gate.label,
        status_row(gate, state, platform).path == spelled(gate.path, separator(platform)),
        status_row(gate, state, platform).state == state,
{
}

/// The whole disk can be read exactly if it was, or if there is nobody to refuse it.
pub proof fn law_full_access_is_a_clean_read(
    platform: Platform,
    outcome: ReadOutcome,
    r: AccessState,
)
    requires
        call_ensures(full_disk_access, (platform, outcome), r),
    ensures
        r is Granted <==> !(platform is MacOs) || outcome is Read,
        r is Denied <==> platform is MacOs && !(outcome is Read),
{
}

/// On macOS the private stores and every Photos library among the pictures are never
/// walked; elsewhere nothing is kept from the walk.
pub proof fn law_never_walked(
    platform: Platform,
    home: &FsPath,
    pictures: &Vec<FsPath>,
    r: Vec<FsPath>,
    path: Seq<PartView>,
)
    requires
        call_ensures(never_walk, (platform, home, pictures), r),
    ensures
        platform is MacOs ==> (paths(r@).contains(path) <==> fixed_never_walk(home@).contains(path)
            || photos_paths(paths(pictures@)).contains(path)),
        !(platform is MacOs) ==> r@.len() == 0,
{
    if platform is MacOs {
        let a = fixed_never_walk(home@);
        let b = photos_paths(paths(pictures@));
        let all = paths(r@);
        assert(all == a + b);
        if a.contains(path) {
            let k = choose|k: int| 0 <= k < a.len() && a[k] == path;
            assert(all[k] == path);
        }
        if b.contains(path) {
            let k = choose|k: int| 0 <= k < b.len() && b[k] == path;
            assert(all[a.len() + k] == path);
        }
        if all.contains(path) {
            let k = choose|k: int| 0 <= k < all.len() && all[k] == path;
            if k < a.len() {
                assert(a[k] == path);
            } else {
                assert(b[k - a.len()] == path);
            }
        }
    } else {
        assert(paths(r@).len() == r@.len());
    }
}

} // verus!
