//! What the desktop app decides between its window and the rest.
//!
//! Which root is scanned with which exclusions, which scan is the active one,
//! what the window is sent, and what it may ask for.
use vstd::prelude::*;

use crate::access::{
    answer, gate, gate_views, gate_with, pane_of, probe, status_row, AccessState, Gate, GateStatus,
    GateView, ReadOutcome, SettingsPane,
};
use crate::config::{
    has_profile, normalize_absolute, profile_at, resolved, Config, ScanProfile,
};
use crate::findings::{finding_views, Finding, FindingView};
use crate::guard::Target;
use crate::history::{
    df_column, find_receipt, has_receipt, read_df_column, receipt_at, Receipt,
};
use crate::path::{
    absolute, climbs, contains_path, listed_path, paths, separator, spelled, within_any, FsPath,
    PartView, Platform,
};
use crate::purge::{allowed_paths, allowed_roots};
use crate::rules::Rules;
use crate::scan::{Node, NodeState, Tree, NONE};
use crate::text::{blank, is_blank, joined, texts};

verus! {

// ---------------------------------------------------------------------------
// What is scanned
// ---------------------------------------------------------------------------

/// A scan the window asks for.
#[derive(Debug)]
pub struct ScanRequest {
    pub scan_id: String,
    pub root: Option<FsPath>,
    pub profile_id: Option<String>,
    pub excluded_paths: Vec<FsPath>,
    pub excluded_rules: Vec<String>,
}

/// A scan that can be run.
#[derive(Debug)]
pub struct ScanPlan {
    pub root: FsPath,
    pub excluded_paths: Vec<FsPath>,
    pub excluded_rules: Vec<String>,
}

/// What a [`ScanPlan`] says.
pub struct ScanPlanView {
    pub root: Seq<PartView>,
    pub excluded_paths: Seq<Seq<PartView>>,
    pub excluded_rules: Seq<Seq<char>>,
}

impl View for ScanPlan {
    type V = ScanPlanView;

    open spec fn view(&self) -> ScanPlanView {
        ScanPlanView {
            root: self.root@,
            excluded_paths: paths(self.excluded_paths@),
            excluded_rules: texts(self.excluded_rules@),
        }
    }
}

/// The place of the profile a request names: the first with its id.
pub open spec fn requested_profile(request: ScanRequest, config: Config) -> Option<ScanProfile> {
    match request.profile_id {
        Some(id) => if has_profile(config.profiles@, id@) {
            Some(config.profiles@[choose|i: int| profile_at(config.profiles@, id@, i)])
        } else {
            None
        },
        None => None,
    }
}

/// The root a request is about: its profile's, its own, or home.
pub open spec fn requested_root(
    request: ScanRequest,
    config: Config,
    home: Seq<PartView>,
) -> Seq<PartView> {
    match requested_profile(request, config) {
        Some(profile) => profile.root@,
        None => match request.root {
            Some(root) => root@,
            None => home,
        },
    }
}

/// The paths a request leaves out: its profile's, those left out everywhere, and
/// its own.
pub open spec fn requested_paths(request: ScanRequest, config: Config) -> Seq<Seq<PartView>> {
    let profile = match requested_profile(request, config) {
        Some(profile) => paths(profile.excluded_paths@),
        None => Seq::empty(),
    };
    profile + paths(config.global_excluded_paths@) + paths(request.excluded_paths@)
}

/// The rules a request leaves out: its profile's, those left out everywhere, and
/// its own.
pub open spec fn requested_rules(request: ScanRequest, config: Config) -> Seq<Seq<char>> {
    let profile = match requested_profile(request, config) {
        Some(profile) => texts(profile.excluded_rules@),
        None => Seq::empty(),
    };
    profile + texts(config.global_excluded_rules@) + texts(request.excluded_rules@)
}

/// Whether every path of a list is absolute.
pub open spec fn all_absolute(list: Seq<Seq<PartView>>, platform: Platform) -> bool {
    forall|i: int| 0 <= i < list.len() ==> absolute(#[trigger] list[i], platform)
}

/// The paths of a list, resolved.
pub open spec fn all_resolved(list: Seq<Seq<PartView>>) -> Seq<Seq<PartView>> {
    list.map_values(|path: Seq<PartView>| resolved(path))
}

/// What is wrong with a request, if anything is.
pub open spec fn request_error(
    request: ScanRequest,
    config: Config,
    home: Seq<PartView>,
    platform: Platform,
) -> Option<Seq<char>> {
    if blank(request.scan_id@) {
        Some("scan_id is required"@)
    } else if request.root is Some && request.profile_id is Some {
        Some("provide either root or profile_id, never both"@)
    } else if request.profile_id is Some && requested_profile(request, config) is None {
        Some("profile not found"@)
    } else if !absolute(requested_root(request, config, home), platform) {
        Some("scan root must be absolute"@)
    } else if !all_absolute(requested_paths(request, config), platform) {
        Some("path must be absolute"@)
    } else {
        None
    }
}

/// What a request amounts to.
pub open spec fn planned(request: ScanRequest, config: Config, home: Seq<PartView>) -> ScanPlanView {
    ScanPlanView {
        root: resolved(requested_root(request, config, home)),
        excluded_paths: all_resolved(requested_paths(request, config)),
        excluded_rules: requested_rules(request, config),
    }
}

proof fn lemma_first_profile(profiles: Seq<ScanProfile>, id: Seq<char>, i: int)
    requires
        profile_at(profiles, id, i),
    ensures
        has_profile(profiles, id),
        (choose|k: int| profile_at(profiles, id, k)) == i,
{
    assert(profiles[i].id@ == id);
    let k = choose|k: int| profile_at(profiles, id, k);
    assert(profile_at(profiles, id, k));
    if k < i {
        assert(profiles[k].id@ != id);
    }
    if i < k {
        assert(profiles[i].id@ != id);
    }
}

/// Resolve the paths of a list behind those in `out`.
fn resolve_into(out: &mut Vec<FsPath>, list: &Vec<FsPath>, platform: Platform) -> (r: Result<
    (),
    String,
>)
    ensures
        (match r {
            Ok(_) => all_absolute(paths(list@), platform) && paths(final(out)@) == paths(
                old(out)@,
            ) + all_resolved(paths(list@)),
            Err(why) => !all_absolute(paths(list@), platform) && why@ == "path must be absolute"@,
        }),
{
    let ghost before = paths(out@);
    let ghost all = paths(list@);
    let ghost goal = all_resolved(all);
    let mut i: usize = 0;
    assert(before + goal.take(0) =~= before);
    while i < list.len()
        invariant
            i <= list.len(),
            all == paths(list@),
            goal == all_resolved(all),
            forall|k: int| 0 <= k < i ==> absolute(#[trigger] all[k], platform),
            paths(out@) == before + goal.take(i as int),
        decreases list.len() - i,
    {
        assert(all[i as int] == list@[i as int]@);
        match normalize_absolute(&list[i], platform) {
            Ok(path) => {
                let ghost sofar = out@;
                let ghost shown = path@;
                out.push(path);
                assert(goal[i as int] == shown);
                assert(paths(out@) =~= paths(sofar).push(shown));
                assert(before + goal.take(i + 1) =~= (before + goal.take(i as int)).push(shown));
            },
            Err(why) => {
                assert(!absolute(all[i as int], platform));
                return Err(why);
            },
        }
        i += 1;
    }
    assert(goal.take(goal.len() as int) =~= goal);
    Ok(())
}

/// Copy texts behind those in `out`.
fn copy_into(out: &mut Vec<String>, list: &Vec<String>)
    ensures
        texts(final(out)@) == texts(old(out)@) + texts(list@),
{
    let ghost before = texts(out@);
    let ghost all = texts(list@);
    let mut i: usize = 0;
    assert(before + all.take(0) =~= before);
    while i < list.len()
        invariant
            i <= list.len(),
            all == texts(list@),
            texts(out@) == before + all.take(i as int),
        decreases list.len() - i,
    {
        let ghost sofar = out@;
        out.push(list[i].clone());
        assert(texts(out@) =~= texts(sofar).push(all[i as int]));
        assert(before + all.take(i + 1) =~= (before + all.take(i as int)).push(all[i as int]));
        i += 1;
    }
    assert(all.take(all.len() as int) =~= all);
}

/// Turn a request into a scan that can be run, or say what is wrong with it.
pub fn scan_request(request: &ScanRequest, config: &Config, home: &FsPath, platform: Platform) -> (r:
    Result<ScanPlan, String>)
    ensures
        (match r {
            Ok(plan) => request_error(*request, *config, home@, platform) is None && plan@
                == planned(*request, *config, home@),
            Err(why) => request_error(*request, *config, home@, platform) == Some(why@),
        }),
{
    if is_blank(request.scan_id.as_str()) {
        return Err("scan_id is required".to_string());
    }
    if request.root.is_some() && request.profile_id.is_some() {
        return Err("provide either root or profile_id, never both".to_string());
    }
    let place: Option<usize> = match &request.profile_id {
        Some(id) => match crate::config::find_profile(&config.profiles, id.as_str()) {
            Some(i) => {
                proof {
                    lemma_first_profile(config.profiles@, id@, i as int);
                }
                Some(i)
            },
            None => {
                return Err("profile not found".to_string());
            },
        },
        None => None,
    };
    let asked = match place {
        Some(i) => config.profiles[i].root.clone(),
        None => match &request.root {
            Some(root) => root.clone(),
            None => home.clone(),
        },
    };
    if !asked.is_absolute(platform) {
        return Err("scan root must be absolute".to_string());
    }
    let root = match normalize_absolute(&asked, platform) {
        Ok(root) => root,
        Err(_) => {
            return Err("scan root must be absolute".to_string());
        },
    };
    let ghost own = match requested_profile(*request, *config) {
        Some(profile) => paths(profile.excluded_paths@),
        None => Seq::empty(),
    };
    let ghost global = paths(config.global_excluded_paths@);
    let ghost asked_paths = paths(request.excluded_paths@);
    let ghost all = requested_paths(*request, *config);
    proof {
        assert forall|i: int| 0 <= i < own.len() implies all[i] == #[trigger] own[i] by {}
        assert forall|i: int| 0 <= i < global.len() implies all[own.len() + i]
            == #[trigger] global[i] by {}
        assert forall|i: int| 0 <= i < asked_paths.len() implies all[own.len() + global.len() + i]
            == #[trigger] asked_paths[i] by {}
    }
    let mut excluded_paths: Vec<FsPath> = Vec::new();
    let mut excluded_rules: Vec<String> = Vec::new();
    assert(paths(excluded_paths@) =~= Seq::empty());
    assert(texts(excluded_rules@) =~= Seq::empty());
    match place {
        Some(i) => {
            if let Err(why) = resolve_into(
                &mut excluded_paths,
                &config.profiles[i].excluded_paths,
                platform,
            ) {
                proof {
                    let k = choose|k: int| 0 <= k < own.len() && !absolute(#[trigger] own[k], platform);
                    assert(!absolute(all[k], platform));
                }
                return Err(why);
            }
            copy_into(&mut excluded_rules, &config.profiles[i].excluded_rules);
        },
        None => {},
    }
    assert(paths(excluded_paths@) =~= all_resolved(own));
    if let Err(why) = resolve_into(&mut excluded_paths, &config.global_excluded_paths, platform) {
        proof {
            let k = choose|k: int| 0 <= k < global.len() && !absolute(#[trigger] global[k], platform);
            assert(!absolute(all[own.len() + k], platform));
        }
        return Err(why);
    }
    copy_into(&mut excluded_rules, &config.global_excluded_rules);
    if let Err(why) = resolve_into(&mut excluded_paths, &request.excluded_paths, platform) {
        proof {
            let k = choose|k: int|
                0 <= k < asked_paths.len() && !absolute(#[trigger] asked_paths[k], platform);
            assert(!absolute(all[own.len() + global.len() + k], platform));
        }
        return Err(why);
    }
    copy_into(&mut excluded_rules, &request.excluded_rules);
    proof {
        assert(all_absolute(all, platform)) by {
            assert forall|i: int| 0 <= i < all.len() implies absolute(
                #[trigger] all[i],
                platform,
            ) by {
                if i < own.len() {
                    assert(absolute(own[i], platform));
                } else if i < own.len() + global.len() {
                    assert(absolute(global[i - own.len()], platform));
                } else {
                    assert(absolute(asked_paths[i - own.len() - global.len()], platform));
                }
            }
        }
        assert(paths(excluded_paths@) =~= all_resolved(all));
        assert(texts(excluded_rules@) =~= requested_rules(*request, *config));
    }
    Ok(ScanPlan { root, excluded_paths, excluded_rules })
}

// ---------------------------------------------------------------------------
// The active scan
// ---------------------------------------------------------------------------

/// A scan that is running.
#[derive(Debug)]
pub struct ActiveScan {
    pub id: String,
    pub cancelled: bool,
}

/// The one scan that may run at a time.
#[derive(Debug)]
pub struct ScanSlot {
    pub active: Option<ActiveScan>,
}

/// What a [`ScanSlot`] says: the id of the active scan, and whether it was
/// cancelled.
pub open spec fn occupant(slot: ScanSlot) -> Option<(Seq<char>, bool)> {
    match slot.active {
        Some(scan) => Some((scan.id@, scan.cancelled)),
        None => None,
    }
}

/// Whether the active scan has this id.
pub open spec fn holds(slot: ScanSlot, id: Seq<char>) -> bool {
    occupant(slot) matches Some((active, _)) && active == id
}

impl ScanSlot {
    pub fn new() -> (r: ScanSlot)
        ensures
            occupant(r) is None,
    {
        ScanSlot { active: None }
    }

    /// Start a scan, unless one is running.
    pub fn begin(&mut self, id: &str) -> (r: Result<(), String>)
        ensures
            (match r {
                Ok(_) => occupant(*old(self)) is None && occupant(*final(self)) == Some(
                    (id@, false),
                ),
                Err(why) => occupant(*old(self)) is Some && *final(self) == *old(self) && why@
                    == "a scan is already active"@,
            }),
    {
        if self.active.is_some() {
            return Err("a scan is already active".to_string());
        }
        self.active = Some(ActiveScan { id: id.to_string(), cancelled: false });
        Ok(())
    }

    /// Cancel the active scan, if it is this one.
    pub fn cancel_scan(&mut self, id: &str) -> (r: bool)
        ensures
            r == holds(*old(self), id@),
            occupant(*final(self)) == (if holds(*old(self), id@) {
                Some((id@, true))
            } else {
                occupant(*old(self))
            }),
    {
        match &self.active {
            Some(scan) => {
                if *scan.id.as_str() == *id {
                    let copy = scan.id.clone();
                    self.active = Some(ActiveScan { id: copy, cancelled: true });
                    true
                } else {
                    false
                }
            },
            None => false,
        }
    }

    /// Whether this scan is the active one and was cancelled.
    pub fn is_cancelled(&self, id: &str) -> (r: bool)
        ensures
            r == (occupant(*self) == Some((id@, true))),
    {
        match &self.active {
            Some(scan) => *scan.id.as_str() == *id && scan.cancelled,
            None => false,
        }
    }

    /// A scan came to its end: make room if it was the active one, and say
    /// whether it was cancelled.
    pub fn end(&mut self, id: &str) -> (r: bool)
        ensures
            r == (occupant(*old(self)) == Some((id@, true))),
            occupant(*final(self)) == (if holds(*old(self), id@) {
                None
            } else {
                occupant(*old(self))
            }),
    {
        let cancelled = self.is_cancelled(id);
        let mine = match &self.active {
            Some(scan) => *scan.id.as_str() == *id,
            None => false,
        };
        if mine {
            self.active = None;
        }
        cancelled
    }
}

/// How a scan ended.
#[derive(Debug)]
pub enum ScanEnd {
    Finished,
    Cancelled,
    Failed(String),
    /// A worker broke off.
    Broken(String),
}

/// What the window is told about a scan that did not bring a tree.
pub open spec fn scan_failure(cancelled: bool, end: ScanEnd) -> Option<Seq<char>> {
    match end {
        ScanEnd::Broken(error) => Some("scan worker failed: "@ + error@),
        _ => if cancelled {
            Some("cancelled"@)
        } else {
            match end {
                ScanEnd::Failed(error) => Some("scan failed: "@ + error@),
                ScanEnd::Cancelled => Some("cancelled"@),
                _ => None,
            }
        },
    }
}

/// Whether a scan brought a tree that may be shown. One that was cancelled while
/// it ran is not shown, however it ended, and a worker that broke off is told of in
/// any case.
pub fn scan_outcome(cancelled: bool, end: &ScanEnd) -> (r: Result<(), String>)
    ensures
        (match r {
            Ok(_) => scan_failure(cancelled, *end) is None,
            Err(why) => scan_failure(cancelled, *end) == Some(why@),
        }),
{
    match end {
        ScanEnd::Broken(error) => Err(joined("scan worker failed: ", error.as_str())),
        ScanEnd::Finished => if cancelled {
            Err("cancelled".to_string())
        } else {
            Ok(())
        },
        ScanEnd::Cancelled => Err("cancelled".to_string()),
        ScanEnd::Failed(error) => if cancelled {
            Err("cancelled".to_string())
        } else {
            Err(joined("scan failed: ", error.as_str()))
        },
    }
}

/// Whether progress is worth sending: once for every twenty thousand files.
pub fn progress_due(last: &mut u64, files: u64) -> (r: bool)
    ensures
        *final(last) == files as int / 20_000,
        r == (files as int / 20_000 > *old(last)),
{
    let bucket: u64 = files / 20_000;
    let before: u64 = *last;
    *last = bucket;
    bucket > before
}

/// Remember a root that was scanned.
pub fn note_scanned(roots: &mut Vec<FsPath>, root: &FsPath)
    ensures
        paths(final(roots)@) == (if listed_path(old(roots)@, root@) {
            paths(old(roots)@)
        } else {
            paths(old(roots)@).push(root@)
        }),
{
    if !contains_path(roots, root) {
        let ghost before = roots@;
        roots.push(root.clone());
        assert(paths(roots@) =~= paths(before).push(root@));
    }
}

/// The gated folders that a scan must not open: those we were not granted.
pub open spec fn ungranted(gates: Seq<GateView>, config: Config) -> Seq<Seq<PartView>>
    decreases gates.len(),
{
    if gates.len() == 0 {
        Seq::empty()
    } else if config.heard(gates.last().id) is Granted {
        ungranted(gates.drop_last(), config)
    } else {
        ungranted(gates.drop_last(), config).push(gates.last().path)
    }
}

/// The gated folders that a scan must not open: those we were not granted.
pub fn security_skips(gates: &Vec<Gate>, config: &Config) -> (r: Vec<FsPath>)
    requires
        config.wf(),
    ensures
        paths(r@) == ungranted(gate_views(gates@), *config),
{
    let ghost all = gate_views(gates@);
    let mut out: Vec<FsPath> = Vec::new();
    let mut i: usize = 0;
    assert(paths(out@) =~= ungranted(all.take(0), *config));
    while i < gates.len()
        invariant
            i <= gates.len(),
            config.wf(),
            all == gate_views(gates@),
            paths(out@) == ungranted(all.take(i as int), *config),
        decreases gates.len() - i,
    {
        let ghost before = out@;
        assert(all.take(i + 1).drop_last() =~= all.take(i as int));
        assert(all.take(i + 1).last() == gates@[i as int]@);
        match config.state_of(gates[i].id.as_str()) {
            AccessState::Granted => {},
            _ => {
                out.push(gates[i].path.clone());
                assert(paths(out@) =~= paths(before).push(gates@[i as int].path@));
            },
        }
        i += 1;
    }
    assert(all.take(all.len() as int) =~= all);
    out
}

// ---------------------------------------------------------------------------
// What the window is sent
// ---------------------------------------------------------------------------

/// A node as the window draws it. The names are short because there are many.
#[derive(Debug)]
pub struct NodePayload {
    pub n: String,
    pub p: i64,
    pub c: Vec<u32>,
    pub s: u64,
    pub o: u64,
    pub f: u64,
    pub m: i64,
    pub u: bool,
    pub t: Option<String>,
    pub r: Option<String>,
    pub g: Option<String>,
    pub x: String,
}

/// What a [`NodePayload`] says.
pub struct NodePayloadView {
    pub n: Seq<char>,
    pub p: int,
    pub c: Seq<u32>,
    pub s: u64,
    pub o: u64,
    pub f: u64,
    pub m: i64,
    pub u: bool,
    pub t: Option<Seq<char>>,
    pub r: Option<Seq<char>>,
    pub g: Option<Seq<char>>,
    pub x: Seq<char>,
}

impl View for NodePayload {
    type V = NodePayloadView;

    open spec fn view(&self) -> NodePayloadView {
        NodePayloadView {
            n: self.n@,
            p: self.p as int,
            c: self.c@,
            s: self.s,
            o: self.o,
            f: self.f,
            m: self.m,
            u: self.u,
            t: crate::purge::optional_text(self.t),
            r: crate::purge::optional_text(self.r),
            g: crate::purge::optional_text(self.g),
            x: self.x@,
        }
    }
}

/// How the window calls a state.
pub open spec fn state_name(state: NodeState) -> Seq<char> {
    match state {
        NodeState::Readable => "readable"@,
        NodeState::Unreadable => "unreadable"@,
        NodeState::Excluded => "excluded"@,
    }
}

/// The finding at a node: the last one, if there are several.
pub open spec fn finding_at(findings: Seq<FindingView>, node: int) -> Option<FindingView>
    decreases findings.len(),
{
    if findings.len() == 0 {
        None
    } else if findings.last().node == node {
        Some(findings.last())
    } else {
        finding_at(findings.drop_last(), node)
    }
}

/// A node as the window draws it.
pub open spec fn drawn(node: Node, hit: Option<FindingView>) -> NodePayloadView {
    NodePayloadView {
        n: node.name@,
        p: if node.parent == NONE {
            -1
        } else {
            node.parent as int
        },
        c: node.children@,
        s: node.total_size,
        o: node.own_size,
        f: node.total_files,
        m: node.newest_mtime,
        u: node.unreadable,
        t: match hit {
            Some(finding) => Some(finding.tier),
            None => None,
        },
        r: match hit {
            Some(finding) => Some(finding.rule_id),
            None => None,
        },
        g: match hit {
            Some(finding) => Some(finding.regen),
            None => None,
        },
        x: state_name(node.state),
    }
}

/// What a list of nodes to be drawn says.
pub open spec fn node_payload_views(list: Seq<NodePayload>) -> Seq<NodePayloadView> {
    list.map_values(|payload: NodePayload| payload@)
}

/// For each node, the place of its finding.
fn places(count: usize, findings: &Vec<Finding>) -> (r: Vec<Option<usize>>)
    ensures
        r@.len() == count,
        forall|i: int|
            0 <= i < count ==> (match #[trigger] r@[i] {
                Some(k) => k < findings@.len() && finding_at(finding_views(findings@), i) == Some(
                    findings@[k as int]@,
                ),
                None => finding_at(finding_views(findings@), i) is None,
            }),
{
    let ghost all = finding_views(findings@);
    let mut out: Vec<Option<usize>> = Vec::new();
    let mut i: usize = 0;
    while i < count
        invariant
            i <= count,
            out@.len() == i,
            forall|j: int| 0 <= j < i ==> (#[trigger] out@[j]) is None,
        decreases count - i,
    {
        out.push(None);
        i += 1;
    }
    let mut k: usize = 0;
    while k < findings.len()
        invariant
            k <= findings.len(),
            all == finding_views(findings@),
            out@.len() == count,
            forall|j: int|
                0 <= j < count ==> (match #[trigger] out@[j] {
                    Some(m) => m < k && finding_at(all.take(k as int), j) == Some(
                        findings@[m as int]@,
                    ),
                    None => finding_at(all.take(k as int), j) is None,
                }),
        decreases findings.len() - k,
    {
        let ghost before = out@;
        assert(all.take(k + 1).drop_last() =~= all.take(k as int));
        assert(all.take(k + 1).last() == findings@[k as int]@);
        let node: usize = findings[k].node as usize;
        if node < count {
            out[node] = Some(k);
        }
        proof {
            assert forall|j: int| 0 <= j < count implies (match #[trigger] out@[j] {
                Some(m) => m < k + 1 && finding_at(all.take(k + 1), j) == Some(
                    findings@[m as int]@,
                ),
                None => finding_at(all.take(k + 1), j) is None,
            }) by {
                if j != node {
                    assert(out@[j] == before[j]);
                }
            }
        }
        k += 1;
    }
    assert(all.take(all.len() as int) =~= all);
    out
}

/// A copy of a list of indices.
fn copy_indices(list: &Vec<u32>) -> (r: Vec<u32>)
    ensures
        r@ == list@,
{
    let mut out: Vec<u32> = Vec::new();
    let mut i: usize = 0;
    while i < list.len()
        invariant
            i <= list.len(),
            out@ == list@.take(i as int),
        decreases list.len() - i,
    {
        out.push(list[i]);
        i += 1;
    }
    assert(out@ =~= list@);
    out
}

/// The nodes of a tree as the window draws them.
pub fn node_payloads(tree: &Tree, findings: &Vec<Finding>) -> (r: Vec<NodePayload>)
    ensures
        r@.len() == tree.nodes@.len(),
        forall|i: int|
            0 <= i < tree.nodes@.len() ==> #[trigger] node_payload_views(r@)[i] == drawn(
                tree.nodes@[i],
                finding_at(finding_views(findings@), i),
            ),
{
    let hits = places(tree.nodes.len(), findings);
    let mut out: Vec<NodePayload> = Vec::new();
    let mut i: usize = 0;
    while i < tree.nodes.len()
        invariant
            i <= tree.nodes.len(),
            hits@.len() == tree.nodes@.len(),
            forall|j: int|
                0 <= j < tree.nodes@.len() ==> (match #[trigger] hits@[j] {
                    Some(k) => k < findings@.len() && finding_at(finding_views(findings@), j)
                        == Some(findings@[k as int]@),
                    None => finding_at(finding_views(findings@), j) is None,
                }),
            out@.len() == i,
            forall|j: int|
                0 <= j < i ==> #[trigger] node_payload_views(out@)[j] == drawn(
                    tree.nodes@[j],
                    finding_at(finding_views(findings@), j),
                ),
        decreases tree.nodes.len() - i,
    {
        let node = &tree.nodes[i];
        let ghost before = out@;
        let (t, rule, regen) = match hits[i] {
            Some(k) => (
                Some(findings[k].tier.clone()),
                Some(findings[k].rule_id.clone()),
                Some(findings[k].regen.clone()),
            ),
            None => (None, None, None),
        };
        let payload = NodePayload {
            n: node.name.clone(),
            p: if node.parent == NONE {
                -1
            } else {
                node.parent as i64
            },
            c: copy_indices(&node.children),
            s: node.total_size,
            o: node.own_size,
            f: node.total_files,
            m: node.newest_mtime,
            u: node.unreadable,
            t,
            r: rule,
            g: regen,
            x: match node.state {
                NodeState::Readable => "readable".to_string(),
                NodeState::Unreadable => "unreadable".to_string(),
                NodeState::Excluded => "excluded".to_string(),
            },
        };
        out.push(payload);
        proof {
            assert forall|j: int| 0 <= j < i + 1 implies #[trigger] node_payload_views(out@)[j]
                == drawn(tree.nodes@[j], finding_at(finding_views(findings@), j)) by {
                if j < i {
                    assert(node_payload_views(before)[j] == node_payload_views(out@)[j]);
                }
            }
        }
        i += 1;
    }
    out
}

/// A finding as the window lists it.
#[derive(Debug)]
pub struct FindingPayload {
    pub node_id: u32,
    pub rule_id: String,
    pub tier: String,
    pub label: String,
    pub regen: String,
    pub warning: String,
    pub source: String,
    pub reclaimable_size: u64,
    pub path: String,
}

/// What a [`FindingPayload`] says.
pub struct FindingPayloadView {
    pub node_id: u32,
    pub rule_id: Seq<char>,
    pub tier: Seq<char>,
    pub label: Seq<char>,
    pub regen: Seq<char>,
    pub warning: Seq<char>,
    pub source: Seq<char>,
    pub reclaimable_size: u64,
    pub path: Seq<char>,
}

impl View for FindingPayload {
    type V = FindingPayloadView;

    open spec fn view(&self) -> FindingPayloadView {
        FindingPayloadView {
            node_id: self.node_id,
            rule_id: self.rule_id@,
            tier: self.tier@,
            label: self.label@,
            regen: self.regen@,
            warning: self.warning@,
            source: self.source@,
            reclaimable_size: self.reclaimable_size,
            path: self.path@,
        }
    }
}

/// A finding as the window lists it.
pub open spec fn listed_finding(finding: FindingView, platform: Platform) -> FindingPayloadView {
    FindingPayloadView {
        node_id: finding.node,
        rule_id: finding.rule_id,
        tier: finding.tier,
        label: finding.label,
        regen: finding.regen,
        warning: finding.warn,
        source: finding.source,
        reclaimable_size: finding.size,
        path: spelled(finding.path, separator(platform)),
    }
}

/// What a list of findings as the window lists them says.
pub open spec fn finding_payload_views(list: Seq<FindingPayload>) -> Seq<FindingPayloadView> {
    list.map_values(|payload: FindingPayload| payload@)
}

/// The findings as the window lists them.
pub fn finding_payloads(findings: &Vec<Finding>, platform: Platform) -> (r: Vec<FindingPayload>)
    ensures
        finding_payload_views(r@) == finding_views(findings@).map_values(
            |finding: FindingView| listed_finding(finding, platform),
        ),
{
    let ghost goal = finding_views(findings@).map_values(
        |finding: FindingView| listed_finding(finding, platform),
    );
    let mut out: Vec<FindingPayload> = Vec::new();
    let mut i: usize = 0;
    while i < findings.len()
        invariant
            i <= findings.len(),
            goal == finding_views(findings@).map_values(
                |finding: FindingView| listed_finding(finding, platform),
            ),
            finding_payload_views(out@) == goal.take(i as int),
        decreases findings.len() - i,
    {
        let finding = &findings[i];
        let ghost before = out@;
        out.push(
            FindingPayload {
                node_id: finding.node,
                rule_id: finding.rule_id.clone(),
                tier: finding.tier.clone(),
                label: finding.label.clone(),
                regen: finding.regen.clone(),
                warning: finding.warn.clone(),
                source: finding.source.to_string(),
                reclaimable_size: finding.size,
                path: finding.path.display(platform),
            },
        );
        assert(goal[i as int] == listed_finding(finding@, platform));
        assert(finding_payload_views(out@) =~= finding_payload_views(before).push(goal[i as int]));
        assert(goal.take(i + 1) =~= goal.take(i as int).push(goal[i as int]));
        i += 1;
    }
    assert(finding_payload_views(out@) =~= goal);
    out
}

/// Paths as text.
pub open spec fn spelled_paths(list: Seq<Seq<PartView>>, platform: Platform) -> Seq<Seq<char>> {
    list.map_values(|path: Seq<PartView>| spelled(path, separator(platform)))
}

/// Paths as text.
pub fn path_texts(list: &Vec<FsPath>, platform: Platform) -> (r: Vec<String>)
    ensures
        texts(r@) == spelled_paths(paths(list@), platform),
{
    let ghost goal = spelled_paths(paths(list@), platform);
    let mut out: Vec<String> = Vec::new();
    let mut i: usize = 0;
    while i < list.len()
        invariant
            i <= list.len(),
            goal == spelled_paths(paths(list@), platform),
            texts(out@) == goal.take(i as int),
        decreases list.len() - i,
    {
        let ghost before = out@;
        out.push(list[i].display(platform));
        assert(texts(out@) =~= texts(before).push(goal[i as int]));
        assert(goal.take(i + 1) =~= goal.take(i as int).push(goal[i as int]));
        i += 1;
    }
    assert(texts(out@) =~= goal);
    out
}

/// The capacity and the free space that `df -Pk` reports, in bytes.
pub fn volume_stats(output: &str) -> (r: Option<(u64, u64)>)
    ensures
        r == (match (df_column(output@, 1), df_column(output@, 3)) {
            (Some(capacity), Some(free)) => Some((capacity, free)),
            _ => None,
        }),
{
    match (read_df_column(output, 1), read_df_column(output, 3)) {
        (Some(capacity), Some(free)) => Some((capacity, free)),
        _ => None,
    }
}

/// The figures of a scan.
#[derive(Debug)]
pub struct Stats {
    pub dirs: u64,
    pub files: u64,
    pub bytes: u64,
    pub unreadable: u64,
    pub elapsed_ms: u64,
    pub excluded: u64,
    pub unreadable_paths: Vec<String>,
    pub excluded_paths: Vec<String>,
    pub volume_capacity: Option<u64>,
    pub volume_free: Option<u64>,
}

/// The figures of a scan, and of the volume it was on where those are known.
pub fn scan_stats(tree: &Tree, volume: Option<(u64, u64)>, platform: Platform) -> (r: Stats)
    ensures
        r.dirs == tree.stats.dirs,
        r.files == tree.stats.files,
        r.bytes == tree.stats.bytes,
        r.unreadable == tree.stats.unreadable,
        r.elapsed_ms == tree.stats.elapsed_ms % 0x1_0000_0000_0000_0000,
        r.excluded == tree.stats.excluded,
        texts(r.unreadable_paths@) == spelled_paths(paths(tree.stats.unreadable_paths@), platform),
        texts(r.excluded_paths@) == spelled_paths(paths(tree.stats.excluded_paths@), platform),
        r.volume_capacity == (match volume {
            Some((capacity, _)) => Some(capacity),
            None => None,
        }),
        r.volume_free == (match volume {
            Some((_, free)) => Some(free),
            None => None,
        }),
{
    let (volume_capacity, volume_free) = match volume {
        Some((capacity, free)) => (Some(capacity), Some(free)),
        None => (None, None),
    };
    Stats {
        dirs: tree.stats.dirs,
        files: tree.stats.files,
        bytes: tree.stats.bytes,
        unreadable: tree.stats.unreadable,
        elapsed_ms: (tree.stats.elapsed_ms % 0x1_0000_0000_0000_0000) as u64,
        excluded: tree.stats.excluded,
        unreadable_paths: path_texts(&tree.stats.unreadable_paths, platform),
        excluded_paths: path_texts(&tree.stats.excluded_paths, platform),
        volume_capacity,
        volume_free,
    }
}

/// The ids of all rules, static ones first.
pub open spec fn all_rule_ids(rules: Rules) -> Seq<Seq<char>> {
    rules.statics@.map_values(|rule: crate::rules::StaticRule| rule.id@)
        + rules.artifacts@.map_values(|rule: crate::rules::ArtifactRule| rule.id@)
}

/// The ids of all rules, static ones first.
pub fn rule_ids(rules: &Rules) -> (r: Vec<String>)
    ensures
        texts(r@) == all_rule_ids(*rules),
{
    let ghost statics = rules.statics@.map_values(|rule: crate::rules::StaticRule| rule.id@);
    let ghost artifacts = rules.artifacts@.map_values(|rule: crate::rules::ArtifactRule| rule.id@);
    let mut out: Vec<String> = Vec::new();
    let mut i: usize = 0;
    while i < rules.statics.len()
        invariant
            i <= rules.statics.len(),
            statics == rules.statics@.map_values(|rule: crate::rules::StaticRule| rule.id@),
            texts(out@) == statics.take(i as int),
        decreases rules.statics.len() - i,
    {
        let ghost before = out@;
        out.push(rules.statics[i].id.clone());
        assert(texts(out@) =~= texts(before).push(statics[i as int]));
        assert(statics.take(i + 1) =~= statics.take(i as int).push(statics[i as int]));
        i += 1;
    }
    assert(statics.take(statics.len() as int) =~= statics);
    let mut k: usize = 0;
    assert(texts(out@) =~= statics + artifacts.take(0));
    while k < rules.artifacts.len()
        invariant
            k <= rules.artifacts.len(),
            artifacts == rules.artifacts@.map_values(|rule: crate::rules::ArtifactRule| rule.id@),
            texts(out@) == statics + artifacts.take(k as int),
        decreases rules.artifacts.len() - k,
    {
        let ghost before = out@;
        out.push(rules.artifacts[k].id.clone());
        assert(texts(out@) =~= texts(before).push(artifacts[k as int]));
        assert(statics + artifacts.take(k + 1) =~= (statics + artifacts.take(k as int)).push(
            artifacts[k as int],
        ));
        k += 1;
    }
    assert(artifacts.take(artifacts.len() as int) =~= artifacts);
    out
}

// ---------------------------------------------------------------------------
// What the window may ask for
// ---------------------------------------------------------------------------

/// A selected path, as the window hands it back.
#[derive(Debug)]
pub struct TargetInput {
    pub path: FsPath,
    /// the path as the window wrote it
    pub shown: String,
    pub rule_id: Option<String>,
    pub tier: Option<String>,
    pub expect_name: String,
    pub size: u64,
    pub label: String,
    pub regen: String,
}

/// Whether a target is what an input selected. A missing rule or tier is empty.
pub open spec fn selected(input: TargetInput, target: Target) -> bool {
    &&& target.path@ == input.path@
    &&& target.shown == input.shown
    &&& target.rule_id@ == or_empty(input.rule_id)
    &&& target.tier@ == or_empty(input.tier)
    &&& target.expect_name == input.expect_name
    &&& target.size == input.size
    &&& target.label == input.label
    &&& target.regen == input.regen
}

/// A text, or the empty one.
pub open spec fn or_empty(text: Option<String>) -> Seq<char> {
    match text {
        Some(text) => text@,
        None => Seq::empty(),
    }
}

fn text_or_empty(text: &Option<String>) -> (r: String)
    ensures
        r@ == or_empty(*text),
{
    match text {
        Some(text) => text.clone(),
        None => String::new(),
    }
}

/// The targets that were selected. Each is validated again before anything
/// happens to it.
pub fn delete_targets(inputs: &Vec<TargetInput>) -> (r: Vec<Target>)
    ensures
        r@.len() == inputs@.len(),
        forall|i: int| 0 <= i < inputs@.len() ==> selected(#[trigger] inputs@[i], r@[i]),
{
    let mut out: Vec<Target> = Vec::new();
    let mut i: usize = 0;
    while i < inputs.len()
        invariant
            i <= inputs.len(),
            out@.len() == i,
            forall|k: int| 0 <= k < i ==> selected(#[trigger] inputs@[k], out@[k]),
        decreases inputs.len() - i,
    {
        let input = &inputs[i];
        out.push(
            Target {
                path: input.path.clone(),
                shown: input.shown.clone(),
                rule_id: text_or_empty(&input.rule_id),
                tier: text_or_empty(&input.tier),
                expect_name: input.expect_name.clone(),
                size: input.size,
                label: input.label.clone(),
                regen: input.regen.clone(),
            },
        );
        i += 1;
    }
    out
}

/// Whether a path may be shown in the file manager: the same confinement as for
/// deletion, home plus the roots scanned this session.
pub fn may_reveal(path: &FsPath, home: &FsPath, scanned: &Vec<FsPath>) -> (r: Result<(), String>)
    ensures
        (match r {
            Ok(_) => !climbs(path@) && inside_some(
                path@,
                allowed_paths(home@, paths(scanned@)),
            ),
            Err(why) => (climbs(path@) || !inside_some(
                path@,
                allowed_paths(home@, paths(scanned@)),
            )) && why@ == "outside allowed roots"@,
        }),
{
    let allowed = allowed_roots(home, scanned);
    let inside = !path.is_climbing() && path.starts_with_any(&allowed);
    proof {
        let roots = paths(allowed@);
        if within_any(path@, allowed@) {
            let i = choose|i: int|
                0 <= i < allowed@.len() && crate::path::within(path@, (#[trigger] allowed@[i])@);
            assert(roots[i] == allowed@[i]@);
        }
        if inside_some(path@, roots) {
            let i = choose|i: int|
                0 <= i < roots.len() && crate::path::within(path@, #[trigger] roots[i]);
            assert(allowed@[i]@ == roots[i]);
        }
    }
    if inside {
        Ok(())
    } else {
        Err("outside allowed roots".to_string())
    }
}

/// Whether a path lies inside one of a list.
pub open spec fn inside_some(path: Seq<PartView>, roots: Seq<Seq<PartView>>) -> bool {
    exists|i: int| 0 <= i < roots.len() && crate::path::within(path, #[trigger] roots[i])
}

/// One receipt in full.
pub fn history_detail(receipts: &Vec<Receipt>, receipt_id: &str) -> (r: Result<Receipt, String>)
    ensures
        (match r {
            Ok(receipt) => exists|i: int|
                #[trigger] receipt_at(receipts@, receipt_id@, i) && receipt@ == receipts@[i]@,
            Err(why) => !has_receipt(receipts@, receipt_id@) && why@ == "receipt not found"@,
        }),
{
    match find_receipt(receipts, receipt_id) {
        Some(i) => {
            assert(receipt_at(receipts@, receipt_id@, i as int));
            Ok(receipts[i].clone())
        },
        None => Err("receipt not found".to_string()),
    }
}

/// The settings pane an id names.
pub fn privacy_pane(id: &str) -> (r: Result<SettingsPane, String>)
    ensures
        (match r {
            Ok(pane) => pane_of(id@) == Some(pane),
            Err(why) => pane_of(id@) is None && why@ == "unknown settings pane: "@ + id@,
        }),
{
    match SettingsPane::from_id(id) {
        Some(pane) => Ok(pane),
        None => Err(joined("unknown settings pane: ", id)),
    }
}

/// The gated folder an id names.
pub fn folder(gates: &Vec<Gate>, id: &str) -> (r: Result<Gate, String>)
    ensures
        (match r {
            Ok(gate) => gate_with(gate_views(gates@), id@) == Some(gate@),
            Err(why) => gate_with(gate_views(gates@), id@) is None && why@ == "no such folder: "@
                + id@,
        }),
{
    match gate(gates, id) {
        Some(gate) => Ok(gate),
        None => Err(joined("no such folder: ", id)),
    }
}

/// Remember an answer for a gate, and give its row.
pub fn answered(config: &mut Config, gate: &Gate, state: AccessState, platform: Platform) -> (r:
    GateStatus)
    requires
        old(config).wf(),
    ensures
        final(config).wf(),
        final(config).known() == old(config).known().insert(gate.id@, state),
        final(config).same_besides_access(*old(config)),
        r@ == status_row(gate@, state, platform),
{
    config.record(gate.id.as_str(), state);
    GateStatus::new(gate, state, platform)
}

/// Whether a gate is worth reading again without being asked to: only one that
/// was denied. That read cannot raise a dialog, and it catches the user turning
/// the folder back on elsewhere.
pub open spec fn reprobed(config: Config, id: Seq<char>) -> bool {
    config.heard(id) is Denied
}

/// Whether a gate is worth reading again without being asked to.
pub fn may_reprobe(config: &Config, gate: &Gate) -> (r: bool)
    requires
        config.wf(),
    ensures
        r == reprobed(*config, gate.id@),
{
    match config.state_of(gate.id.as_str()) {
        AccessState::Denied => true,
        _ => false,
    }
}

/// How the `i`th gate read, where it was read again.
pub open spec fn outcome_at(outcomes: Seq<ReadOutcome>, i: int) -> ReadOutcome {
    if 0 <= i < outcomes.len() {
        outcomes[i]
    } else {
        ReadOutcome::Failed
    }
}

/// What holds of the `i`th gate now.
pub open spec fn state_now(
    config: Config,
    gates: Seq<GateView>,
    outcomes: Seq<ReadOutcome>,
    i: int,
) -> AccessState {
    let was = config.heard(gates[i].id);
    if was is Denied {
        answer(outcome_at(outcomes, i))
    } else {
        was
    }
}

/// What is remembered once the first `n` gates have been looked at: only what
/// changed is recorded anew.
pub open spec fn remembered(
    config: Config,
    gates: Seq<GateView>,
    outcomes: Seq<ReadOutcome>,
    n: int,
) -> Map<Seq<char>, AccessState>
    decreases n,
{
    if n <= 0 {
        config.known()
    } else {
        let before = remembered(config, gates, outcomes, n - 1);
        let now = state_now(config, gates, outcomes, n - 1);
        if now != config.heard(gates[n - 1].id) {
            before.insert(gates[n - 1].id, now)
        } else {
            before
        }
    }
}

/// The permission rows for a list of gates, without putting a dialog on screen.
/// `outcomes` tells, for each gate in turn, how reading it went, and counts only
/// for those that were denied. What changed is remembered; the second part of the
/// result says whether anything did.
pub fn access_status(
    config: &mut Config,
    gates: &Vec<Gate>,
    outcomes: &Vec<ReadOutcome>,
    platform: Platform,
) -> (r: (Vec<GateStatus>, bool))
    requires
        old(config).wf(),
    ensures
        final(config).wf(),
        final(config).same_besides_access(*old(config)),
        final(config).known() == remembered(
            *old(config),
            gate_views(gates@),
            outcomes@,
            gates@.len() as int,
        ),
        r.0@.len() == gates@.len(),
        forall|i: int|
            0 <= i < gates@.len() ==> (#[trigger] r.0@[i])@ == status_row(
                gates@[i]@,
                state_now(*old(config), gate_views(gates@), outcomes@, i),
                platform,
            ),
        r.1 == exists|i: int|
            0 <= i < gates@.len() && state_now(*old(config), gate_views(gates@), outcomes@, i)
                != old(config).heard((#[trigger] gates@[i]).id@),
{
    let ghost start = *config;
    let ghost views = gate_views(gates@);
    let mut was: Vec<AccessState> = Vec::new();
    let mut i: usize = 0;
    while i < gates.len()
        invariant
            i <= gates.len(),
            *config == start,
            start.wf(),
            was@.len() == i,
            forall|k: int| 0 <= k < i ==> #[trigger] was@[k] == start.heard(gates@[k].id@),
        decreases gates.len() - i,
    {
        was.push(config.state_of(gates[i].id.as_str()));
        i += 1;
    }
    let mut rows: Vec<GateStatus> = Vec::new();
    let mut changed = false;
    let mut n: usize = 0;
    while n < gates.len()
        invariant
            n <= gates.len(),
            views == gate_views(gates@),
            config.wf(),
            config.same_besides_access(start),
            was@.len() == gates@.len(),
            forall|k: int|
                0 <= k < gates@.len() ==> #[trigger] was@[k] == start.heard(gates@[k].id@),
            config.known() == remembered(start, views, outcomes@, n as int),
            rows@.len() == n,
            forall|k: int|
                0 <= k < n ==> (#[trigger] rows@[k])@ == status_row(
                    gates@[k]@,
                    state_now(start, views, outcomes@, k),
                    platform,
                ),
            changed == exists|k: int|
                0 <= k < n && state_now(start, views, outcomes@, k) != start.heard(
                    (#[trigger] gates@[k]).id@,
                ),
        decreases gates.len() - n,
    {
        let before = was[n];
        assert(views[n as int] == gates@[n as int]@);
        let now = match before {
            AccessState::Denied => if n < outcomes.len() {
                probe(outcomes[n])
            } else {
                AccessState::Unknown
            },
            _ => before,
        };
        assert(now == state_now(start, views, outcomes@, n as int));
        if now != before {
            config.record(gates[n].id.as_str(), now);
            changed = true;
        }
        rows.push(GateStatus::new(&gates[n], now, platform));
        n += 1;
    }
    (rows, changed)
}

// ---------------------------------------------------------------------------
// What a session promises
// ---------------------------------------------------------------------------

/// A scan never opens a gated folder that we were not granted: every such gate is
/// among the folders it skips.
pub proof fn law_ungranted_folders_are_skipped(gates: Seq<GateView>, config: Config, i: int)
    requires
        0 <= i < gates.len(),
    ensures
        !(config.heard(gates[i].id) is Granted) ==> ungranted(gates, config).contains(
            gates[i].path,
        ),
    decreases gates.len(),
{
    let front = gates.drop_last();
    let before = ungranted(front, config);
    let all = ungranted(gates, config);
    if i < front.len() {
        law_ungranted_folders_are_skipped(front, config, i);
        assert(front[i] == gates[i]);
        if before.contains(gates[i].path) {
            let k = choose|k: int| 0 <= k < before.len() && before[k] == gates[i].path;
            assert(all[k] == gates[i].path);
        }
    } else if !(config.heard(gates[i].id) is Granted) {
        assert(all[before.len() as int] == gates[i].path);
    }
}

/// Looking at the permission rows reads no folder that might raise a dialog: a
/// gate that was never asked about or was granted stays as it is, whatever the
/// reading of others said.
pub proof fn law_status_asks_nothing(
    config: Config,
    gates: Seq<GateView>,
    outcomes: Seq<ReadOutcome>,
    i: int,
)
    requires
        0 <= i < gates.len(),
        !(config.heard(gates[i].id) is Denied),
    ensures
        state_now(config, gates, outcomes, i) == config.heard(gates[i].id),
{
}

/// Everything in a plan is absolute and resolved, whatever was asked for.
pub proof fn law_plans_are_absolute(
    request: ScanRequest,
    config: Config,
    home: Seq<PartView>,
    platform: Platform,
)
    requires
        request_error(request, config, home, platform) is None,
    ensures
        ({
            let plan = planned(request, config, home);
            &&& absolute(plan.root, platform)
            &&& resolved(plan.root) == plan.root
            &&& forall|i: int|
                0 <= i < plan.excluded_paths.len() ==> absolute(
                    #[trigger] plan.excluded_paths[i],
                    platform,
                ) && resolved(plan.excluded_paths[i]) == plan.excluded_paths[i]
        }),
{
    let plan = planned(request, config, home);
    crate::config::law_resolving_is_idempotent(requested_root(request, config, home));
    crate::config::law_resolving_stays_absolute(requested_root(request, config, home), platform);
    let asked = requested_paths(request, config);
    assert forall|i: int| 0 <= i < plan.excluded_paths.len() implies absolute(
        #[trigger] plan.excluded_paths[i],
        platform,
    ) && resolved(plan.excluded_paths[i]) == plan.excluded_paths[i] by {
        assert(plan.excluded_paths[i] == resolved(asked[i]));
        crate::config::law_resolving_is_idempotent(asked[i]);
        assert(absolute(asked[i], platform));
        crate::config::law_resolving_stays_absolute(asked[i], platform);
    }
}

// ---------------------------------------------------------------------------
// What a request comes to
// ---------------------------------------------------------------------------

/// A scan starts at the root of the profile that was asked for, else at the root that
/// was asked for, else at home.
pub proof fn law_requests_choose_their_root(
    request: ScanRequest,
    config: Config,
    home: Seq<PartView>,
    i: int,
)
    ensures
        request.profile_id is Some && profile_at(config.profiles@, request.profile_id->0@, i)
            ==> requested_root(request, config, home) == config.profiles@[i].root@,
        request.profile_id is None && request.root is Some ==> requested_root(request, config, home)
            == request.root->0@,
        request.profile_id is None && request.root is None ==> requested_root(request, config, home)
            == home,
        planned(request, config, home).root == resolved(requested_root(request, config, home)),
{
    if request.profile_id is Some && profile_at(config.profiles@, request.profile_id->0@, i) {
        lemma_first_profile(config.profiles@, request.profile_id->0@, i);
    }
}

/// Whether a path is one that a request leaves out: by its profile, everywhere, or
/// by itself.
pub open spec fn path_left_out(
    request: ScanRequest,
    config: Config,
    path: Seq<PartView>,
) -> bool {
    ||| paths(config.global_excluded_paths@).contains(path)
    ||| paths(request.excluded_paths@).contains(path)
    ||| request.profile_id is Some && exists|i: int|
        #[trigger] profile_at(config.profiles@, request.profile_id->0@, i) && paths(
            config.profiles@[i].excluded_paths@,
        ).contains(path)
}

/// Whether a rule is one that a request leaves out.
pub open spec fn rule_left_out(request: ScanRequest, config: Config, rule: Seq<char>) -> bool {
    ||| texts(config.global_excluded_rules@).contains(rule)
    ||| texts(request.excluded_rules@).contains(rule)
    ||| request.profile_id is Some && exists|i: int|
        #[trigger] profile_at(config.profiles@, request.profile_id->0@, i) && texts(
            config.profiles@[i].excluded_rules@,
        ).contains(rule)
}

proof fn lemma_in_three<T>(a: Seq<T>, b: Seq<T>, c: Seq<T>, x: T)
    ensures
        (a + b + c).contains(x) <==> a.contains(x) || b.contains(x) || c.contains(x),
{
    let all = a + b + c;
    if a.contains(x) {
        let k = choose|k: int| 0 <= k < a.len() && a[k] == x;
        assert(all[k] == x);
    }
    if b.contains(x) {
        let k = choose|k: int| 0 <= k < b.len() && b[k] == x;
        assert(all[a.len() + k] == x);
    }
    if c.contains(x) {
        let k = choose|k: int| 0 <= k < c.len() && c[k] == x;
        assert(all[a.len() + b.len() + k] == x);
    }
    if all.contains(x) {
        let k = choose|k: int| 0 <= k < all.len() && all[k] == x;
        if k < a.len() {
            assert(a[k] == x);
        } else if k < a.len() + b.len() {
            assert(b[k - a.len()] == x);
        } else {
            assert(c[k - a.len() - b.len()] == x);
        }
    }
}

proof fn lemma_the_profile(profiles: Seq<ScanProfile>, id: Seq<char>)
    ensures
        has_profile(profiles, id) ==> profile_at(
            profiles,
            id,
            choose|k: int| profile_at(profiles, id, k),
        ),
        forall|i: int| #[trigger]
            profile_at(profiles, id, i) ==> has_profile(profiles, id) && (choose|k: int|
                profile_at(profiles, id, k)) == i,
{
    if has_profile(profiles, id) {
        let k = choose|k: int| 0 <= k < profiles.len() && (#[trigger] profiles[k]).id@ == id;
        let i = lemma_earliest(profiles, id, k);
        assert(profile_at(profiles, id, i));
    }
    assert forall|i: int| #[trigger] profile_at(profiles, id, i) implies has_profile(profiles, id)
        && (choose|k: int| profile_at(profiles, id, k)) == i by {
        lemma_first_profile(profiles, id, i);
    }
}

proof fn lemma_earliest(profiles: Seq<ScanProfile>, id: Seq<char>, k: int) -> (i: int)
    requires
        0 <= k < profiles.len(),
        profiles[k].id@ == id,
    ensures
        profile_at(profiles, id, i),
    decreases k,
{
    if exists|j: int| 0 <= j < k && (#[trigger] profiles[j]).id@ == id {
        let j = choose|j: int| 0 <= j < k && (#[trigger] profiles[j]).id@ == id;
        lemma_earliest(profiles, id, j)
    } else {
        k
    }
}

/// A plan leaves out exactly what its profile, the configuration and the request
/// leave out.
pub proof fn law_plans_leave_out_what_was_asked(
    request: ScanRequest,
    config: Config,
    home: Seq<PartView>,
    path: Seq<PartView>,
    rule: Seq<char>,
)
    ensures
        requested_paths(request, config).contains(path) <==> path_left_out(request, config, path),
        planned(request, config, home).excluded_rules.contains(rule) <==> rule_left_out(
            request,
            config,
            rule,
        ),
        planned(request, config, home).excluded_paths.len() == requested_paths(
            request,
            config,
        ).len(),
        forall|k: int|
            0 <= k < requested_paths(request, config).len() ==> #[trigger] planned(
                request,
                config,
                home,
            ).excluded_paths[k] == resolved(requested_paths(request, config)[k]),
{
    let profile_paths = match requested_profile(request, config) {
        Some(profile) => paths(profile.excluded_paths@),
        None => Seq::empty(),
    };
    let profile_rules = match requested_profile(request, config) {
        Some(profile) => texts(profile.excluded_rules@),
        None => Seq::empty(),
    };
    lemma_in_three(
        profile_paths,
        paths(config.global_excluded_paths@),
        paths(request.excluded_paths@),
        path,
    );
    lemma_in_three(
        profile_rules,
        texts(config.global_excluded_rules@),
        texts(request.excluded_rules@),
        rule,
    );
    if request.profile_id is Some {
        let id = request.profile_id->0@;
        lemma_the_profile(config.profiles@, id);
        if has_profile(config.profiles@, id) {
            let i = choose|i: int| profile_at(config.profiles@, id, i);
            assert(profile_at(config.profiles@, id, i));
            assert(requested_profile(request, config) == Some(config.profiles@[i]));
        }
    }
}

/// A request is refused for what is wrong with it, the first thing first, and only
/// then.
pub proof fn law_requests_are_refused_for_a_reason(
    request: ScanRequest,
    config: Config,
    home: Seq<PartView>,
    platform: Platform,
)
    ensures
        ({
            let error = request_error(request, config, home, platform);
            let nameless = blank(request.scan_id@);
            let torn = request.root is Some && request.profile_id is Some;
            let lost = request.profile_id is Some && forall|i: int|
                0 <= i < config.profiles@.len() ==> (#[trigger] config.profiles@[i]).id@
                    != request.profile_id->0@;
            let astray = !absolute(requested_root(request, config, home), platform);
            let loose = exists|k: int|
                0 <= k < requested_paths(request, config).len() && !absolute(
                    #[trigger] requested_paths(request, config)[k],
                    platform,
                );
            &&& nameless ==> error == Some("scan_id is required"@)
            &&& !nameless && torn ==> error == Some("provide either root or profile_id, never both"@)
            &&& !nameless && !torn && lost ==> error == Some("profile not found"@)
            &&& !nameless && !torn && !lost && astray ==> error == Some(
                "scan root must be absolute"@,
            )
            &&& !nameless && !torn && !lost && !astray && loose ==> error == Some(
                "path must be absolute"@,
            )
            &&& !nameless && !torn && !lost && !astray && !loose ==> error is None
        }),
{
    if request.profile_id is Some {
        lemma_the_profile(config.profiles@, request.profile_id->0@);
    }
}

/// A scan that was cancelled is not shown, and one that failed is told of; only one
/// that finished undisturbed brings a tree.
pub proof fn law_only_finished_scans_are_shown(cancelled: bool, end: ScanEnd)
    ensures
        scan_failure(cancelled, end) is None <==> !cancelled && end is Finished,
        end is Broken ==> scan_failure(cancelled, end) == Some(
            "scan worker failed: "@ + end->Broken_0@,
        ),
        cancelled && !(end is Broken) ==> scan_failure(cancelled, end) == Some("cancelled"@),
        !cancelled && end is Cancelled ==> scan_failure(cancelled, end) == Some("cancelled"@),
        !cancelled && end is Failed ==> scan_failure(cancelled, end) == Some(
            "scan failed: "@ + end->Failed_0@,
        ),
{
}

/// The slot holds a scan exactly if that scan is the one it was given.
pub proof fn law_slots_hold_their_scan(slot: ScanSlot, id: Seq<char>)
    ensures
        holds(slot, id) <==> slot.active is Some && slot.active->0.id@ == id,
        slot.active is None <==> occupant(slot) is None,
        slot.active is Some ==> occupant(slot) == Some(
            (slot.active->0.id@, slot.active->0.cancelled),
        ),
{
}

/// A scan keeps out of the gated folders that were not granted, and of no others.
pub proof fn law_granted_folders_are_opened(gates: Seq<GateView>, gate: GateView, config: Config)
    ensures
        ungranted(Seq::empty(), config).len() == 0,
        config.heard(gate.id) is Granted ==> ungranted(gates.push(gate), config) == ungranted(
            gates,
            config,
        ),
        !(config.heard(gate.id) is Granted) ==> ungranted(gates.push(gate), config) == ungranted(
            gates,
            config,
        ).push(gate.path),
{
    assert(gates.push(gate).drop_last() =~= gates);
}

// ---------------------------------------------------------------------------
// What the window is shown
// ---------------------------------------------------------------------------

/// A node is shown with its own figures, and with the tier, the rule and the way back
/// of its finding, if it has one.
pub proof fn law_nodes_are_drawn_as_they_are(node: Node, hit: Option<FindingView>)
    ensures
        ({
            let shown = drawn(node, hit);
            &&& shown.n == node.name@
            &&& node.parent == u32::MAX ==> shown.p == -1
            &&& node.parent != u32::MAX ==> shown.p == node.parent
            &&& shown.c == node.children@
            &&& shown.s == node.total_size
            &&& shown.o == node.own_size
            &&& shown.f == node.total_files
            &&& shown.m == node.newest_mtime
            &&& shown.u == node.unreadable
            &&& node.state is Readable ==> shown.x == "readable"@
            &&& node.state is Unreadable ==> shown.x == "unreadable"@
            &&& node.state is Excluded ==> shown.x == "excluded"@
            &&& hit is None ==> shown.t is None && shown.r is None && shown.g is None
            &&& hit is Some ==> shown.t == Some(hit->0.tier) && shown.r == Some(hit->0.rule_id)
                && shown.g == Some(hit->0.regen)
        }),
{
}

/// The finding of a node is the last one that is about it.
pub proof fn law_nodes_show_their_finding(
    findings: Seq<FindingView>,
    finding: FindingView,
    node: int,
)
    ensures
        finding_at(Seq::empty(), node) is None,
        finding.node == node ==> finding_at(findings.push(finding), node) == Some(finding),
        finding.node != node ==> finding_at(findings.push(finding), node) == finding_at(
            findings,
            node,
        ),
{
    assert(findings.push(finding).drop_last() =~= findings);
}

/// A finding is listed with everything it says.
pub proof fn law_findings_are_listed_as_they_are(finding: FindingView, platform: Platform)
    ensures
        ({
            let shown = listed_finding(finding, platform);
            &&& shown.node_id == finding.node
            &&& shown.rule_id == finding.rule_id
            &&& shown.tier == finding.tier
            &&& shown.label == finding.label
            &&& shown.regen == finding.regen
            &&& shown.warning == finding.warn
            &&& shown.source == finding.source
            &&& shown.reclaimable_size == finding.size
            &&& shown.path == spelled(finding.path, separator(platform))
        }),
{
}

/// Every rule has its id in the list, and nothing else has.
pub proof fn law_every_rule_has_its_id(rules: Rules, id: Seq<char>)
    ensures
        all_rule_ids(rules).contains(id) <==> {
            ||| exists|i: int|
                0 <= i < rules.statics@.len() && (#[trigger] rules.statics@[i]).id@ == id
            ||| exists|i: int|
                0 <= i < rules.artifacts@.len() && (#[trigger] rules.artifacts@[i]).id@ == id
        },
        all_rule_ids(rules).len() == rules.statics@.len() + rules.artifacts@.len(),
{
    let all = all_rule_ids(rules);
    let n = rules.statics@.len() as int;
    if all.contains(id) {
        let k = choose|k: int| 0 <= k < all.len() && all[k] == id;
        if k < n {
            assert(rules.statics@[k].id@ == id);
        } else {
            assert(rules.artifacts@[k - n].id@ == id);
        }
    }
    if exists|i: int| 0 <= i < rules.statics@.len() && (#[trigger] rules.statics@[i]).id@ == id {
        let i = choose|i: int|
            0 <= i < rules.statics@.len() && (#[trigger] rules.statics@[i]).id@ == id;
        assert(all[i] == id);
    }
    if exists|i: int|
        0 <= i < rules.artifacts@.len() && (#[trigger] rules.artifacts@[i]).id@ == id {
        let i = choose|i: int|
            0 <= i < rules.artifacts@.len() && (#[trigger] rules.artifacts@[i]).id@ == id;
        assert(all[n + i] == id);
    }
}

/// A target is what was selected, part for part.
pub proof fn law_targets_are_what_was_selected(input: TargetInput, target: Target)
    requires
        selected(input, target),
    ensures
        target.path@ == input.path@,
        target.shown@ == input.shown@,
        target.expect_name@ == input.expect_name@,
        target.size == input.size,
        target.label@ == input.label@,
        target.regen@ == input.regen@,
        input.rule_id is Some ==> target.rule_id@ == input.rule_id->0@,
        input.rule_id is None ==> target.rule_id@.len() == 0,
        input.tier is Some ==> target.tier@ == input.tier->0@,
        input.tier is None ==> target.tier@.len() == 0,
{
}

/// Only a gate that was denied is read again, and then what the reading says is
/// believed: a folder that reads is granted, a refusal stays one, and a reading that
/// failed otherwise leaves nothing known.
pub proof fn law_denied_gates_are_read_again(
    config: Config,
    gates: Seq<GateView>,
    outcomes: Seq<ReadOutcome>,
    i: int,
)
    requires
        0 <= i < gates.len(),
    ensures
        reprobed(config, gates[i].id) <==> config.heard(gates[i].id) is Denied,
        config.heard(gates[i].id) is Denied && i < outcomes.len() ==> {
            &&& outcomes[i] is Read ==> state_now(config, gates, outcomes, i) is Granted
            &&& outcomes[i] is PermissionDenied ==> state_now(config, gates, outcomes, i) is Denied
            &&& outcomes[i] is Failed ==> state_now(config, gates, outcomes, i) is Unknown
        },
        config.heard(gates[i].id) is Denied && i >= outcomes.len() ==> state_now(
            config,
            gates,
            outcomes,
            i,
        ) is Unknown,
{
}

/// What is remembered afterwards is what the rows say, and for gates that were not
/// looked at what it was.
pub proof fn law_rows_are_remembered(
    config: Config,
    gates: Seq<GateView>,
    outcomes: Seq<ReadOutcome>,
    n: int,
    i: int,
    id: Seq<char>,
)
    requires
        0 <= n <= gates.len(),
        forall|a: int, b: int|
            0 <= a < b < gates.len() ==> (#[trigger] gates[a]).id != (#[trigger] gates[b]).id,
    ensures
        0 <= i < n && state_now(config, gates, outcomes, i) != config.heard(gates[i].id)
            ==> remembered(config, gates, outcomes, n).contains_key(gates[i].id) && remembered(
            config,
            gates,
            outcomes,
            n,
        )[gates[i].id] == state_now(config, gates, outcomes, i),
        (forall|k: int|
            0 <= k < n ==> (#[trigger] gates[k]).id != id || state_now(config, gates, outcomes, k)
                == config.heard(gates[k].id)) ==> (remembered(
            config,
            gates,
            outcomes,
            n,
        ).contains_key(id) <==> config.known().contains_key(id)) && (config.known().contains_key(id)
            ==> remembered(config, gates, outcomes, n)[id] == config.known()[id]),
    decreases n,
{
    if n > 0 {
        law_rows_are_remembered(config, gates, outcomes, n - 1, i, id);
        if 0 <= i < n - 1 {
            assert(gates[i].id != gates[n - 1].id);
        }
        assert(gates[n - 1].id == gates[n - 1].id);
    }
}

/// What may be shown is what may be deleted from: anything in home, and anything in a
/// root that was scanned and lies deep enough.
pub proof fn law_home_and_scanned_roots_may_be_shown(
    path: Seq<PartView>,
    home: Seq<PartView>,
    scanned: Seq<Seq<PartView>>,
)
    ensures
        inside_some(path, allowed_paths(home, scanned)) <==> crate::path::within(path, home)
            || exists|i: int|
            0 <= i < scanned.len() && (#[trigger] scanned[i]).len() >= 2 && crate::path::within(
                path,
                scanned[i],
            ),
    decreases scanned.len(),
{
    let all = allowed_paths(home, scanned);
    if scanned.len() == 0 {
        assert(all[0] == home);
    } else {
        let front = scanned.drop_last();
        let last = scanned.last();
        let before = allowed_paths(home, front);
        law_home_and_scanned_roots_may_be_shown(path, home, front);
        crate::purge::law_scanned_roots_are_allowed(home, front, last);
        assert(front.push(last) =~= scanned);
        if inside_some(path, all) {
            let k = choose|k: int|
                0 <= k < all.len() && crate::path::within(path, #[trigger] all[k]);
            if k < before.len() {
                assert(before[k] == all[k]);
                assert(inside_some(path, before));
                if !crate::path::within(path, home) {
                    let i = choose|i: int|
                        0 <= i < front.len() && (#[trigger] front[i]).len() >= 2
                            && crate::path::within(path, front[i]);
                    assert(scanned[i] == front[i]);
                }
            } else {
                assert(scanned[scanned.len() - 1] == all[k]);
            }
        }
        if inside_some(path, before) {
            let k = choose|k: int|
                0 <= k < before.len() && crate::path::within(path, #[trigger] before[k]);
            assert(all[k] == before[k]);
        }
        if exists|i: int|
            0 <= i < scanned.len() && (#[trigger] scanned[i]).len() >= 2 && crate::path::within(
                path,
                scanned[i],
            ) {
            let i = choose|i: int|
                0 <= i < scanned.len() && (#[trigger] scanned[i]).len() >= 2
                    && crate::path::within(path, scanned[i]);
            if i < front.len() {
                assert(front[i] == scanned[i]);
            } else {
                assert(all[before.len() as int] == last);
            }
        }
    }
}

/// Paths are shown one by one, as the platform writes them.
pub proof fn law_paths_are_shown_as_written(list: Seq<Seq<PartView>>, platform: Platform, i: int)
    requires
        0 <= i < list.len(),
    ensures
        spelled_paths(list, platform).len() == list.len(),
        spelled_paths(list, platform)[i] == spelled(list[i], separator(platform)),
{
}

/// The capacity of a volume is in the second column of what `df` writes, and what is
/// free in the fourth; without both there is nothing to tell.
pub proof fn law_volumes_are_read_from_their_columns(output: &str, r: Option<(u64, u64)>)
    requires
        call_ensures(volume_stats, (output,), r),
    ensures
        r is Some <==> df_column(output@, 1) is Some && df_column(output@, 3) is Some,
        r matches Some((capacity, free)) ==> df_column(output@, 1) == Some(capacity) && df_column(
            output@,
            3,
        ) == Some(free),
{
}

/// The figures that are shown are those of the scan.
pub proof fn law_figures_are_those_of_the_scan(
    tree: &Tree,
    volume: Option<(u64, u64)>,
    platform: Platform,
    r: Stats,
)
    requires
        call_ensures(scan_stats, (tree, volume, platform), r),
    ensures
        r.dirs == tree.stats.dirs,
        r.files == tree.stats.files,
        r.bytes == tree.stats.bytes,
        r.unreadable == tree.stats.unreadable,
        r.excluded == tree.stats.excluded,
        tree.stats.elapsed_ms <= u64::MAX ==> r.elapsed_ms == tree.stats.elapsed_ms,
        texts(r.unreadable_paths@) == spelled_paths(paths(tree.stats.unreadable_paths@), platform),
        texts(r.excluded_paths@) == spelled_paths(paths(tree.stats.excluded_paths@), platform),
        volume matches Some((capacity, free)) ==> r.volume_capacity == Some(capacity)
            && r.volume_free == Some(free),
        volume is None ==> r.volume_capacity is None && r.volume_free is None,
{
}

} // verus!
