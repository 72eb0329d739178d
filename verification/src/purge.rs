//! Deletion, behind the guards.
//!
//! Every target is re-validated immediately before removal, so a selection that
//! went stale between the scan and the click is skipped rather than deleted. Each
//! attempt is appended to a uniquely named durable receipt under
//! `~/.cachereaper`; without one nothing is deleted, and when it can no longer be
//! appended to, deletion stops.
//!
//! The session is a state machine: it says what is to be done next, and is told
//! how that went.
use vstd::prelude::*;

use crate::guard::{
    refusal, show_right, shown_right, validate_for_delete, well_shown, Entry, Target,
};
use crate::history::{
    receipt_file_name, signed_free_space_change, space_gained, HeaderView, ItemView, ReceiptHeader,
    ReceiptItem, ReceiptSummary, SummaryView, RECEIPT_SCHEMA,
};
use crate::path::{
    child_path, denotes, paths, root_only, separator, spelled, within, FsPath, PartView, Platform,
};
use crate::text::{decimal, decimal_of, texts};

verus! {

/// What came of a session.
#[derive(Debug)]
pub struct PurgeResult {
    pub freed: u64,
    pub removed: usize,
    /// human-readable "path: why" lines for anything refused or failed
    pub skipped: Vec<String>,
    pub receipt_id: Option<String>,
    pub audit_error: Option<String>,
}

/// What a [`PurgeResult`] says.
pub struct PurgeResultView {
    pub freed: u64,
    pub removed: usize,
    pub skipped: Seq<Seq<char>>,
    pub receipt_id: Option<Seq<char>>,
    pub audit_error: Option<Seq<char>>,
}

/// What an optional text says.
pub open spec fn optional_text(text: Option<String>) -> Option<Seq<char>> {
    match text {
        Some(text) => Some(text@),
        None => None,
    }
}

impl View for PurgeResult {
    type V = PurgeResultView;

    open spec fn view(&self) -> PurgeResultView {
        PurgeResultView {
            freed: self.freed,
            removed: self.removed,
            skipped: texts(self.skipped@),
            receipt_id: optional_text(self.receipt_id),
            audit_error: optional_text(self.audit_error),
        }
    }
}

/// A session in which nothing has happened.
pub open spec fn nothing_done() -> PurgeResultView {
    PurgeResultView {
        freed: 0,
        removed: 0,
        skipped: Seq::empty(),
        receipt_id: None,
        audit_error: None,
    }
}

impl Default for PurgeResult {
    fn default() -> (r: Self)
        ensures
            r@ == nothing_done(),
    {
        let r = PurgeResult {
            freed: 0,
            removed: 0,
            skipped: Vec::new(),
            receipt_id: None,
            audit_error: None,
        };
        assert(texts(r.skipped@) =~= Seq::empty());
        r
    }
}

// ---------------------------------------------------------------------------
// Roots
// ---------------------------------------------------------------------------

/// Whether deletion may be confined to a scanned root: it is not the root of the
/// disk, and has at least two components.
pub open spec fn confining(root: Seq<PartView>) -> bool {
    root != root_only() && root.len() >= 2
}

/// Where deletion is allowed: home, and the scanned roots that confine it.
pub open spec fn allowed_paths(home: Seq<PartView>, extra: Seq<Seq<PartView>>) -> Seq<
    Seq<PartView>,
>
    decreases extra.len(),
{
    if extra.len() == 0 {
        seq![home]
    } else if confining(extra.last()) {
        allowed_paths(home, extra.drop_last()).push(extra.last())
    } else {
        allowed_paths(home, extra.drop_last())
    }
}

/// Deletion is confined to home plus any roots explicitly scanned.
pub fn allowed_roots(home: &FsPath, extra: &Vec<FsPath>) -> (r: Vec<FsPath>)
    ensures
        paths(r@) == allowed_paths(home@, paths(extra@)),
{
    let root = FsPath::root();
    let ghost all = paths(extra@);
    let mut out: Vec<FsPath> = Vec::new();
    out.push(home.clone());
    assert(paths(out@) =~= allowed_paths(home@, all.take(0)));
    let mut i: usize = 0;
    while i < extra.len()
        invariant
            i <= extra.len(),
            root@ == root_only(),
            all == paths(extra@),
            paths(out@) == allowed_paths(home@, all.take(i as int)),
        decreases extra.len() - i,
    {
        let ghost before = out@;
        assert(all.take(i + 1).drop_last() =~= all.take(i as int));
        assert(all.take(i + 1).last() == extra@[i as int]@);
        assert(extra@[i as int]@.len() == extra@[i as int].parts@.len());
        if !extra[i].same(&root) && extra[i].parts.len() >= 2 {
            out.push(extra[i].clone());
            assert(paths(out@) =~= paths(before).push(extra@[i as int]@));
        }
        i += 1;
    }
    assert(all.take(all.len() as int) =~= all);
    out
}

/// The longest of the first `n` allowed roots that holds a path; the last one, if
/// several are.
pub open spec fn longest_root(path: Seq<PartView>, allowed: Seq<FsPath>, n: int) -> Option<
    Seq<PartView>,
>
    decreases n,
{
    if n <= 0 {
        None
    } else {
        let best = longest_root(path, allowed, n - 1);
        let root = allowed[n - 1]@;
        if within(path, root) && (best is None || root.len() >= best->0.len()) {
            Some(root)
        } else {
            best
        }
    }
}

/// The root a session is recorded under: the longest allowed root that holds the
/// first target, or home.
pub open spec fn session_root(
    targets: Seq<Target>,
    allowed: Seq<FsPath>,
    home: Seq<PartView>,
) -> Seq<PartView> {
    if targets.len() == 0 {
        home
    } else {
        match longest_root(targets[0].path@, allowed, allowed.len() as int) {
            Some(root) => root,
            None => home,
        }
    }
}

/// The root a session is recorded under.
pub fn root_of_session(targets: &Vec<Target>, allowed: &Vec<FsPath>, home: &FsPath) -> (r: FsPath)
    ensures
        r@ == session_root(targets@, allowed@, home@),
{
    if targets.len() == 0 {
        return home.clone();
    }
    let path = &targets[0].path;
    let mut best: Option<usize> = None;
    let mut n: usize = 0;
    while n < allowed.len()
        invariant
            n <= allowed.len(),
            (match best {
                Some(b) => b < n && longest_root(path@, allowed@, n as int) == Some(
                    allowed@[b as int]@,
                ),
                None => longest_root(path@, allowed@, n as int) is None,
            }),
        decreases allowed.len() - n,
    {
        assert(allowed@[n as int]@.len() == allowed@[n as int].parts@.len());
        if path.starts_with(&allowed[n]) {
            match best {
                Some(b) => {
                    assert(allowed@[b as int]@.len() == allowed@[b as int].parts@.len());
                    if allowed[n].parts.len() >= allowed[b].parts.len() {
                        best = Some(n);
                    }
                },
                None => {
                    best = Some(n);
                },
            }
        }
        n += 1;
    }
    match best {
        Some(b) => allowed[b].clone(),
        None => home.clone(),
    }
}

// ---------------------------------------------------------------------------
// What is written
// ---------------------------------------------------------------------------

/// The id of a session, made of the time, the process and a counter.
pub open spec fn session_id(stamp: u128, process: u32, counter: u64) -> Seq<char> {
    decimal(stamp as nat) + "-"@ + decimal(process as nat) + "-"@ + decimal(counter as nat)
}

/// The name of a session's receipt.
pub open spec fn receipt_name(id: Seq<char>) -> Seq<char> {
    "receipt-"@ + id + ".jsonl"@
}

/// The id of a session and the path of its receipt.
pub fn log_path(dir: &FsPath, stamp: u128, process: u32, counter: u64) -> (r: (String, FsPath))
    ensures
        r.0@ == session_id(stamp, process, counter),
        r.1@ == child_path(dir@, receipt_name(session_id(stamp, process, counter))),
{
    let mut id = decimal_of(stamp);
    id.append("-");
    let process_text = decimal_of(process as u128);
    id.append(process_text.as_str());
    id.append("-");
    let counter_text = decimal_of(counter as u128);
    id.append(counter_text.as_str());
    let mut name = "receipt-".to_string();
    name.append(id.as_str());
    name.append(".jsonl");
    let path = dir.child(name.as_str());
    (id, path)
}

/// The bytes of the first `n` targets together.
pub open spec fn target_bytes(targets: Seq<Target>, n: int) -> nat
    decreases n,
{
    if n <= 0 {
        0
    } else {
        target_bytes(targets, n - 1) + targets[n - 1].size as nat
    }
}

proof fn lemma_target_bytes_grow(targets: Seq<Target>, a: int, b: int)
    requires
        a <= b,
    ensures
        target_bytes(targets, a) <= target_bytes(targets, b),
    decreases b - a,
{
    if a < b {
        lemma_target_bytes_grow(targets, a, b - 1);
    }
}

/// The bytes of all targets together.
pub fn total_bytes(targets: &Vec<Target>) -> (r: u64)
    requires
        target_bytes(targets@, targets@.len() as int) <= u64::MAX,
    ensures
        r == target_bytes(targets@, targets@.len() as int),
{
    let mut sum: u64 = 0;
    let mut i: usize = 0;
    while i < targets.len()
        invariant
            target_bytes(targets@, targets@.len() as int) <= u64::MAX,
            i <= targets.len(),
            sum == target_bytes(targets@, i as int),
        decreases targets.len() - i,
    {
        proof {
            lemma_target_bytes_grow(targets@, i + 1, targets@.len() as int);
        }
        sum = sum + targets[i].size;
        i += 1;
    }
    sum
}

/// What is recorded about an attempt.
pub open spec fn attempt(target: Target, status: Seq<char>, reason: Seq<char>) -> ItemView {
    ItemView {
        schema: RECEIPT_SCHEMA,
        kind: "item"@,
        path: target.shown@,
        rule: target.rule_id@,
        tier: target.tier@,
        label: target.label@,
        regen: target.regen@,
        estimated_bytes: target.size,
        status,
        reason,
    }
}

/// What is recorded about an attempt.
pub fn receipt_item(target: &Target, status: &str, reason: &str) -> (r: ReceiptItem)
    ensures
        r@ == attempt(*target, status@, reason@),
{
    ReceiptItem {
        schema: RECEIPT_SCHEMA,
        kind: "item".to_string(),
        path: target.shown.clone(),
        rule: target.rule_id.clone(),
        tier: target.tier.clone(),
        label: target.label.clone(),
        regen: target.regen.clone(),
        estimated_bytes: target.size,
        status: status.to_string(),
        reason: reason.to_string(),
    }
}

// ---------------------------------------------------------------------------
// The session
// ---------------------------------------------------------------------------

/// Where a session stands.
#[derive(Debug)]
pub enum Phase {
    /// The receipt is to be opened and its header made durable.
    Opening,
    /// It is to be found out what stands at the current target's path.
    Inspecting,
    /// The current target is to be removed.
    Removing,
    /// The current target's outcome is to be appended to the receipt.
    Appending { removed: bool, reason: String },
    /// The summary is to be appended and made durable.
    Summing,
    Done,
}

/// What a [`Phase`] says.
pub enum PhaseView {
    Opening,
    Inspecting,
    Removing,
    Appending { removed: bool, reason: Seq<char> },
    Summing,
    Done,
}

impl View for Phase {
    type V = PhaseView;

    open spec fn view(&self) -> PhaseView {
        match self {
            Phase::Opening => PhaseView::Opening,
            Phase::Inspecting => PhaseView::Inspecting,
            Phase::Removing => PhaseView::Removing,
            Phase::Appending { removed, reason } => PhaseView::Appending {
                removed: *removed,
                reason: reason@,
            },
            Phase::Summing => PhaseView::Summing,
            Phase::Done => PhaseView::Done,
        }
    }
}

/// A deletion session.
#[derive(Debug)]
pub struct Purge {
    targets: Vec<Target>,
    allowed: Vec<FsPath>,
    home: FsPath,
    platform: Platform,
    dry_run: bool,
    free_before: Option<u64>,
    phase: Phase,
    at: usize,
    skipped_count: usize,
    result: PurgeResult,
}

/// What a session is about.
pub struct Job {
    pub targets: Seq<Target>,
    pub allowed: Seq<FsPath>,
    pub home: Seq<PartView>,
    pub platform: Platform,
    pub dry_run: bool,
    /// the space that was free when the session began, where that is known
    pub free_before: Option<u64>,
}

/// What changes during a session.
pub struct Progress {
    pub phase: PhaseView,
    /// the current target
    pub at: int,
    /// how many targets the receipt counts as skipped
    pub skipped_count: int,
    pub result: PurgeResultView,
}

/// A line for the person at the screen: a path and what is the matter with it.
pub open spec fn complaint(target: Target, why: Seq<char>) -> Seq<char> {
    target.shown@ + ": "@ + why
}

impl Purge {
    /// What the session is about, which stays the same.
    pub closed spec fn job(&self) -> Job {
        Job {
            targets: self.targets@,
            allowed: self.allowed@,
            home: self.home@,
            platform: self.platform,
            dry_run: self.dry_run,
            free_before: self.free_before,
        }
    }

    /// How far the session has come.
    pub closed spec fn progress(&self) -> Progress {
        Progress {
            phase: self.phase@,
            at: self.at as int,
            skipped_count: self.skipped_count as int,
            result: self.result@,
        }
    }

    /// What holds of a session at every moment: see [`sound_progress`]; and every
    /// target is shown so that its path can be told.
    pub open spec fn wf(&self) -> bool {
        &&& sound_progress(self.job().targets, self.job().dry_run, self.progress())
        &&& all_well_shown(self.job())
    }
}

/// Whether every target of a session is shown so that its path can be told.
pub open spec fn all_well_shown(job: Job) -> bool {
    forall|k: int|
        0 <= k < job.targets.len() ==> well_shown(#[trigger] job.targets[k], job.platform)
}

/// What holds of a session at every moment.
///
/// Nothing is removed, and nothing written, in a dry run. Without a receipt, or
/// once the receipt has failed, nothing is removed. Every target up to the
/// current one has been counted exactly once, as removed or as skipped, and no
/// more bytes are reported freed than those targets had.
pub open spec fn sound_progress(targets: Seq<Target>, dry_run: bool, p: Progress) -> bool {
    let len = targets.len();
    &&& target_bytes(targets, len as int) <= u64::MAX
    &&& 0 <= p.at <= len <= usize::MAX
    &&& p.skipped_count >= 0
    &&& p.phase is Opening || p.phase is Removing || p.phase is Appending || p.phase is Summing
        ==> !dry_run
    &&& p.phase is Inspecting || p.phase is Removing || p.phase is Appending ==> p.at < len
        && p.result.audit_error is None
    &&& (p.phase is Inspecting || p.phase is Removing || p.phase is Appending || p.phase is Summing)
        && !dry_run ==> p.result.receipt_id is Some
    &&& p.phase is Opening ==> p.at == 0 && p.skipped_count == 0 && p.result == nothing_done()
    &&& p.phase is Inspecting || p.phase is Removing ==> p.result.removed + p.skipped_count == p.at
        && p.result.freed <= target_bytes(targets, p.at)
    &&& p.phase is Appending ==> p.result.removed + p.skipped_count == p.at + 1 && p.result.freed
        <= target_bytes(targets, p.at + 1)
    &&& p.phase is Summing || p.phase is Done ==> p.result.removed + p.skipped_count <= len
        && p.result.freed <= target_bytes(targets, len as int)
    &&& p.phase is Summing && p.result.audit_error is None ==> p.result.removed + p.skipped_count
        == len
}

/// How a session goes on once the current target is dealt with.
pub open spec fn advanced(len: nat, dry_run: bool, p: Progress) -> Progress {
    Progress {
        at: p.at + 1,
        phase: if p.at + 1 < len {
            PhaseView::Inspecting
        } else if dry_run {
            PhaseView::Done
        } else {
            PhaseView::Summing
        },
        ..p
    }
}

/// How a session starts.
pub open spec fn started(len: nat, dry_run: bool) -> Progress {
    Progress {
        phase: if !dry_run {
            PhaseView::Opening
        } else if len > 0 {
            PhaseView::Inspecting
        } else {
            PhaseView::Done
        },
        at: 0,
        skipped_count: 0,
        result: nothing_done(),
    }
}

proof fn lemma_same_bytes(a: Seq<Target>, b: Seq<Target>, n: int)
    requires
        0 <= n <= a.len() == b.len(),
        forall|k: int| 0 <= k < a.len() ==> (#[trigger] a[k]).size == b[k].size,
    ensures
        target_bytes(a, n) == target_bytes(b, n),
    decreases n,
{
    if n > 0 {
        lemma_same_bytes(a, b, n - 1);
        assert(a[n - 1].size == b[n - 1].size);
    }
}

/// Begin a session. Unless it is a dry run, the receipt comes first.
pub fn purge(
    targets: Vec<Target>,
    allowed: Vec<FsPath>,
    home: FsPath,
    platform: Platform,
    dry_run: bool,
    free_before: Option<u64>,
) -> (r: Purge)
    requires
        target_bytes(targets@, targets@.len() as int) <= u64::MAX,
    ensures
        r.wf(),
        r.job() == (Job {
            targets: r.job().targets,
            allowed: allowed@,
            home: home@,
            platform,
            dry_run,
            free_before,
        }),
        r.job().targets.len() == targets@.len(),
        forall|k: int|
            0 <= k < targets@.len() ==> shown_right(
                #[trigger] r.job().targets[k],
                targets@[k],
                platform,
            ),
        r.progress() == started(targets@.len(), dry_run),
{
    let ghost given = targets@;
    let targets = show_right(targets, platform);
    proof {
        assert forall|k: int| 0 <= k < targets@.len() implies (#[trigger] targets@[k]).size
            == given[k].size by {
            assert(shown_right(targets@[k], given[k], platform));
        }
        lemma_same_bytes(targets@, given, given.len() as int);
    }
    let count: usize = targets.len();
    let phase = if !dry_run {
        Phase::Opening
    } else if count > 0 {
        Phase::Inspecting
    } else {
        Phase::Done
    };
    Purge {
        targets,
        allowed,
        home,
        platform,
        dry_run,
        free_before,
        phase,
        at: 0,
        skipped_count: 0,
        result: PurgeResult::default(),
    }
}

impl Purge {
    /// What is to be done next.
    pub fn phase(&self) -> (r: &Phase)
        ensures
            r@ == self.progress().phase,
    {
        &self.phase
    }

    /// The target the session stands at.
    pub fn target(&self) -> (r: &Target)
        requires
            self.wf(),
            self.progress().at < self.job().targets.len(),
        ensures
            *r == self.job().targets[self.progress().at],
    {
        &self.targets[self.at]
    }

    /// What has come of the session so far.
    pub fn result(&self) -> (r: &PurgeResult)
        ensures
            r@ == self.progress().result,
    {
        &self.result
    }

    /// What came of the session.
    pub fn into_result(self) -> (r: PurgeResult)
        ensures
            r@ == self.progress().result,
    {
        self.result
    }

    /// The header of the receipt that is to be opened.
    pub fn header(&self, receipt_id: &str, started_at: u128) -> (r: ReceiptHeader)
        requires
            self.wf(),
        ensures
            r@ == (HeaderView {
                schema: RECEIPT_SCHEMA,
                kind: "header"@,
                receipt_id: receipt_id@,
                started_at,
                root: spelled(
                    session_root(self.job().targets, self.job().allowed, self.job().home),
                    separator(self.job().platform),
                ),
                estimated_bytes: target_bytes(
                    self.job().targets,
                    self.job().targets.len() as int,
                ) as u64,
                free_before: self.job().free_before,
            }),
    {
        let root = root_of_session(&self.targets, &self.allowed, &self.home);
        ReceiptHeader {
            schema: RECEIPT_SCHEMA,
            kind: "header".to_string(),
            receipt_id: receipt_id.to_string(),
            started_at,
            root: root.display(self.platform),
            estimated_bytes: total_bytes(&self.targets),
            free_before: self.free_before,
        }
    }

    /// The receipt is open and its header durable.
    pub fn opened(&mut self, receipt_id: &str)
        requires
            old(self).wf(),
            old(self).progress().phase is Opening,
        ensures
            final(self).wf(),
            final(self).job() == old(self).job(),
            final(self).progress() == (Progress {
                phase: if old(self).job().targets.len() > 0 {
                    PhaseView::Inspecting
                } else {
                    PhaseView::Summing
                },
                result: PurgeResultView {
                    receipt_id: Some(receipt_id@),
                    ..old(self).progress().result
                },
                ..old(self).progress()
            }),
    {
        self.result.receipt_id = Some(receipt_id.to_string());
        if self.targets.len() > 0 {
            self.phase = Phase::Inspecting;
        } else {
            self.phase = Phase::Summing;
        }
    }

    /// The receipt could not be opened. The audit trail is part of the deletion
    /// contract: the session ends here.
    pub fn open_failed(&mut self, error: &str)
        requires
            old(self).wf(),
            old(self).progress().phase is Opening,
        ensures
            final(self).wf(),
            final(self).job() == old(self).job(),
            final(self).progress() == (Progress {
                phase: PhaseView::Done,
                result: PurgeResultView {
                    skipped: old(self).progress().result.skipped.push(
                        "deletion aborted: could not open the audit log: "@ + error@,
                    ),
                    audit_error: Some(error@),
                    ..old(self).progress().result
                },
                ..old(self).progress()
            }),
    {
        let mut line = "deletion aborted: could not open the audit log: ".to_string();
        line.append(error);
        let ghost before = self.result.skipped@;
        let ghost shown = line@;
        self.result.skipped.push(line);
        assert(texts(self.result.skipped@) =~= texts(before).push(shown));
        self.result.audit_error = Some(error.to_string());
        self.phase = Phase::Done;
    }

    /// Deal with the next target, or finish.
    fn advance(&mut self)
        requires
            old(self).progress().at < old(self).job().targets.len(),
        ensures
            final(self).job() == old(self).job(),
            final(self).progress() == advanced(
                old(self).job().targets.len(),
                old(self).job().dry_run,
                old(self).progress(),
            ),
    {
        assert(self.at < self.targets.len());
        self.at = self.at + 1;
        if self.at < self.targets.len() {
            self.phase = Phase::Inspecting;
        } else if self.dry_run {
            self.phase = Phase::Done;
        } else {
            self.phase = Phase::Summing;
        }
    }

    /// Tell the person at the screen about the current target.
    fn complain(&mut self, why: &str)
        requires
            old(self).progress().at < old(self).job().targets.len(),
        ensures
            final(self).job() == old(self).job(),
            final(self).progress() == (Progress {
                result: PurgeResultView {
                    skipped: old(self).progress().result.skipped.push(
                        complaint(old(self).job().targets[old(self).progress().at], why@),
                    ),
                    ..old(self).progress().result
                },
                ..old(self).progress()
            }),
    {
        let mut line = self.targets[self.at].shown.clone();
        line.append(": ");
        line.append(why);
        let ghost before = self.result.skipped@;
        let ghost shown = line@;
        self.result.skipped.push(line);
        assert(texts(self.result.skipped@) =~= texts(before).push(shown));
    }

    /// Why the current target must not be deleted, or the empty text.
    pub open spec fn refused(&self, entry: Entry) -> Seq<char> {
        refusal(
            self.job().targets[self.progress().at],
            self.job().allowed,
            self.job().home,
            self.job().platform,
            entry,
        )
    }

    /// It was found out what stands at the current target's path. A target that
    /// the guards refuse is skipped; what is already gone is not worth a word.
    pub fn inspected(&mut self, entry: Entry)
        requires
            old(self).wf(),
            old(self).progress().phase is Inspecting,
        ensures
            final(self).wf(),
            final(self).job() == old(self).job(),
            final(self).progress() == after_inspection(
                old(self).job().targets,
                old(self).job().dry_run,
                old(self).refused(entry),
                old(self).progress(),
            ),
    {
        let why = validate_for_delete(
            &self.targets[self.at],
            &self.allowed,
            &self.home,
            self.platform,
            entry,
        );
        proof {
            reveal_strlit("");
            assert(""@ =~= Seq::<char>::empty());
            lemma_target_bytes_grow(self.targets@, self.at + 1, self.targets@.len() as int);
            lemma_target_bytes_grow(self.targets@, self.at as int, self.at + 1);
        }
        if !why.as_str().is_empty() {
            self.skipped_count = self.skipped_count + 1;
            if *why.as_str() != *"already gone" {
                self.complain(why.as_str());
            }
            if self.dry_run {
                self.advance();
            } else {
                self.phase = Phase::Appending { removed: false, reason: why };
            }
        } else if self.dry_run {
            let size: u64 = self.targets[self.at].size;
            self.result.freed = self.result.freed + size;
            self.result.removed = self.result.removed + 1;
            self.advance();
        } else {
            self.phase = Phase::Removing;
        }
    }

    /// The current target was removed.
    pub fn removed(&mut self)
        requires
            old(self).wf(),
            old(self).progress().phase is Removing,
        ensures
            final(self).wf(),
            final(self).job() == old(self).job(),
            final(self).progress() == after_removal(old(self).job().targets, old(self).progress()),
    {
        proof {
            lemma_target_bytes_grow(self.targets@, self.at + 1, self.targets@.len() as int);
        }
        let size: u64 = self.targets[self.at].size;
        self.result.freed = self.result.freed + size;
        self.result.removed = self.result.removed + 1;
        let reason = String::new();
        assert(reason@ =~= Seq::empty());
        self.phase = Phase::Appending { removed: true, reason };
    }

    /// The current target could not be removed.
    pub fn remove_failed(&mut self, error: &str)
        requires
            old(self).wf(),
            old(self).progress().phase is Removing,
        ensures
            final(self).wf(),
            final(self).job() == old(self).job(),
            final(self).progress() == after_failed_removal(
                old(self).job().targets,
                error@,
                old(self).progress(),
            ),
    {
        proof {
            lemma_target_bytes_grow(self.targets@, self.at as int, self.at + 1);
        }
        self.skipped_count = self.skipped_count + 1;
        self.complain(error);
        self.phase = Phase::Appending { removed: false, reason: error.to_string() };
    }

    /// The line that is to be appended to the receipt.
    pub fn pending_item(&self) -> (r: ReceiptItem)
        requires
            self.wf(),
            self.progress().phase is Appending,
        ensures
            r@ == recorded(self.job().targets, self.progress()),
    {
        let (status, reason): (&str, &str) = match &self.phase {
            Phase::Appending { removed: true, reason } => ("removed", reason.as_str()),
            Phase::Appending { removed: false, reason } => ("skipped", reason.as_str()),
            _ => ("", ""),
        };
        receipt_item(&self.targets[self.at], status, reason)
    }

    /// The line was appended.
    pub fn appended(&mut self)
        requires
            old(self).wf(),
            old(self).progress().phase is Appending,
        ensures
            final(self).wf(),
            final(self).job() == old(self).job(),
            final(self).progress() == advanced(
                old(self).job().targets.len(),
                false,
                old(self).progress(),
            ),
    {
        self.advance();
    }

    /// The line could not be appended: nothing more is deleted.
    pub fn append_failed(&mut self, error: &str)
        requires
            old(self).wf(),
            old(self).progress().phase is Appending,
        ensures
            final(self).wf(),
            final(self).job() == old(self).job(),
            final(self).progress() == (Progress {
                phase: PhaseView::Summing,
                result: PurgeResultView {
                    skipped: old(self).progress().result.skipped.push(
                        (if old(self).progress().phase->Appending_removed {
                            "audit append failed after deletion; stopped: "@
                        } else {
                            "audit append failed: "@
                        }) + error@,
                    ),
                    audit_error: Some(error@),
                    ..old(self).progress().result
                },
                ..old(self).progress()
            }),
    {
        let after_deletion = match &self.phase {
            Phase::Appending { removed, .. } => *removed,
            _ => false,
        };
        let mut line = if after_deletion {
            "audit append failed after deletion; stopped: ".to_string()
        } else {
            "audit append failed: ".to_string()
        };
        line.append(error);
        let ghost before = self.result.skipped@;
        let ghost shown = line@;
        self.result.skipped.push(line);
        assert(texts(self.result.skipped@) =~= texts(before).push(shown));
        self.result.audit_error = Some(error.to_string());
        proof {
            lemma_target_bytes_grow(self.targets@, self.at + 1, self.targets@.len() as int);
        }
        self.phase = Phase::Summing;
    }

    /// The summary that is to be appended.
    pub fn summary(&self, finished_at: u128, free_after: Option<u64>) -> (r: ReceiptSummary)
        ensures
            r@ == (SummaryView {
                schema: RECEIPT_SCHEMA,
                kind: "summary"@,
                finished_at,
                removed_count: self.progress().result.removed,
                skipped_count: self.progress().skipped_count as usize,
                estimated_removed_bytes: self.progress().result.freed,
                free_after,
                signed_free_space_change: space_gained(self.job().free_before, free_after),
                complete: self.progress().result.audit_error is None,
            }),
    {
        ReceiptSummary {
            schema: RECEIPT_SCHEMA,
            kind: "summary".to_string(),
            finished_at,
            removed_count: self.result.removed,
            skipped_count: self.skipped_count,
            estimated_removed_bytes: self.result.freed,
            free_after,
            signed_free_space_change: signed_free_space_change(self.free_before, free_after),
            complete: self.result.audit_error.is_none(),
        }
    }

    /// The summary was appended and is durable.
    pub fn finished(&mut self)
        requires
            old(self).wf(),
            old(self).progress().phase is Summing,
        ensures
            final(self).wf(),
            final(self).job() == old(self).job(),
            final(self).progress() == (Progress {
                phase: PhaseView::Done,
                ..old(self).progress()
            }),
    {
        self.phase = Phase::Done;
    }

    /// The summary could not be appended.
    pub fn finish_failed(&mut self, error: &str)
        requires
            old(self).wf(),
            old(self).progress().phase is Summing,
        ensures
            final(self).wf(),
            final(self).job() == old(self).job(),
            final(self).progress() == (Progress {
                phase: PhaseView::Done,
                result: PurgeResultView {
                    skipped: old(self).progress().result.skipped.push(
                        "could not finish receipt: "@ + error@,
                    ),
                    audit_error: Some(error@),
                    ..old(self).progress().result
                },
                ..old(self).progress()
            }),
    {
        let mut line = "could not finish receipt: ".to_string();
        line.append(error);
        let ghost before = self.result.skipped@;
        let ghost shown = line@;
        self.result.skipped.push(line);
        assert(texts(self.result.skipped@) =~= texts(before).push(shown));
        self.result.audit_error = Some(error.to_string());
        self.phase = Phase::Done;
    }
}

/// One more target removed.
pub open spec fn counted_removed(result: PurgeResultView, target: Target) -> PurgeResultView {
    PurgeResultView {
        freed: (result.freed + target.size) as u64,
        removed: (result.removed + 1) as usize,
        ..result
    }
}

/// How a session goes on after the current target was inspected, given why it
/// must not be deleted.
pub open spec fn after_inspection(
    targets: Seq<Target>,
    dry_run: bool,
    why: Seq<char>,
    p: Progress,
) -> Progress {
    let target = targets[p.at];
    if why.len() > 0 {
        let told = Progress {
            skipped_count: p.skipped_count + 1,
            result: if why == "already gone"@ {
                p.result
            } else {
                PurgeResultView {
                    skipped: p.result.skipped.push(complaint(target, why)),
                    ..p.result
                }
            },
            ..p
        };
        if dry_run {
            advanced(targets.len(), dry_run, told)
        } else {
            Progress { phase: PhaseView::Appending { removed: false, reason: why }, ..told }
        }
    } else if dry_run {
        advanced(
            targets.len(),
            dry_run,
            Progress { result: counted_removed(p.result, target), ..p },
        )
    } else {
        Progress { phase: PhaseView::Removing, ..p }
    }
}

/// What the receipt is told about the current target.
pub open spec fn recorded(targets: Seq<Target>, p: Progress) -> ItemView {
    attempt(
        targets[p.at],
        if p.phase->Appending_removed {
            "removed"@
        } else {
            "skipped"@
        },
        p.phase->Appending_reason,
    )
}

/// How a session goes on after the current target was removed.
pub open spec fn after_removal(targets: Seq<Target>, p: Progress) -> Progress {
    Progress {
        phase: PhaseView::Appending { removed: true, reason: Seq::empty() },
        result: counted_removed(p.result, targets[p.at]),
        ..p
    }
}

/// How a session goes on after the current target could not be removed.
pub open spec fn after_failed_removal(
    targets: Seq<Target>,
    error: Seq<char>,
    p: Progress,
) -> Progress {
    Progress {
        phase: PhaseView::Appending { removed: false, reason: error },
        skipped_count: p.skipped_count + 1,
        result: PurgeResultView {
            skipped: p.result.skipped.push(complaint(targets[p.at], error)),
            ..p.result
        },
        ..p
    }
}

// ---------------------------------------------------------------------------
// What a session promises
// ---------------------------------------------------------------------------

/// A target is removed only after its inspection found nothing against it: its
/// path is absolute, unprotected, still carries the name the scan recorded, lies
/// inside an allowed root without climbing out of it again, and is no symlink.
pub proof fn law_removal_follows_validation(
    targets: Seq<Target>,
    allowed: Seq<FsPath>,
    home: Seq<PartView>,
    platform: Platform,
    dry_run: bool,
    entry: Entry,
    p: Progress,
)
    requires
        sound_progress(targets, dry_run, p),
        p.phase is Inspecting,
        after_inspection(
            targets,
            dry_run,
            refusal(targets[p.at], allowed, home, platform, entry),
            p,
        ).phase is Removing,
    ensures
        !dry_run,
        crate::path::absolute(targets[p.at].path@, platform),
        crate::guard::protection(targets[p.at].path@, home) == ""@,
        crate::guard::name_or_empty(targets[p.at].path@) == targets[p.at].expect_name@,
        crate::path::within_any(targets[p.at].path@, allowed),
        !crate::path::climbs(targets[p.at].path@),
        entry is Present,
{
    let why = refusal(targets[p.at], allowed, home, platform, entry);
    reveal_strlit("");
    assert(why =~= ""@) by {
        assert(""@ =~= Seq::<char>::empty());
    }
    crate::guard::law_deletable(targets[p.at], allowed, home, platform, entry);
}

/// A dry run reports what would go and touches nothing: it is never in a phase in
/// which something is removed or written, and it never has a receipt.
pub proof fn law_dry_run_touches_nothing(targets: Seq<Target>, p: Progress)
    requires
        sound_progress(targets, true, p),
    ensures
        p.phase is Inspecting || p.phase is Done,
{
}

/// Nothing is removed without a durable receipt, nor after the receipt failed.
pub proof fn law_no_removal_without_receipt(targets: Seq<Target>, dry_run: bool, p: Progress)
    requires
        sound_progress(targets, dry_run, p),
        p.phase is Removing,
    ensures
        p.result.receipt_id is Some,
        p.result.audit_error is None,
{
}

/// Every target of a session that comes to its summary without trouble was
/// counted exactly once.
pub proof fn law_every_target_is_counted(targets: Seq<Target>, dry_run: bool, p: Progress)
    requires
        sound_progress(targets, dry_run, p),
        p.phase is Summing,
        p.result.audit_error is None,
    ensures
        p.result.removed + p.skipped_count == targets.len(),
        p.result.freed <= target_bytes(targets, targets.len() as int),
{
}

/// What a session meets at one target: what stands at its path, and what went
/// wrong if it could not be removed.
pub struct Encounter {
    pub entry: Entry,
    pub error: Option<Seq<char>>,
}

impl Job {
    /// Why the target at `k` must not be deleted, or the empty text.
    pub open spec fn why(self, k: int, met: Seq<Encounter>) -> Seq<char> {
        refusal(self.targets[k], self.allowed, self.home, self.platform, met[k].entry)
    }

    /// Whether the target at `k` goes, or would go.
    pub open spec fn goes(self, k: int, met: Seq<Encounter>) -> bool {
        self.why(k, met).len() == 0 && (self.dry_run || met[k].error is None)
    }

    /// The bytes of those of the first `n` targets that go.
    pub open spec fn bytes_gone(self, met: Seq<Encounter>, n: int) -> nat
        decreases n,
    {
        if n <= 0 {
            0
        } else if self.goes(n - 1, met) {
            self.bytes_gone(met, n - 1) + self.targets[n - 1].size as nat
        } else {
            self.bytes_gone(met, n - 1)
        }
    }

    /// How many of the first `n` targets go.
    pub open spec fn count_gone(self, met: Seq<Encounter>, n: int) -> nat
        decreases n,
    {
        if n <= 0 {
            0
        } else if self.goes(n - 1, met) {
            self.count_gone(met, n - 1) + 1
        } else {
            self.count_gone(met, n - 1)
        }
    }

    /// What is said about the first `n` targets: why each of them was refused,
    /// unless it was already gone, or what went wrong.
    pub open spec fn complaints(self, met: Seq<Encounter>, n: int) -> Seq<Seq<char>>
        decreases n,
    {
        if n <= 0 {
            Seq::empty()
        } else {
            let before = self.complaints(met, n - 1);
            let why = self.why(n - 1, met);
            let target = self.targets[n - 1];
            if why.len() > 0 {
                if why == "already gone"@ {
                    before
                } else {
                    before.push(complaint(target, why))
                }
            } else if self.goes(n - 1, met) {
                before
            } else {
                before.push(complaint(target, met[n - 1].error->0))
            }
        }
    }

    /// How a session goes on once it has tried the target it stands at.
    pub open spec fn tried(self, met: Seq<Encounter>, p: Progress) -> Progress {
        let seen = after_inspection(
            self.targets,
            self.dry_run,
            self.why(p.at, met),
            p,
        );
        if !(seen.phase is Removing) {
            seen
        } else {
            match met[p.at].error {
                Some(error) => after_failed_removal(self.targets, error, seen),
                None => after_removal(self.targets, seen),
            }
        }
    }

    /// How a session goes on once it has tried the target it stands at and
    /// recorded what happened.
    pub open spec fn dealt_with(self, met: Seq<Encounter>, p: Progress) -> Progress {
        let tried = self.tried(met, p);
        if tried.phase is Appending {
            advanced(self.targets.len(), false, tried)
        } else {
            tried
        }
    }

    /// Why the target at `k` stayed, or the empty text.
    pub open spec fn reason(self, k: int, met: Seq<Encounter>) -> Seq<char> {
        if self.why(k, met).len() > 0 {
            self.why(k, met)
        } else {
            match met[k].error {
                Some(error) => error,
                None => Seq::empty(),
            }
        }
    }

    /// Where a session stands once it has dealt with `n` targets.
    pub open spec fn after(self, met: Seq<Encounter>, start: Progress, n: int) -> Progress
        decreases n,
    {
        if n <= 0 {
            start
        } else {
            self.dealt_with(met, self.after(met, start, n - 1))
        }
    }

    /// Whether a session is about to look at its first target.
    pub open spec fn ready(self, p: Progress) -> bool {
        &&& sound_progress(self.targets, self.dry_run, p)
        &&& p.phase is Inspecting
        &&& p.at == 0
        &&& p.skipped_count == 0
        &&& p.result == (PurgeResultView { receipt_id: p.result.receipt_id, ..nothing_done() })
    }
}

/// A session whose receipt holds out deals with every target in turn. What it
/// reports freed are the bytes of exactly those targets that went, it counts each
/// of them once, and it says why each of the others stayed.
pub proof fn law_sessions_add_up(job: Job, met: Seq<Encounter>, start: Progress, n: int)
    requires
        job.ready(start),
        0 <= n <= job.targets.len(),
    ensures
        ({
            let p = job.after(met, start, n);
            &&& sound_progress(job.targets, job.dry_run, p)
            &&& p.at == n
            &&& p.phase == (if n < job.targets.len() {
                PhaseView::Inspecting
            } else if job.dry_run {
                PhaseView::Done
            } else {
                PhaseView::Summing
            })
            &&& p.result.freed == job.bytes_gone(met, n)
            &&& p.result.removed == job.count_gone(met, n)
            &&& p.skipped_count == n - job.count_gone(met, n)
            &&& p.result.skipped == job.complaints(met, n)
            &&& p.result.receipt_id == start.result.receipt_id
            &&& p.result.audit_error is None
        }),
    decreases n,
{
    if n > 0 {
        law_sessions_add_up(job, met, start, n - 1);
        lemma_target_bytes_grow(job.targets, n, job.targets.len() as int);
    }
}

/// Every attempt is recorded, with the path, the rule, the bytes, how to get it
/// back, whether it went and, if not, why.
pub proof fn law_every_attempt_is_recorded(job: Job, met: Seq<Encounter>, p: Progress)
    requires
        !job.dry_run,
        sound_progress(job.targets, job.dry_run, p),
        p.phase is Inspecting,
    ensures
        job.tried(met, p).phase is Appending,
        ({
            let item = recorded(job.targets, job.tried(met, p));
            let target = job.targets[p.at];
            &&& item.path == target.shown@
            &&& item.rule == target.rule_id@
            &&& item.tier == target.tier@
            &&& item.estimated_bytes == target.size
            &&& item.label == target.label@
            &&& item.regen == target.regen@
            &&& item.status == (if job.goes(p.at, met) {
                "removed"@
            } else {
                "skipped"@
            })
            &&& item.reason == job.reason(p.at, met)
        }),
{
}

/// The receipt names what was removed: the path it holds is a way to write the
/// path of the target that was tried.
pub proof fn law_receipts_name_what_was_tried(job: Job, met: Seq<Encounter>, p: Progress)
    requires
        !job.dry_run,
        all_well_shown(job),
        sound_progress(job.targets, job.dry_run, p),
        p.phase is Inspecting,
    ensures
        denotes(
            recorded(job.targets, job.tried(met, p)).path,
            job.targets[p.at].path@,
            job.platform,
        ),
{
    assert(well_shown(job.targets[p.at], job.platform));
}

/// A dry run rehearses the session: it reports what the session reports when
/// nothing that goes resists.
pub proof fn law_dry_run_rehearses(
    job: Job,
    met: Seq<Encounter>,
    start: Progress,
    rehearsal: Progress,
)
    requires
        !job.dry_run,
        job.ready(start),
        (Job { dry_run: true, ..job }).ready(rehearsal),
        forall|k: int| 0 <= k < job.targets.len() ==> (#[trigger] met[k]).error is None,
    ensures
        ({
            let n = job.targets.len() as int;
            let done = job.after(met, start, n).result;
            let dry = (Job { dry_run: true, ..job }).after(met, rehearsal, n).result;
            &&& dry.freed == done.freed
            &&& dry.removed == done.removed
            &&& dry.skipped == done.skipped
        }),
{
    let n = job.targets.len() as int;
    law_sessions_add_up(job, met, start, n);
    law_sessions_add_up(Job { dry_run: true, ..job }, met, rehearsal, n);
    lemma_rehearsal(job, met, n);
}

proof fn lemma_rehearsal(job: Job, met: Seq<Encounter>, n: int)
    requires
        !job.dry_run,
        0 <= n <= job.targets.len(),
        forall|k: int| 0 <= k < job.targets.len() ==> (#[trigger] met[k]).error is None,
    ensures
        ({
            let dry = Job { dry_run: true, ..job };
            &&& dry.bytes_gone(met, n) == job.bytes_gone(met, n)
            &&& dry.count_gone(met, n) == job.count_gone(met, n)
            &&& dry.complaints(met, n) == job.complaints(met, n)
        }),
    decreases n,
{
    if n > 0 {
        lemma_rehearsal(job, met, n - 1);
        assert(met[n - 1].error is None);
    }
}

/// Home is always among the allowed roots, and the root of the disk is only if it
/// is home.
pub proof fn law_allowed_roots_confine(home: Seq<PartView>, extra: Seq<Seq<PartView>>)
    ensures
        allowed_paths(home, extra).len() >= 1,
        allowed_paths(home, extra)[0] == home,
        forall|i: int|
            0 < i < allowed_paths(home, extra).len() ==> confining(
                #[trigger] allowed_paths(home, extra)[i],
            ) && extra.contains(allowed_paths(home, extra)[i]),
    decreases extra.len(),
{
    if extra.len() > 0 {
        let front = extra.drop_last();
        law_allowed_roots_confine(home, front);
        let before = allowed_paths(home, front);
        let all = allowed_paths(home, extra);
        assert forall|i: int| 0 < i < all.len() implies confining(#[trigger] all[i])
            && extra.contains(all[i]) by {
            if i < before.len() {
                assert(all[i] == before[i]);
                let k = choose|k: int| 0 <= k < front.len() && front[k] == before[i];
                assert(extra[k] == all[i]);
            } else {
                assert(extra[extra.len() - 1] == all[i]);
            }
        }
    }
}

/// The root a session is recorded under is home or holds its first target.
pub proof fn law_session_root_holds_the_first_target(
    path: Seq<PartView>,
    allowed: Seq<FsPath>,
    n: int,
)
    requires
        0 <= n <= allowed.len(),
    ensures
        (match longest_root(path, allowed, n) {
            Some(root) => within(path, root) && forall|i: int|
                0 <= i < n && within(path, (#[trigger] allowed[i])@) ==> allowed[i]@.len()
                    <= root.len(),
            None => forall|i: int| 0 <= i < n ==> !within(path, (#[trigger] allowed[i])@),
        }),
    decreases n,
{
    if n > 0 {
        law_session_root_holds_the_first_target(path, allowed, n - 1);
    }
}

proof fn lemma_decimal_chars(n: nat)
    ensures
        forall|i: int|
            0 <= i < decimal(n).len() ==> '0' <= (#[trigger] decimal(n)[i]) <= '9',
    decreases n,
{
    if n >= 10 {
        lemma_decimal_chars(n / 10);
        let front = decimal(n / 10);
        let all = decimal(n);
        assert forall|i: int| 0 <= i < all.len() implies '0' <= (#[trigger] all[i]) <= '9' by {
            if i < front.len() {
                assert(all[i] == front[i]);
            }
        }
    }
}

/// A session's receipt is found again: its name is that of a receipt.
pub proof fn law_receipt_names_are_valid(stamp: u128, process: u32, counter: u64)
    ensures
        receipt_file_name(receipt_name(session_id(stamp, process, counter))),
{
    let a = decimal(stamp as nat);
    let b = decimal(process as nat);
    let c = decimal(counter as nat);
    lemma_decimal_chars(stamp as nat);
    lemma_decimal_chars(process as nat);
    lemma_decimal_chars(counter as nat);
    reveal_strlit("-");
    reveal_strlit("receipt-");
    reveal_strlit(".jsonl");
    let id = session_id(stamp, process, counter);
    let name = receipt_name(id);
    assert forall|i: int| 0 <= i < id.len() implies crate::history::file_name_char(
        #[trigger] id[i],
    ) by {
        if i < a.len() {
            assert(id[i] == a[i]);
        } else if i < a.len() + 1 {
            assert(id[i] == '-');
        } else if i < a.len() + 1 + b.len() {
            assert(id[i] == b[i - a.len() - 1]);
        } else if i < a.len() + 1 + b.len() + 1 {
            assert(id[i] == '-');
        } else {
            assert(id[i] == c[i - a.len() - b.len() - 2]);
        }
    }
    assert("receipt-"@.len() == 8 && ".jsonl"@.len() == 6);
    assert forall|i: int| 0 <= i < name.len() implies crate::history::file_name_char(
        #[trigger] name[i],
    ) by {
        if i < 8 {
            assert(name[i] == "receipt-"@[i]);
        } else if i < 8 + id.len() {
            assert(name[i] == id[i - 8]);
        } else {
            assert(name[i] == ".jsonl"@[i - 8 - id.len()]);
        }
    }
    assert("receipt-"@ =~= name.subrange(0, 8));
    assert(".jsonl"@ =~= name.subrange(name.len() - 6, name.len() as int));
}

// ---------------------------------------------------------------------------
// What each step does
// ---------------------------------------------------------------------------

/// Whatever was scanned may be deleted from, besides home, unless it is no deeper
/// than the root of the disk.
pub proof fn law_scanned_roots_are_allowed(
    home: Seq<PartView>,
    extra: Seq<Seq<PartView>>,
    root: Seq<PartView>,
)
    ensures
        allowed_paths(home, Seq::empty()) == seq![home],
        root.len() >= 2 ==> allowed_paths(home, extra.push(root)) == allowed_paths(
            home,
            extra,
        ).push(root),
        root.len() < 2 ==> allowed_paths(home, extra.push(root)) == allowed_paths(home, extra),
{
    assert(extra.push(root).drop_last() =~= extra);
    assert(root_only().len() == 1);
}

/// A session is recorded under the innermost allowed root that holds its first
/// target, and under home where there is none.
pub proof fn law_sessions_are_recorded_under_their_root(
    targets: Seq<Target>,
    allowed: Seq<FsPath>,
    home: Seq<PartView>,
    i: int,
)
    requires
        0 <= i < allowed.len(),
    ensures
        targets.len() == 0 ==> session_root(targets, allowed, home) == home,
        targets.len() > 0 && within(targets[0].path@, allowed[i]@) ==> within(
            targets[0].path@,
            session_root(targets, allowed, home),
        ) && session_root(targets, allowed, home).len() >= allowed[i]@.len(),
        targets.len() > 0 && session_root(targets, allowed, home) != home ==> exists|k: int|
            0 <= k < allowed.len() && (#[trigger] allowed[k])@ == session_root(
                targets,
                allowed,
                home,
            ),
        targets.len() > 0 && (forall|k: int|
            0 <= k < allowed.len() ==> !within(targets[0].path@, (#[trigger] allowed[k])@))
            ==> session_root(targets, allowed, home) == home,
{
    if targets.len() > 0 {
        let n = allowed.len() as int;
        law_session_root_holds_the_first_target(targets[0].path@, allowed, n);
        lemma_longest_is_allowed(targets[0].path@, allowed, n);
    }
}

proof fn lemma_longest_is_allowed(path: Seq<PartView>, allowed: Seq<FsPath>, n: int)
    requires
        0 <= n <= allowed.len(),
    ensures
        longest_root(path, allowed, n) matches Some(root) ==> exists|k: int|
            0 <= k < n && (#[trigger] allowed[k])@ == root,
    decreases n,
{
    if n > 0 {
        lemma_longest_is_allowed(path, allowed, n - 1);
        assert(allowed[n - 1]@ == allowed[n - 1]@);
    }
}

/// A session is called by the time, the process and the counter, and its receipt by
/// the session.
pub proof fn law_sessions_are_named(stamp: u128, process: u32, counter: u64)
    ensures
        session_id(stamp, process, counter) == decimal(stamp as nat).push('-') + decimal(
            process as nat,
        ).push('-') + decimal(counter as nat),
        receipt_name(session_id(stamp, process, counter)) == "receipt-"@ + session_id(
            stamp,
            process,
            counter,
        ) + ".jsonl"@,
{
    reveal_strlit("-");
    assert("-"@ =~= seq!['-']);
    assert(session_id(stamp, process, counter) =~= decimal(stamp as nat).push('-') + decimal(
        process as nat,
    ).push('-') + decimal(counter as nat));
}

/// The bytes of the targets are those of each, added up.
pub proof fn law_target_bytes_add_up(targets: Seq<Target>, n: int)
    requires
        0 <= n < targets.len(),
    ensures
        target_bytes(targets, 0) == 0,
        target_bytes(targets, n + 1) == target_bytes(targets, n) + targets[n].size,
{
}

/// An attempt is recorded with everything the target says of itself.
pub proof fn law_attempts_tell_their_target(target: Target, status: Seq<char>, reason: Seq<char>)
    ensures
        ({
            let item = attempt(target, status, reason);
            &&& item.schema == 1
            &&& item.kind == "item"@
            &&& item.path == target.shown@
            &&& item.rule == target.rule_id@
            &&& item.tier == target.tier@
            &&& item.label == target.label@
            &&& item.regen == target.regen@
            &&& item.estimated_bytes == target.size
            &&& item.status == status
            &&& item.reason == reason
        }),
{
}

/// A session begins with its receipt, and a dry run with its first target.
pub proof fn law_sessions_begin_with_the_receipt(len: nat)
    ensures
        started(len, false).phase is Opening,
        len > 0 ==> started(len, true).phase is Inspecting,
        started(0, true).phase is Done,
        forall|dry_run: bool| #[trigger]
            started(len, dry_run).at == 0 && started(len, dry_run).skipped_count == 0 && started(
                len,
                dry_run,
            ).result.freed == 0 && started(len, dry_run).result.removed == 0 && started(
                len,
                dry_run,
            ).result.skipped.len() == 0 && started(len, dry_run).result.receipt_id is None
                && started(len, dry_run).result.audit_error is None,
{
}

/// After a target comes the next one, and after the last one the summary, which a dry
/// run does without.
pub proof fn law_targets_are_taken_in_turn(len: nat, dry_run: bool, p: Progress)
    ensures
        advanced(len, dry_run, p).at == p.at + 1,
        advanced(len, dry_run, p).skipped_count == p.skipped_count,
        advanced(len, dry_run, p).result == p.result,
        p.at + 1 < len ==> advanced(len, dry_run, p).phase is Inspecting,
        p.at + 1 >= len && dry_run ==> advanced(len, dry_run, p).phase is Done,
        p.at + 1 >= len && !dry_run ==> advanced(len, dry_run, p).phase is Summing,
{
}

/// A target that is refused stays: nothing is counted as freed, it is counted as
/// skipped, and the person at the screen is told why, unless it was already gone.
pub proof fn law_refused_targets_stay(
    targets: Seq<Target>,
    dry_run: bool,
    why: Seq<char>,
    p: Progress,
)
    requires
        why.len() > 0,
    ensures
        ({
            let next = after_inspection(targets, dry_run, why, p);
            &&& !(next.phase is Removing)
            &&& next.result.freed == p.result.freed
            &&& next.result.removed == p.result.removed
            &&& next.result.receipt_id == p.result.receipt_id
            &&& next.result.audit_error == p.result.audit_error
            &&& next.skipped_count == p.skipped_count + 1
            &&& why == "already gone"@ ==> next.result.skipped == p.result.skipped
            &&& why != "already gone"@ ==> next.result.skipped == p.result.skipped.push(
                targets[p.at].shown@ + ": "@ + why,
            )
            &&& !dry_run ==> next.at == p.at && next.phase == (PhaseView::Appending {
                removed: false,
                reason: why,
            })
            &&& dry_run ==> next.at == p.at + 1
        }),
{
}

/// A target that nothing speaks against is removed next, and in a dry run counted as
/// if it had been.
pub proof fn law_accepted_targets_go(targets: Seq<Target>, dry_run: bool, p: Progress)
    requires
        p.result.freed + targets[p.at].size <= u64::MAX,
        p.result.removed < usize::MAX,
    ensures
        ({
            let next = after_inspection(targets, dry_run, Seq::empty(), p);
            &&& next.result.skipped == p.result.skipped
            &&& next.skipped_count == p.skipped_count
            &&& !dry_run ==> next.phase is Removing && next.at == p.at && next.result == p.result
            &&& dry_run ==> next.at == p.at + 1 && next.result.freed == p.result.freed
                + targets[p.at].size && next.result.removed == p.result.removed + 1
        }),
{
}

/// What was removed is counted, with its bytes, and recorded as removed; what could
/// not be is skipped, recorded with the error, and told.
pub proof fn law_removals_are_counted(targets: Seq<Target>, error: Seq<char>, p: Progress)
    requires
        p.result.freed + targets[p.at].size <= u64::MAX,
        p.result.removed < usize::MAX,
    ensures
        ({
            let gone = after_removal(targets, p);
            &&& gone.result.freed == p.result.freed + targets[p.at].size
            &&& gone.result.removed == p.result.removed + 1
            &&& gone.result.skipped == p.result.skipped
            &&& gone.skipped_count == p.skipped_count
            &&& gone.at == p.at
            &&& gone.phase is Appending && gone.phase->Appending_removed
                && gone.phase->Appending_reason.len() == 0
            &&& recorded(targets, gone).status == "removed"@
        }),
        ({
            let kept = after_failed_removal(targets, error, p);
            &&& kept.result.freed == p.result.freed
            &&& kept.result.removed == p.result.removed
            &&& kept.result.skipped == p.result.skipped.push(targets[p.at].shown@ + ": "@ + error)
            &&& kept.skipped_count == p.skipped_count + 1
            &&& kept.at == p.at
            &&& kept.phase is Appending && !kept.phase->Appending_removed
                && kept.phase->Appending_reason == error
            &&& recorded(targets, kept).status == "skipped"@
            &&& recorded(targets, kept).reason == error
        }),
{
}

/// A target goes exactly if nothing speaks against it and it does not resist; what is
/// gone is counted once for each.
pub proof fn law_what_goes_is_counted_once(job: Job, met: Seq<Encounter>, n: int)
    requires
        0 <= n < job.targets.len(),
    ensures
        job.goes(n, met) <==> refusal(
            job.targets[n],
            job.allowed,
            job.home,
            job.platform,
            met[n].entry,
        ).len() == 0 && (job.dry_run || met[n].error is None),
        job.bytes_gone(met, 0) == 0,
        job.count_gone(met, 0) == 0,
        job.goes(n, met) ==> job.bytes_gone(met, n + 1) == job.bytes_gone(met, n)
            + job.targets[n].size && job.count_gone(met, n + 1) == job.count_gone(met, n) + 1,
        !job.goes(n, met) ==> job.bytes_gone(met, n + 1) == job.bytes_gone(met, n)
            && job.count_gone(met, n + 1) == job.count_gone(met, n),
{
}

/// A session refuses what the guards refuse: the target it stands at, as it was
/// selected, within the roots and the home it was given.
pub proof fn law_sessions_heed_the_guards(session: Purge, entry: Entry)
    ensures
        session.refused(entry) == refusal(
            session.job().targets[session.progress().at],
            session.job().allowed,
            session.job().home,
            session.job().platform,
            entry,
        ),
{
}

} // verus!
