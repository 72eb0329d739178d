//! What the desktop app remembers between launches.
//!
//! Lives in `~/.cachereaper/config.json`, beside the receipts, so everything the
//! tool keeps about you is in one directory you can read and delete.
//!
//! The field that earns its place is `access`: it is what lets the app draw
//! truthful permission state at startup without reading a single gated folder,
//! and reading one is how a dialog gets raised.
use vstd::prelude::*;

use crate::access::AccessState;
use crate::path::{
    absolute, child_path, contains_path, copy_paths, parent_path, path_name, paths, FsPath, Part,
    PartView, Platform,
};
use crate::text::{blank, chars_of, contains_text, is_blank, text_between, texts};

verus! {

/// Our last answer for one gate.
#[derive(Debug)]
pub struct AccessRecord {
    pub id: String,
    pub state: AccessState,
}

/// A root with its exclusions, under a name.
#[derive(Debug)]
pub struct ScanProfile {
    pub id: String,
    pub name: String,
    pub root: FsPath,
    pub excluded_paths: Vec<FsPath>,
    pub excluded_rules: Vec<String>,
}

/// What a [`ScanProfile`] says.
pub struct ScanProfileView {
    pub id: Seq<char>,
    pub name: Seq<char>,
    pub root: Seq<PartView>,
    pub excluded_paths: Seq<Seq<PartView>>,
    pub excluded_rules: Seq<Seq<char>>,
}

impl View for ScanProfile {
    type V = ScanProfileView;

    open spec fn view(&self) -> ScanProfileView {
        ScanProfileView {
            id: self.id@,
            name: self.name@,
            root: self.root@,
            excluded_paths: paths(self.excluded_paths@),
            excluded_rules: texts(self.excluded_rules@),
        }
    }
}

impl Clone for ScanProfile {
    fn clone(&self) -> (r: Self)
        ensures
            r@ == self@,
    {
        ScanProfile {
            id: self.id.clone(),
            name: self.name.clone(),
            root: self.root.clone(),
            excluded_paths: copy_paths(&self.excluded_paths),
            excluded_rules: self.excluded_rules.clone(),
        }
    }
}

/// What a list of profiles says.
pub open spec fn profile_views(list: Seq<ScanProfile>) -> Seq<ScanProfileView> {
    list.map_values(|profile: ScanProfile| profile@)
}

#[derive(Debug)]
pub struct Config {
    /// Whether the onboarding journey has run to the end.
    pub seen_onboarding: bool,
    /// Last known answer per gate. Absent means never asked, which is `Unknown`
    /// and not a denial.
    pub access: Vec<AccessRecord>,
    /// Whether a launch may ask the release feed if there is a newer build.
    pub auto_update: bool,
    /// Unix timestamp after which the optional support card may appear. `None`
    /// means a first launch has not scheduled it yet.
    pub support_prompt_at: Option<u64>,
    /// Permanent opt-out for the occasional support card.
    pub support_prompt_disabled: bool,
    pub profiles: Vec<ScanProfile>,
    pub global_excluded_paths: Vec<FsPath>,
    pub global_excluded_rules: Vec<String>,
    pub last_profile_id: Option<String>,
}

impl Default for Config {
    /// Update checking is on until it is turned off.
    fn default() -> (r: Self)
        ensures
            r.wf(),
            !r.seen_onboarding,
            r.access@.len() == 0,
            r.auto_update,
            r.support_prompt_at is None,
            !r.support_prompt_disabled,
            r.profiles@.len() == 0,
            r.global_excluded_paths@.len() == 0,
            r.global_excluded_rules@.len() == 0,
            r.last_profile_id is None,
    {
        Config {
            seen_onboarding: false,
            access: Vec::new(),
            auto_update: true,
            support_prompt_at: None,
            support_prompt_disabled: false,
            profiles: Vec::new(),
            global_excluded_paths: Vec::new(),
            global_excluded_rules: Vec::new(),
            last_profile_id: None,
        }
    }
}

// ---------------------------------------------------------------------------
// Answers
// ---------------------------------------------------------------------------

/// The answers that a list of records holds.
pub open spec fn answers(list: Seq<AccessRecord>) -> Map<Seq<char>, AccessState>
    decreases list.len(),
{
    if list.len() == 0 {
        Map::empty()
    } else {
        answers(list.drop_last()).insert(list.last().id@, list.last().state)
    }
}

/// Whether no gate is recorded twice.
pub open spec fn recorded_once(list: Seq<AccessRecord>) -> bool {
    forall|i: int, j: int|
        0 <= i < j < list.len() ==> (#[trigger] list[i]).id@ != (#[trigger] list[j]).id@
}

proof fn lemma_answers(list: Seq<AccessRecord>)
    requires
        recorded_once(list),
    ensures
        forall|i: int|
            0 <= i < list.len() ==> answers(list).contains_key((#[trigger] list[i]).id@)
                && answers(list)[list[i].id@] == list[i].state,
        forall|id: Seq<char>| #[trigger]
            answers(list).contains_key(id) ==> exists|i: int|
                0 <= i < list.len() && (#[trigger] list[i]).id@ == id,
    decreases list.len(),
{
    if list.len() > 0 {
        let front = list.drop_last();
        assert(recorded_once(front)) by {
            assert forall|i: int, j: int| 0 <= i < j < front.len() implies (
            #[trigger] front[i]).id@ != (#[trigger] front[j]).id@ by {
                assert(front[i] == list[i] && front[j] == list[j]);
            }
        }
        lemma_answers(front);
        assert forall|i: int| 0 <= i < list.len() implies answers(list).contains_key(
            (#[trigger] list[i]).id@,
        ) && answers(list)[list[i].id@] == list[i].state by {
            if i < front.len() {
                assert(front[i] == list[i]);
                assert(list[i].id@ != list[list.len() - 1].id@);
            }
        }
        assert forall|id: Seq<char>| #[trigger] answers(list).contains_key(id) implies exists|
            i: int,
        | 0 <= i < list.len() && (#[trigger] list[i]).id@ == id by {
            if id == list.last().id@ {
                assert(list[list.len() - 1].id@ == id);
            } else {
                assert(answers(front).contains_key(id));
                let i = choose|i: int| 0 <= i < front.len() && (#[trigger] front[i]).id@ == id;
                assert(list[i].id@ == id);
            }
        }
    }
}

/// Two lists of records with the same answers for each id that either has.
proof fn lemma_same_answers(a: Seq<AccessRecord>, m: Map<Seq<char>, AccessState>)
    requires
        recorded_once(a),
        forall|i: int|
            0 <= i < a.len() ==> m.contains_key((#[trigger] a[i]).id@) && m[a[i].id@] == a[i].state,
        forall|id: Seq<char>| #[trigger]
            m.contains_key(id) ==> exists|i: int| 0 <= i < a.len() && (#[trigger] a[i]).id@ == id,
    ensures
        answers(a) == m,
{
    lemma_answers(a);
    assert forall|id: Seq<char>| answers(a).contains_key(id) implies #[trigger] m.contains_key(id)
        && m[id] == answers(a)[id] by {
        let i = choose|i: int| 0 <= i < a.len() && (#[trigger] a[i]).id@ == id;
        assert(m.contains_key(a[i].id@));
    }
    assert(answers(a) =~= m);
}

impl Config {
    pub open spec fn wf(&self) -> bool {
        recorded_once(self.access@)
    }

    /// Our last answers, by gate.
    pub open spec fn known(&self) -> Map<Seq<char>, AccessState> {
        answers(self.access@)
    }

    /// What we last heard about a gate.
    pub open spec fn heard(&self, id: Seq<char>) -> AccessState {
        if self.known().contains_key(id) {
            self.known()[id]
        } else {
            AccessState::Unknown
        }
    }

    /// Whether everything but the answers is the same.
    pub open spec fn same_besides_access(&self, other: Config) -> bool {
        &&& self.seen_onboarding == other.seen_onboarding
        &&& self.auto_update == other.auto_update
        &&& self.support_prompt_at == other.support_prompt_at
        &&& self.support_prompt_disabled == other.support_prompt_disabled
        &&& self.profiles == other.profiles
        &&& self.global_excluded_paths == other.global_excluded_paths
        &&& self.global_excluded_rules == other.global_excluded_rules
        &&& self.last_profile_id == other.last_profile_id
    }

    /// What we last heard about a gate. Absent reads as `Unknown`.
    pub fn state_of(&self, id: &str) -> (r: AccessState)
        requires
            self.wf(),
        ensures
            r == self.heard(id@),
    {
        proof {
            lemma_answers(self.access@);
        }
        let mut i: usize = 0;
        while i < self.access.len()
            invariant
                i <= self.access.len(),
                forall|k: int|
                    0 <= k < self.access@.len() ==> self.known().contains_key(
                        (#[trigger] self.access@[k]).id@,
                    ) && self.known()[self.access@[k].id@] == self.access@[k].state,
                forall|other: Seq<char>| #[trigger]
                    self.known().contains_key(other) ==> exists|k: int|
                        0 <= k < self.access@.len() && (#[trigger] self.access@[k]).id@ == other,
                forall|k: int| 0 <= k < i ==> (#[trigger] self.access@[k]).id@ != id@,
            decreases self.access.len() - i,
        {
            if *self.access[i].id.as_str() == *id {
                return self.access[i].state;
            }
            i += 1;
        }
        AccessState::Unknown
    }

    /// Remember an answer. `Unknown` is stored rather than removed, so a gate the
    /// user handed back still shows up as something we have talked about.
    pub fn record(&mut self, id: &str, state: AccessState)
        requires
            old(self).wf(),
        ensures
            final(self).wf(),
            final(self).known() == old(self).known().insert(id@, state),
            final(self).same_besides_access(*old(self)),
    {
        let ghost before = self.access@;
        let ghost wanted = self.known().insert(id@, state);
        proof {
            lemma_answers(before);
        }
        let mut i: usize = 0;
        while i < self.access.len() && *self.access[i].id.as_str() != *id
            invariant
                i <= self.access.len(),
                forall|k: int| 0 <= k < i ==> (#[trigger] self.access@[k]).id@ != id@,
            decreases self.access.len() - i,
        {
            i += 1;
        }
        if i < self.access.len() {
            self.access[i].state = state;
            proof {
                let now = self.access@;
                assert forall|a: int, b: int| 0 <= a < b < now.len() implies (
                #[trigger] now[a]).id@ != (#[trigger] now[b]).id@ by {
                    assert(now[a].id == before[a].id && now[b].id == before[b].id);
                }
                assert forall|k: int| 0 <= k < now.len() implies wanted.contains_key(
                    (#[trigger] now[k]).id@,
                ) && wanted[now[k].id@] == now[k].state by {
                    assert(now[k].id == before[k].id);
                    if k != i {
                        assert(before[k].id@ != before[i as int].id@) by {
                            if k < i {
                                assert(before[k].id@ != before[i as int].id@);
                            } else {
                                assert(before[i as int].id@ != before[k].id@);
                            }
                        }
                        assert(now[k] == before[k]);
                    }
                }
                assert forall|other: Seq<char>| #[trigger] wanted.contains_key(
                    other,
                ) implies exists|k: int| 0 <= k < now.len() && (#[trigger] now[k]).id@ == other by {
                    if other == id@ {
                        assert(now[i as int].id@ == other);
                    } else {
                        assert(answers(before).contains_key(other));
                        let k = choose|k: int|
                            0 <= k < before.len() && (#[trigger] before[k]).id@ == other;
                        assert(now[k].id@ == other);
                    }
                }
                lemma_same_answers(now, wanted);
            }
        } else {
            self.access.push(AccessRecord { id: id.to_string(), state });
            proof {
                assert(self.access@.drop_last() =~= before);
            }
        }
    }
}

// ---------------------------------------------------------------------------
// On disk
// ---------------------------------------------------------------------------

/// Where the configuration is kept.
pub open spec fn config_place(home: Seq<PartView>) -> Seq<PartView> {
    child_path(child_path(home, ".cachereaper"@), "config.json"@)
}

/// Where the configuration is kept.
pub fn config_path(home: &FsPath) -> (r: FsPath)
    ensures
        r@ == config_place(home@),
{
    home.child(".cachereaper").child("config.json")
}

/// Take what was read, or fall back to defaults.
///
/// Never fails. A missing, unreadable or malformed configuration is not a reason
/// to refuse to start.
pub fn load(read: Option<Config>) -> (r: Config)
    requires
        read matches Some(config) ==> config.wf(),
    ensures
        r.wf(),
        (match read {
            Some(config) => r == config,
            None => !r.seen_onboarding && r.access@.len() == 0 && r.auto_update
                && r.support_prompt_at is None && !r.support_prompt_disabled && r.profiles@.len()
                == 0 && r.global_excluded_paths@.len() == 0 && r.global_excluded_rules@.len() == 0
                && r.last_profile_id is None,
        }),
{
    match read {
        Some(config) => config,
        None => Config::default(),
    }
}

/// A step of saving.
#[derive(Debug)]
pub enum SaveStep {
    /// Create a directory and those above it.
    CreateDir(FsPath),
    /// Write the whole configuration to a file.
    Write(FsPath),
    /// Remove a file if it is there.
    RemoveIfThere(FsPath),
    /// Rename the first to the second, in its place.
    Rename(FsPath, FsPath),
}

/// What a [`SaveStep`] says.
pub enum SaveStepView {
    CreateDir(Seq<PartView>),
    Write(Seq<PartView>),
    RemoveIfThere(Seq<PartView>),
    Rename(Seq<PartView>, Seq<PartView>),
}

impl View for SaveStep {
    type V = SaveStepView;

    open spec fn view(&self) -> SaveStepView {
        match self {
            SaveStep::CreateDir(path) => SaveStepView::CreateDir(path@),
            SaveStep::Write(path) => SaveStepView::Write(path@),
            SaveStep::RemoveIfThere(path) => SaveStepView::RemoveIfThere(path@),
            SaveStep::Rename(from, to) => SaveStepView::Rename(from@, to@),
        }
    }
}

/// What a list of steps says.
pub open spec fn step_views(steps: Seq<SaveStep>) -> Seq<SaveStepView> {
    steps.map_values(|step: SaveStep| step@)
}

/// Where the last dot of a text stands, or its length.
pub open spec fn last_dot(name: Seq<char>) -> nat
    decreases name.len(),
{
    if name.len() == 0 {
        0
    } else if name.last() == '.' {
        (name.len() - 1) as nat
    } else {
        let at = last_dot(name.drop_last());
        if at == name.len() - 1 {
            name.len()
        } else {
            at
        }
    }
}

/// A name without its extension. A dot in front does not start one.
pub open spec fn stem(name: Seq<char>) -> Seq<char> {
    let at = last_dot(name);
    if at == 0 {
        name
    } else {
        name.subrange(0, at as int)
    }
}

/// Where the last dot of a text stands, or its length.
fn find_last_dot(chars: &Vec<char>) -> (r: usize)
    ensures
        r == last_dot(chars@),
        r <= chars@.len(),
{
    let mut at: usize = 0;
    let mut i: usize = 0;
    while i < chars.len()
        invariant
            i <= chars.len(),
            at == last_dot(chars@.take(i as int)),
            at <= i,
        decreases chars.len() - i,
    {
        assert(chars@.take(i + 1).drop_last() =~= chars@.take(i as int));
        assert(chars@.take(i + 1).last() == chars@[i as int]);
        if chars[i] == '.' {
            at = i;
        } else if at == i {
            at = i + 1;
        }
        i += 1;
    }
    assert(chars@.take(chars@.len() as int) =~= chars@);
    at
}

/// A path with another extension. A path that does not end in a name stays as it
/// is.
pub open spec fn with_extension(path: Seq<PartView>, extension: Seq<char>) -> Seq<PartView> {
    match path_name(path) {
        Some(name) => path.drop_last().push(PartView::Normal(stem(name) + "."@ + extension)),
        None => path,
    }
}

/// A path with another extension.
fn replace_extension(path: &FsPath, extension: &str) -> (r: FsPath)
    ensures
        r@ == with_extension(path@, extension@),
{
    match path.file_name() {
        Some(name) => {
            let chars = chars_of(name.as_str());
            let at: usize = find_last_dot(&chars);
            let mut text = if at == 0 {
                name
            } else {
                text_between(&chars, 0, at)
            };
            text.append(".");
            text.append(extension);
            let mut r = path.clone();
            assert(r.parts@.len() == r@.len());
            r.parts.pop();
            assert(r@ =~= path@.drop_last());
            let ghost front = r@;
            let ghost shown = text@;
            r.parts.push(Part::Normal(text));
            assert(r@ =~= front.push(PartView::Normal(shown)));
            r
        },
        None => path.clone(),
    }
}

/// The steps of saving to a path: the whole configuration is written beside the
/// target and then put in its place, so an interrupted save cannot leave a
/// truncated one. Windows does not rename onto an existing file, so there the old
/// one is removed first, but only once the new one is complete.
pub open spec fn save_plan(path: Seq<PartView>, platform: Platform) -> Seq<SaveStepView> {
    let temporary = with_extension(path, "json.tmp"@);
    let dir = match parent_path(path) {
        Some(dir) => seq![SaveStepView::CreateDir(dir)],
        None => Seq::empty(),
    };
    let clear = if platform is Windows {
        seq![SaveStepView::RemoveIfThere(path)]
    } else {
        Seq::empty()
    };
    dir + seq![SaveStepView::Write(temporary)] + clear + seq![SaveStepView::Rename(temporary, path)]
}

/// The steps of saving to a path.
pub fn save_to(path: &FsPath, platform: Platform) -> (r: Vec<SaveStep>)
    ensures
        step_views(r@) == save_plan(path@, platform),
{
    let temporary = replace_extension(path, "json.tmp");
    let ghost tmp = temporary@;
    let mut out: Vec<SaveStep> = Vec::new();
    match path.parent() {
        Some(dir) => {
            out.push(SaveStep::CreateDir(dir));
        },
        None => {},
    }
    out.push(SaveStep::Write(temporary.clone()));
    match platform {
        Platform::Windows => {
            out.push(SaveStep::RemoveIfThere(path.clone()));
        },
        _ => {},
    }
    out.push(SaveStep::Rename(temporary, path.clone()));
    assert(step_views(out@) =~= save_plan(path@, platform));
    out
}

/// The steps of saving the configuration.
pub fn save(home: &FsPath, platform: Platform) -> (r: Vec<SaveStep>)
    ensures
        step_views(r@) == save_plan(config_place(home@), platform),
{
    let path = config_path(home);
    save_to(&path, platform)
}

// ---------------------------------------------------------------------------
// Paths that are kept
// ---------------------------------------------------------------------------

/// A path with `.` dropped and `..` resolved by its spelling alone. There is
/// nothing above a root.
pub open spec fn resolved(path: Seq<PartView>) -> Seq<PartView>
    decreases path.len(),
{
    if path.len() == 0 {
        Seq::empty()
    } else {
        let front = resolved(path.drop_last());
        match path.last() {
            PartView::Current => front,
            PartView::Parent => if front.len() > 0 && front.last() is Normal {
                front.drop_last()
            } else {
                front
            },
            part => front.push(part),
        }
    }
}

/// An absolute path with `.` dropped and `..` resolved, or why it cannot be.
pub fn normalize_absolute(path: &FsPath, platform: Platform) -> (r: Result<FsPath, String>)
    ensures
        (match r {
            Ok(normal) => absolute(path@, platform) && normal@ == resolved(path@),
            Err(why) => !absolute(path@, platform) && why@ == "path must be absolute"@,
        }),
{
    if !path.is_absolute(platform) {
        return Err("path must be absolute".to_string());
    }
    let mut out = FsPath { parts: Vec::new() };
    let mut i: usize = 0;
    assert(out@ =~= resolved(path@.take(0)));
    while i < path.parts.len()
        invariant
            i <= path.parts.len(),
            out@ == resolved(path@.take(i as int)),
        decreases path.parts.len() - i,
    {
        let ghost before = out@;
        assert(path@.take(i + 1).drop_last() =~= path@.take(i as int));
        assert(path@.take(i + 1).last() == path.parts@[i as int]@);
        assert(out.parts@.len() == out@.len());
        match &path.parts[i] {
            Part::Current => {},
            Part::Parent => {
                let up = if out.parts.len() == 0 {
                    false
                } else {
                    assert(before.last() == out.parts@.last()@);
                    match &out.parts[out.parts.len() - 1] {
                        Part::Normal(_) => true,
                        _ => false,
                    }
                };
                if up {
                    out.parts.pop();
                    assert(out@ =~= before.drop_last());
                }
            },
            _ => {
                out.parts.push(path.parts[i].clone());
                assert(out@ =~= before.push(path.parts@[i as int]@));
            },
        }
        i += 1;
    }
    assert(path@.take(path@.len() as int) =~= path@);
    Ok(out)
}

/// Whether two paths are the same.
pub fn paths_equal(a: &FsPath, b: &FsPath) -> (r: bool)
    ensures
        r == (a@ == b@),
{
    a.same(b)
}

// ---------------------------------------------------------------------------
// Profiles
// ---------------------------------------------------------------------------

/// Whether a profile has an id.
pub open spec fn has_profile(profiles: Seq<ScanProfile>, id: Seq<char>) -> bool {
    exists|i: int| 0 <= i < profiles.len() && (#[trigger] profiles[i]).id@ == id
}

/// Whether the first profile with an id stands at a place.
pub open spec fn profile_at(profiles: Seq<ScanProfile>, id: Seq<char>, i: int) -> bool {
    &&& 0 <= i < profiles.len()
    &&& profiles[i].id@ == id
    &&& forall|k: int| 0 <= k < i ==> (#[trigger] profiles[k]).id@ != id
}

/// The place of the first profile with an id.
pub fn find_profile(profiles: &Vec<ScanProfile>, id: &str) -> (r: Option<usize>)
    ensures
        (match r {
            Some(i) => profile_at(profiles@, id@, i as int),
            None => !has_profile(profiles@, id@),
        }),
{
    let mut i: usize = 0;
    while i < profiles.len()
        invariant
            i <= profiles.len(),
            forall|k: int| 0 <= k < i ==> (#[trigger] profiles@[k]).id@ != id@,
        decreases profiles.len() - i,
    {
        if *profiles[i].id.as_str() == *id {
            return Some(i);
        }
        i += 1;
    }
    None
}

/// The profiles without those of an id.
pub open spec fn profiles_without(
    profiles: Seq<ScanProfileView>,
    id: Seq<char>,
) -> Seq<ScanProfileView>
    decreases profiles.len(),
{
    if profiles.len() == 0 {
        Seq::empty()
    } else if profiles.last().id == id {
        profiles_without(profiles.drop_last(), id)
    } else {
        profiles_without(profiles.drop_last(), id).push(profiles.last())
    }
}

impl Config {
    /// Whether everything but the profiles is the same.
    pub open spec fn same_besides_profiles(&self, other: Config) -> bool {
        &&& self.access == other.access
        &&& self.seen_onboarding == other.seen_onboarding
        &&& self.auto_update == other.auto_update
        &&& self.support_prompt_at == other.support_prompt_at
        &&& self.support_prompt_disabled == other.support_prompt_disabled
        &&& self.global_excluded_paths == other.global_excluded_paths
        &&& self.global_excluded_rules == other.global_excluded_rules
        &&& self.last_profile_id == other.last_profile_id
    }

    /// Remember the profile that was scanned last.
    pub fn remember_profile(&mut self, id: &str)
        ensures
            final(self).last_profile_id matches Some(last) && last@ == id@,
            *final(self) == (Config {
                last_profile_id: final(self).last_profile_id,
                ..*old(self)
            }),
    {
        self.last_profile_id = Some(id.to_string());
    }

    /// The profile with an id.
    pub fn profile(&self, id: &str) -> (r: Option<&ScanProfile>)
        ensures
            (match r {
                Some(profile) => exists|i: int|
                    #[trigger] profile_at(self.profiles@, id@, i) && *profile == self.profiles@[i],
                None => !has_profile(self.profiles@, id@),
            }),
    {
        match find_profile(&self.profiles, id) {
            Some(i) => {
                assert(profile_at(self.profiles@, id@, i as int));
                Some(&self.profiles[i])
            },
            None => None,
        }
    }

    /// Add a profile under a fresh id. Its root must be absolute.
    pub fn create_profile(
        &mut self,
        id: String,
        name: String,
        root: &FsPath,
        platform: Platform,
    ) -> (r: Result<ScanProfile, String>)
        ensures
            final(self).same_besides_profiles(*old(self)),
            (match r {
                Ok(profile) => {
                    &&& absolute(root@, platform)
                    &&& profile@ == (ScanProfileView {
                        id: id@,
                        name: name@,
                        root: resolved(root@),
                        excluded_paths: Seq::empty(),
                        excluded_rules: Seq::empty(),
                    })
                    &&& profile_views(final(self).profiles@) == profile_views(
                        old(self).profiles@,
                    ).push(profile@)
                },
                Err(why) => {
                    &&& !absolute(root@, platform)
                    &&& why@ == "path must be absolute"@
                    &&& final(self).profiles == old(self).profiles
                },
            }),
    {
        let root = match normalize_absolute(root, platform) {
            Ok(root) => root,
            Err(why) => {
                return Err(why);
            },
        };
        let profile = ScanProfile {
            id,
            name,
            root,
            excluded_paths: Vec::new(),
            excluded_rules: Vec::new(),
        };
        assert(paths(profile.excluded_paths@) =~= Seq::empty());
        assert(texts(profile.excluded_rules@) =~= Seq::empty());
        let copy = profile.clone();
        let ghost before = self.profiles@;
        self.profiles.push(profile);
        assert(profile_views(self.profiles@) =~= profile_views(before).push(copy@));
        Ok(copy)
    }

    /// Give a profile another name and root. Its exclusions stay.
    pub fn update_profile(&mut self, id: &str, name: String, root: &FsPath, platform: Platform) -> (r:
        Result<ScanProfile, String>)
        ensures
            final(self).same_besides_profiles(*old(self)),
            (match r {
                Ok(profile) => exists|i: int|
                    {
                        &&& #[trigger] profile_at(old(self).profiles@, id@, i)
                        &&& absolute(root@, platform)
                        &&& profile@ == (ScanProfileView {
                            name: name@,
                            root: resolved(root@),
                            ..old(self).profiles@[i]@
                        })
                        &&& profile_views(final(self).profiles@) == profile_views(
                            old(self).profiles@,
                        ).update(i, profile@)
                    },
                Err(why) => {
                    &&& final(self).profiles == old(self).profiles
                    &&& if !absolute(root@, platform) {
                        why@ == "path must be absolute"@
                    } else {
                        !has_profile(old(self).profiles@, id@) && why@ == "profile not found"@
                    }
                },
            }),
    {
        let root = match normalize_absolute(root, platform) {
            Ok(root) => root,
            Err(why) => {
                return Err(why);
            },
        };
        match find_profile(&self.profiles, id) {
            Some(i) => {
                let ghost before = self.profiles@;
                let ghost wanted = ScanProfileView { name: name@, root: root@, ..before[i as int]@ };
                self.profiles[i].name = name;
                self.profiles[i].root = root;
                let copy = self.profiles[i].clone();
                assert(copy@ == wanted);
                assert(profile_views(self.profiles@) =~= profile_views(before).update(
                    i as int,
                    copy@,
                ));
                assert(profile_at(before, id@, i as int));
                Ok(copy)
            },
            None => Err("profile not found".to_string()),
        }
    }

    /// Delete the profile with an id, and say whether there was one.
    pub fn delete_profile(&mut self, id: &str) -> (r: bool)
        ensures
            final(self).same_besides_profiles(*old(self)),
            r == has_profile(old(self).profiles@, id@),
            profile_views(final(self).profiles@) == profiles_without(
                profile_views(old(self).profiles@),
                id@,
            ),
    {
        let ghost all = profile_views(self.profiles@);
        let mut kept: Vec<ScanProfile> = Vec::new();
        let mut found = false;
        let mut i: usize = 0;
        assert(profile_views(kept@) =~= profiles_without(all.take(0), id@));
        while i < self.profiles.len()
            invariant
                *self == *old(self),
                i <= self.profiles.len(),
                all == profile_views(self.profiles@),
                profile_views(kept@) == profiles_without(all.take(i as int), id@),
                found == exists|k: int|
                    0 <= k < i && (#[trigger] self.profiles@[k]).id@ == id@,
            decreases self.profiles.len() - i,
        {
            let ghost before = kept@;
            assert(all.take(i + 1).drop_last() =~= all.take(i as int));
            assert(all.take(i + 1).last() == self.profiles@[i as int]@);
            if *self.profiles[i].id.as_str() == *id {
                found = true;
            } else {
                kept.push(self.profiles[i].clone());
                assert(profile_views(kept@) =~= profile_views(before).push(
                    self.profiles@[i as int]@,
                ));
            }
            i += 1;
        }
        assert(all.take(all.len() as int) =~= all);
        self.profiles = kept;
        found
    }
}

// ---------------------------------------------------------------------------
// Exclusions
// ---------------------------------------------------------------------------

/// A list of texts with one more, if it is not there yet.
pub open spec fn with_text(list: Seq<Seq<char>>, text: Seq<char>) -> Seq<Seq<char>> {
    if list.contains(text) {
        list
    } else {
        list.push(text)
    }
}

/// A list of texts without one.
pub open spec fn without_text(list: Seq<Seq<char>>, text: Seq<char>) -> Seq<Seq<char>>
    decreases list.len(),
{
    if list.len() == 0 {
        Seq::empty()
    } else if list.last() == text {
        without_text(list.drop_last(), text)
    } else {
        without_text(list.drop_last(), text).push(list.last())
    }
}

/// Add a text to a list, if it is not there yet.
fn add_text(list: &mut Vec<String>, text: &str)
    ensures
        texts(final(list)@) == with_text(texts(old(list)@), text@),
{
    let ghost before = list@;
    let known = contains_text(list, text);
    proof {
        if known {
            let i = choose|i: int| 0 <= i < before.len() && (#[trigger] before[i])@ == text@;
            assert(texts(before)[i] == text@);
        } else if texts(before).contains(text@) {
            let i = choose|i: int| 0 <= i < texts(before).len() && texts(before)[i] == text@;
            assert(before[i]@ == text@);
        }
    }
    if !known {
        list.push(text.to_string());
        assert(texts(list@) =~= texts(before).push(text@));
    }
}

/// Remove a text from a list.
fn remove_text(list: &Vec<String>, text: &str) -> (r: Vec<String>)
    ensures
        texts(r@) == without_text(texts(list@), text@),
{
    let ghost all = texts(list@);
    let mut out: Vec<String> = Vec::new();
    let mut i: usize = 0;
    assert(texts(out@) =~= without_text(all.take(0), text@));
    while i < list.len()
        invariant
            i <= list.len(),
            all == texts(list@),
            texts(out@) == without_text(all.take(i as int), text@),
        decreases list.len() - i,
    {
        let ghost before = out@;
        assert(all.take(i + 1).drop_last() =~= all.take(i as int));
        assert(all.take(i + 1).last() == list@[i as int]@);
        if *list[i].as_str() != *text {
            out.push(list[i].clone());
            assert(texts(out@) =~= texts(before).push(list@[i as int]@));
        }
        i += 1;
    }
    assert(all.take(all.len() as int) =~= all);
    out
}

/// A list of paths with one more, if it is not there yet.
pub open spec fn with_path(list: Seq<Seq<PartView>>, path: Seq<PartView>) -> Seq<Seq<PartView>> {
    if list.contains(path) {
        list
    } else {
        list.push(path)
    }
}

/// A list of paths without one.
pub open spec fn without_path(list: Seq<Seq<PartView>>, path: Seq<PartView>) -> Seq<Seq<PartView>>
    decreases list.len(),
{
    if list.len() == 0 {
        Seq::empty()
    } else if list.last() == path {
        without_path(list.drop_last(), path)
    } else {
        without_path(list.drop_last(), path).push(list.last())
    }
}

/// Add a path to a list, if it is not there yet.
fn add_path(list: &mut Vec<FsPath>, path: FsPath)
    ensures
        paths(final(list)@) == with_path(paths(old(list)@), path@),
{
    let ghost before = list@;
    let ghost shown = path@;
    let known = contains_path(list, &path);
    proof {
        if known {
            let i = choose|i: int| 0 <= i < before.len() && (#[trigger] before[i])@ == shown;
            assert(paths(before)[i] == shown);
        } else if paths(before).contains(shown) {
            let i = choose|i: int| 0 <= i < paths(before).len() && paths(before)[i] == shown;
            assert(before[i]@ == shown);
        }
    }
    if !known {
        list.push(path);
        assert(paths(list@) =~= paths(before).push(shown));
    }
}

/// Remove a path from a list.
fn remove_path(list: &Vec<FsPath>, path: &FsPath) -> (r: Vec<FsPath>)
    ensures
        paths(r@) == without_path(paths(list@), path@),
{
    let ghost all = paths(list@);
    let mut out: Vec<FsPath> = Vec::new();
    let mut i: usize = 0;
    assert(paths(out@) =~= without_path(all.take(0), path@));
    while i < list.len()
        invariant
            i <= list.len(),
            all == paths(list@),
            paths(out@) == without_path(all.take(i as int), path@),
        decreases list.len() - i,
    {
        let ghost before = out@;
        assert(all.take(i + 1).drop_last() =~= all.take(i as int));
        assert(all.take(i + 1).last() == list@[i as int]@);
        if !paths_equal(&list[i], path) {
            out.push(list[i].clone());
            assert(paths(out@) =~= paths(before).push(list@[i as int]@));
        }
        i += 1;
    }
    assert(all.take(all.len() as int) =~= all);
    out
}

/// Where an exclusion is kept: with everything, or with one profile.
#[derive(Debug)]
pub enum Scope {
    Global,
    Profile(String),
}

/// A change to the exclusions of one scope.
pub enum Change {
    AddRule(Seq<char>),
    RemoveRule(Seq<char>),
    AddPath(Seq<PartView>),
    RemovePath(Seq<PartView>),
}

/// The excluded rules after a change.
pub open spec fn changed_rules(rules: Seq<Seq<char>>, change: Change) -> Seq<Seq<char>> {
    match change {
        Change::AddRule(rule) => with_text(rules, rule),
        Change::RemoveRule(rule) => without_text(rules, rule),
        _ => rules,
    }
}

/// The excluded paths after a change.
pub open spec fn changed_paths(excluded: Seq<Seq<PartView>>, change: Change) -> Seq<Seq<PartView>> {
    match change {
        Change::AddPath(path) => with_path(excluded, path),
        Change::RemovePath(path) => without_path(excluded, path),
        _ => excluded,
    }
}

/// Whether the scope of a change is there.
pub open spec fn scope_exists(config: Config, scope: Scope) -> bool {
    match scope {
        Scope::Global => true,
        Scope::Profile(id) => has_profile(config.profiles@, id@),
    }
}

/// Whether `after` is `before` with one change made in a scope, and nothing else.
pub open spec fn exclusion_changed(
    before: Config,
    after: Config,
    scope: Scope,
    change: Change,
) -> bool {
    &&& after.access == before.access
    &&& after.seen_onboarding == before.seen_onboarding
    &&& after.auto_update == before.auto_update
    &&& after.support_prompt_at == before.support_prompt_at
    &&& after.support_prompt_disabled == before.support_prompt_disabled
    &&& after.last_profile_id == before.last_profile_id
    &&& match scope {
        Scope::Global => {
            &&& after.profiles == before.profiles
            &&& texts(after.global_excluded_rules@) == changed_rules(
                texts(before.global_excluded_rules@),
                change,
            )
            &&& paths(after.global_excluded_paths@) == changed_paths(
                paths(before.global_excluded_paths@),
                change,
            )
        },
        Scope::Profile(id) => {
            &&& after.global_excluded_rules == before.global_excluded_rules
            &&& after.global_excluded_paths == before.global_excluded_paths
            &&& exists|i: int|
                #[trigger] profile_at(before.profiles@, id@, i) && profile_views(after.profiles@)
                    == profile_views(before.profiles@).update(
                    i,
                    changed_profile(before.profiles@[i]@, change),
                )
        },
    }
}

/// A profile after a change to its exclusions.
pub open spec fn changed_profile(profile: ScanProfileView, change: Change) -> ScanProfileView {
    ScanProfileView {
        excluded_paths: changed_paths(profile.excluded_paths, change),
        excluded_rules: changed_rules(profile.excluded_rules, change),
        ..profile
    }
}

impl Config {
    /// Exclude a rule. Its id must not be blank.
    pub fn add_rule(&mut self, rule_id: &str, scope: &Scope) -> (r: Result<(), String>)
        ensures
            (match r {
                Ok(_) => !blank(rule_id@) && scope_exists(*old(self), *scope)
                    && exclusion_changed(
                    *old(self),
                    *final(self),
                    *scope,
                    Change::AddRule(rule_id@),
                ),
                Err(why) => *final(self) == *old(self) && if blank(rule_id@) {
                    why@ == "rule id cannot be empty"@
                } else {
                    !scope_exists(*old(self), *scope) && why@ == "profile not found"@
                },
            }),
    {
        if is_blank(rule_id) {
            return Err("rule id cannot be empty".to_string());
        }
        let ghost before = *self;
        match scope {
            Scope::Global => {
                add_text(&mut self.global_excluded_rules, rule_id);
            },
            Scope::Profile(id) => match find_profile(&self.profiles, id.as_str()) {
                Some(i) => {
                    add_text(&mut self.profiles[i].excluded_rules, rule_id);
                    proof {
                        lemma_profile_changed(before, *self, id@, i as int, Change::AddRule(rule_id@));
                    }
                },
                None => {
                    return Err("profile not found".to_string());
                },
            },
        }
        Ok(())
    }

    /// Exclude a rule no longer.
    pub fn remove_rule(&mut self, rule_id: &str, scope: &Scope) -> (r: Result<(), String>)
        ensures
            (match r {
                Ok(_) => scope_exists(*old(self), *scope) && exclusion_changed(
                    *old(self),
                    *final(self),
                    *scope,
                    Change::RemoveRule(rule_id@),
                ),
                Err(why) => *final(self) == *old(self) && !scope_exists(*old(self), *scope)
                    && why@ == "profile not found"@,
            }),
    {
        let ghost before = *self;
        match scope {
            Scope::Global => {
                self.global_excluded_rules = remove_text(&self.global_excluded_rules, rule_id);
            },
            Scope::Profile(id) => match find_profile(&self.profiles, id.as_str()) {
                Some(i) => {
                    let rules = remove_text(&self.profiles[i].excluded_rules, rule_id);
                    self.profiles[i].excluded_rules = rules;
                    proof {
                        lemma_profile_changed(
                            before,
                            *self,
                            id@,
                            i as int,
                            Change::RemoveRule(rule_id@),
                        );
                    }
                },
                None => {
                    return Err("profile not found".to_string());
                },
            },
        }
        Ok(())
    }

    /// Exclude a path everywhere. It must be absolute.
    pub fn add_global_path(&mut self, path: &FsPath, platform: Platform) -> (r: Result<(), String>)
        ensures
            (match r {
                Ok(_) => absolute(path@, platform) && exclusion_changed(
                    *old(self),
                    *final(self),
                    Scope::Global,
                    Change::AddPath(resolved(path@)),
                ),
                Err(why) => *final(self) == *old(self) && !absolute(path@, platform) && why@
                    == "path must be absolute"@,
            }),
    {
        match normalize_absolute(path, platform) {
            Ok(path) => {
                add_path(&mut self.global_excluded_paths, path);
                Ok(())
            },
            Err(why) => Err(why),
        }
    }

    /// Exclude a path in one profile. It must be absolute.
    pub fn add_profile_path(&mut self, id: &str, path: &FsPath, platform: Platform) -> (r: Result<
        (),
        String,
    >)
        ensures
            (match r {
                Ok(_) => absolute(path@, platform) && has_profile(old(self).profiles@, id@)
                    && profile_changed(
                    *old(self),
                    *final(self),
                    id@,
                    Change::AddPath(resolved(path@)),
                ),
                Err(why) => *final(self) == *old(self) && if !absolute(path@, platform) {
                    why@ == "path must be absolute"@
                } else {
                    !has_profile(old(self).profiles@, id@) && why@ == "profile not found"@
                },
            }),
    {
        let ghost before = *self;
        let path = match normalize_absolute(path, platform) {
            Ok(path) => path,
            Err(why) => {
                return Err(why);
            },
        };
        let ghost shown = path@;
        match find_profile(&self.profiles, id) {
            Some(i) => {
                add_path(&mut self.profiles[i].excluded_paths, path);
                proof {
                    lemma_profile_changed(before, *self, id@, i as int, Change::AddPath(shown));
                }
                Ok(())
            },
            None => Err("profile not found".to_string()),
        }
    }

    /// Exclude a path no longer. It must be absolute.
    pub fn remove_path(&mut self, path: &FsPath, scope: &Scope, platform: Platform) -> (r: Result<
        (),
        String,
    >)
        ensures
            (match r {
                Ok(_) => absolute(path@, platform) && scope_exists(*old(self), *scope)
                    && exclusion_changed(
                    *old(self),
                    *final(self),
                    *scope,
                    Change::RemovePath(resolved(path@)),
                ),
                Err(why) => *final(self) == *old(self) && if !absolute(path@, platform) {
                    why@ == "path must be absolute"@
                } else {
                    !scope_exists(*old(self), *scope) && why@ == "profile not found"@
                },
            }),
    {
        let ghost before = *self;
        let path = match normalize_absolute(path, platform) {
            Ok(path) => path,
            Err(why) => {
                return Err(why);
            },
        };
        match scope {
            Scope::Global => {
                self.global_excluded_paths = remove_path(&self.global_excluded_paths, &path);
            },
            Scope::Profile(id) => match find_profile(&self.profiles, id.as_str()) {
                Some(i) => {
                    let excluded = remove_path(&self.profiles[i].excluded_paths, &path);
                    self.profiles[i].excluded_paths = excluded;
                    proof {
                        lemma_profile_changed(
                            before,
                            *self,
                            id@,
                            i as int,
                            Change::RemovePath(path@),
                        );
                    }
                },
                None => {
                    return Err("profile not found".to_string());
                },
            },
        }
        Ok(())
    }
}

/// Whether `after` is `before` with one change made in a profile, and nothing
/// else.
pub open spec fn profile_changed(
    before: Config,
    after: Config,
    id: Seq<char>,
    change: Change,
) -> bool {
    &&& after.same_besides_profiles(before)
    &&& exists|i: int|
        #[trigger] profile_at(before.profiles@, id, i) && profile_views(after.profiles@)
            == profile_views(before.profiles@).update(
            i,
            changed_profile(before.profiles@[i]@, change),
        )
}

proof fn lemma_profile_changed(before: Config, after: Config, id: Seq<char>, i: int, change: Change)
    requires
        profile_at(before.profiles@, id, i),
        after.profiles@.len() == before.profiles@.len(),
        after.profiles@ == before.profiles@.update(i, after.profiles@[i]),
        after.profiles@[i]@ == changed_profile(before.profiles@[i]@, change),
    ensures
        has_profile(before.profiles@, id),
        exists|k: int|
            #[trigger] profile_at(before.profiles@, id, k) && profile_views(after.profiles@)
                == profile_views(before.profiles@).update(
                k,
                changed_profile(before.profiles@[k]@, change),
            ),
{
    assert(before.profiles@[i].id@ == id);
    assert(profile_views(after.profiles@) =~= profile_views(before.profiles@).update(
        i,
        changed_profile(before.profiles@[i]@, change),
    ));
}

// ---------------------------------------------------------------------------
// What the configuration promises
// ---------------------------------------------------------------------------

/// What is remembered about a gate is what was recorded last, and recording it
/// changes nothing that is remembered about other gates.
pub proof fn law_record_is_remembered(
    before: Config,
    after: Config,
    id: Seq<char>,
    state: AccessState,
    other: Seq<char>,
)
    requires
        after.known() == before.known().insert(id, state),
    ensures
        after.heard(id) == state,
        other != id ==> after.heard(other) == before.heard(other),
{
}

/// While a configuration is saved, the old one stays in place until the new one
/// is complete beside it: every step that touches the target comes after the
/// write, and the target is only ever replaced by the finished file.
pub proof fn law_save_never_truncates(path: Seq<PartView>, platform: Platform)
    ensures
        ({
            let plan = save_plan(path, platform);
            let temporary = with_extension(path, "json.tmp"@);
            &&& plan.len() >= 2
            &&& plan.last() == SaveStepView::Rename(temporary, path)
            &&& exists|w: int|
                {
                    &&& 0 <= w < plan.len() - 1
                    &&& #[trigger] plan[w] == SaveStepView::Write(temporary)
                    &&& forall|k: int|
                        0 <= k < w ==> (#[trigger] plan[k] is CreateDir)
                    &&& forall|k: int|
                        w < k < plan.len() - 1 ==> #[trigger] plan[k]
                            == SaveStepView::RemoveIfThere(path)
                }
        }),
{
    let plan = save_plan(path, platform);
    let w: int = if parent_path(path) is Some {
        1
    } else {
        0
    };
    assert(plan[w] == SaveStepView::Write(with_extension(path, "json.tmp"@)));
}

/// The configuration sits beside the receipts.
pub proof fn law_config_sits_beside_the_receipts(home: Seq<PartView>)
    ensures
        parent_path(config_place(home)) == Some(child_path(home, ".cachereaper"@)),
{
    assert(config_place(home).drop_last() =~= child_path(home, ".cachereaper"@));
}

/// A resolved path holds no `.` and, below a root, no `..`; resolving it again
/// changes nothing.
pub proof fn law_resolving_is_idempotent(path: Seq<PartView>)
    ensures
        forall|i: int|
            0 <= i < resolved(path).len() ==> !(#[trigger] resolved(path)[i] is Current) && !(
            resolved(path)[i] is Parent),
        resolved(resolved(path)) == resolved(path),
    decreases path.len(),
{
    if path.len() > 0 {
        law_resolving_is_idempotent(path.drop_last());
        let front = resolved(path.drop_last());
        let all = resolved(path);
        assert forall|i: int| 0 <= i < all.len() implies !(#[trigger] all[i] is Current) && !(
        all[i] is Parent) by {
            if i < front.len() {
                assert(all[i] == front[i]);
            }
        }
        lemma_resolved_stays(all);
    } else {
        lemma_resolved_stays(resolved(path));
    }
}

/// Resolving an absolute path gives an absolute path.
pub proof fn law_resolving_stays_absolute(path: Seq<PartView>, platform: Platform)
    requires
        absolute(path, platform),
    ensures
        absolute(resolved(path), platform),
    decreases path.len(),
{
    let front = path.drop_last();
    let floor: int = if platform is Windows {
        2
    } else {
        1
    };
    if path.len() > floor {
        assert(front[0] == path[0]);
        assert(platform is Windows ==> front[1] == path[1]);
        law_resolving_stays_absolute(front, platform);
    } else {
        let nothing = path.take(0);
        assert(resolved(nothing) =~= Seq::empty());
        assert(path.take(1).drop_last() =~= nothing);
        assert(path.take(1).last() == path[0]);
        assert(resolved(path.take(1)) =~= seq![path[0]]);
        if platform is Windows {
            assert(front =~= path.take(1));
            assert(resolved(path) =~= seq![path[0], path[1]]);
        } else {
            assert(path =~= path.take(1));
        }
    }
}

proof fn lemma_resolved_stays(path: Seq<PartView>)
    requires
        forall|i: int|
            0 <= i < path.len() ==> !(#[trigger] path[i] is Current) && !(path[i] is Parent),
    ensures
        resolved(path) == path,
    decreases path.len(),
{
    if path.len() > 0 {
        let front = path.drop_last();
        assert forall|i: int| 0 <= i < front.len() implies !(#[trigger] front[i] is Current) && !(
        front[i] is Parent) by {
            assert(front[i] == path[i]);
        }
        lemma_resolved_stays(front);
        assert(!(path[path.len() - 1] is Current) && !(path[path.len() - 1] is Parent));
        assert(front.push(path.last()) =~= path);
    } else {
        assert(resolved(path) =~= path);
    }
}

// ---------------------------------------------------------------------------
// What is kept, and what a change does to it
// ---------------------------------------------------------------------------

/// What we last heard about a gate is what its record says, and nothing where it has
/// none.
pub proof fn law_answers_are_the_records(config: Config, i: int, id: Seq<char>)
    requires
        config.wf(),
    ensures
        0 <= i < config.access@.len() ==> config.heard(config.access@[i].id@)
            == config.access@[i].state,
        (forall|k: int| 0 <= k < config.access@.len() ==> (#[trigger] config.access@[k]).id@ != id)
            ==> config.heard(id) is Unknown,
{
    lemma_records(config.access@, i, id);
}

proof fn lemma_records(list: Seq<AccessRecord>, i: int, id: Seq<char>)
    requires
        recorded_once(list),
    ensures
        0 <= i < list.len() ==> answers(list).contains_key(list[i].id@) && answers(
            list,
        )[list[i].id@] == list[i].state,
        (forall|k: int| 0 <= k < list.len() ==> (#[trigger] list[k]).id@ != id) ==> !answers(
            list,
        ).contains_key(id),
    decreases list.len(),
{
    if list.len() > 0 {
        let front = list.drop_last();
        assert forall|a: int, b: int| 0 <= a < b < front.len() implies (#[trigger] front[a]).id@
            != (#[trigger] front[b]).id@ by {
            assert(list[a].id@ != list[b].id@);
        }
        lemma_records(front, i, id);
        if 0 <= i < front.len() {
            assert(list[i].id@ != list[list.len() - 1].id@);
            assert(front[i] == list[i]);
        }
        if forall|k: int| 0 <= k < list.len() ==> (#[trigger] list[k]).id@ != id {
            assert forall|k: int| 0 <= k < front.len() implies (#[trigger] front[k]).id@ != id by {
                assert(list[k].id@ != id);
            }
            assert(list[list.len() - 1].id@ != id);
        }
    }
}

/// Adding to a list puts something behind what is there, unless it is there already.
pub proof fn law_adding_adds_once(list: Seq<Seq<char>>, text: Seq<char>, other: Seq<char>)
    ensures
        with_text(list, text).contains(other) <==> list.contains(other) || other == text,
        list.is_prefix_of(with_text(list, text)),
        with_text(with_text(list, text), text) == with_text(list, text),
        with_text(list, text).len() <= list.len() + 1,
{
    let more = with_text(list, text);
    assert(list =~= more.subrange(0, list.len() as int));
    if !list.contains(text) {
        assert(more[list.len() as int] == text);
        if list.contains(other) {
            let k = choose|k: int| 0 <= k < list.len() && list[k] == other;
            assert(more[k] == other);
        }
        if more.contains(other) && other != text {
            let k = choose|k: int| 0 <= k < more.len() && more[k] == other;
            assert(list[k] == other);
        }
        assert(more.contains(text));
    }
}

/// Removing from a list takes out what is named, wherever it stands, and leaves the
/// rest in its order.
pub proof fn law_removing_removes_only_that(
    list: Seq<Seq<char>>,
    last: Seq<char>,
    text: Seq<char>,
)
    ensures
        without_text(Seq::empty(), text).len() == 0,
        last == text ==> without_text(list.push(last), text) == without_text(list, text),
        last != text ==> without_text(list.push(last), text) == without_text(list, text).push(last),
        !without_text(list, text).contains(text),
    decreases list.len(),
{
    assert(list.push(last).drop_last() =~= list);
    if list.len() > 0 {
        law_removing_removes_only_that(list.drop_last(), last, text);
        let front = without_text(list.drop_last(), text);
        if without_text(list, text).contains(text) {
            let k = choose|k: int|
                0 <= k < without_text(list, text).len() && without_text(list, text)[k] == text;
            if k < front.len() {
                assert(front[k] == text);
            }
        }
    }
}

proof fn lemma_without_text(list: Seq<Seq<char>>, text: Seq<char>, other: Seq<char>)
    ensures
        without_text(list, text).contains(other) <==> list.contains(other) && other != text,
    decreases list.len(),
{
    if list.len() > 0 {
        let front = list.drop_last();
        lemma_without_text(front, text, other);
        let before = without_text(front, text);
        let all = without_text(list, text);
        if list.contains(other) && other != list.last() {
            let k = choose|k: int| 0 <= k < list.len() && list[k] == other;
            assert(front[k] == other);
        }
        if front.contains(other) {
            let k = choose|k: int| 0 <= k < front.len() && front[k] == other;
            assert(list[k] == other);
        }
        if before.contains(other) {
            let k = choose|k: int| 0 <= k < before.len() && before[k] == other;
            assert(all[k] == other);
        }
        if list.last() != text {
            assert(all[before.len() as int] == list.last());
        }
        assert(list[list.len() - 1] == list.last());
        if all.contains(other) {
            let k = choose|k: int| 0 <= k < all.len() && all[k] == other;
            if k < before.len() {
                assert(before[k] == other);
            }
        }
    }
}

/// The same of paths: added once, removed alone.
pub proof fn law_paths_are_added_and_removed(
    list: Seq<Seq<PartView>>,
    path: Seq<PartView>,
    other: Seq<PartView>,
)
    ensures
        with_path(list, path).contains(other) <==> list.contains(other) || other == path,
        list.is_prefix_of(with_path(list, path)),
        with_path(list, path).len() <= list.len() + 1,
        without_path(list, path).contains(other) <==> list.contains(other) && other != path,
        without_path(list, path).len() <= list.len(),
        !list.contains(path) ==> without_path(list, path) == list,
    decreases list.len(),
{
    let more = with_path(list, path);
    assert(list =~= more.subrange(0, list.len() as int));
    if !list.contains(path) {
        assert(more[list.len() as int] == path);
        if list.contains(other) {
            let k = choose|k: int| 0 <= k < list.len() && list[k] == other;
            assert(more[k] == other);
        }
        if more.contains(other) && other != path {
            let k = choose|k: int| 0 <= k < more.len() && more[k] == other;
            assert(list[k] == other);
        }
        assert(more.contains(path));
    }
    if list.len() > 0 {
        let front = list.drop_last();
        law_paths_are_added_and_removed(front, path, other);
        let before = without_path(front, path);
        let all = without_path(list, path);
        assert(list[list.len() - 1] == list.last());
        assert(list =~= front.push(list.last()));
        if list.contains(other) && other != list.last() {
            let k = choose|k: int| 0 <= k < list.len() && list[k] == other;
            assert(front[k] == other);
        }
        if front.contains(other) {
            let k = choose|k: int| 0 <= k < front.len() && front[k] == other;
            assert(list[k] == other);
        }
        if before.contains(other) {
            let k = choose|k: int| 0 <= k < before.len() && before[k] == other;
            assert(all[k] == other);
        }
        if list.last() != path {
            assert(all[before.len() as int] == list.last());
        }
        if all.contains(other) {
            let k = choose|k: int| 0 <= k < all.len() && all[k] == other;
            if k < before.len() {
                assert(before[k] == other);
            }
        }
        if front.contains(path) {
            let k = choose|k: int| 0 <= k < front.len() && front[k] == path;
            assert(list[k] == path);
        }
    }
}

/// What a change to the exclusions of everything does: a rule or path that is added
/// is there, one that is removed is not, and nothing else has come or gone.
pub proof fn law_global_changes_do_what_they_say(
    before: Config,
    after: Config,
    change: Change,
    rule: Seq<char>,
    path: Seq<PartView>,
)
    requires
        exclusion_changed(before, after, Scope::Global, change),
    ensures
        ({
            let rules = texts(before.global_excluded_rules@);
            let left_out = paths(before.global_excluded_paths@);
            let rules_now = texts(after.global_excluded_rules@);
            let left_out_now = paths(after.global_excluded_paths@);
            &&& change is AddRule ==> (rules_now.contains(rule) <==> rules.contains(rule) || rule
                == change->AddRule_0) && left_out_now == left_out
            &&& change is RemoveRule ==> (rules_now.contains(rule) <==> rules.contains(rule) && rule
                != change->RemoveRule_0) && left_out_now == left_out
            &&& change is AddPath ==> (left_out_now.contains(path) <==> left_out.contains(path)
                || path == change->AddPath_0) && rules_now == rules
            &&& change is RemovePath ==> (left_out_now.contains(path) <==> left_out.contains(path)
                && path != change->RemovePath_0) && rules_now == rules
            &&& after.profiles == before.profiles
            &&& after.access == before.access
            &&& after.last_profile_id == before.last_profile_id
        }),
{
    let rules = texts(before.global_excluded_rules@);
    let left_out = paths(before.global_excluded_paths@);
    match change {
        Change::AddRule(text) => {
            law_adding_adds_once(rules, text, rule);
        },
        Change::RemoveRule(text) => {
            lemma_without_text(rules, text, rule);
        },
        Change::AddPath(gone) => {
            law_paths_are_added_and_removed(left_out, gone, path);
        },
        Change::RemovePath(gone) => {
            law_paths_are_added_and_removed(left_out, gone, path);
        },
    }
}

/// What a change to the exclusions of a profile does: the same, in that profile
/// alone.
pub proof fn law_profile_changes_do_what_they_say(
    before: Config,
    after: Config,
    id: Seq<char>,
    change: Change,
    rule: Seq<char>,
    path: Seq<PartView>,
    other: int,
) -> (i: int)
    requires
        profile_changed(before, after, id, change),
    ensures
        profile_at(before.profiles@, id, i),
        after.profiles@.len() == before.profiles@.len(),
        0 <= other < before.profiles@.len() && other != i ==> after.profiles@[other]@
            == before.profiles@[other]@,
        after.global_excluded_rules == before.global_excluded_rules,
        after.global_excluded_paths == before.global_excluded_paths,
        ({
            let was = before.profiles@[i]@;
            let now = after.profiles@[i]@;
            &&& now.id == was.id
            &&& now.name == was.name
            &&& now.root == was.root
            &&& change is AddRule ==> (now.excluded_rules.contains(rule)
                <==> was.excluded_rules.contains(rule) || rule == change->AddRule_0)
                && now.excluded_paths == was.excluded_paths
            &&& change is RemoveRule ==> (now.excluded_rules.contains(rule)
                <==> was.excluded_rules.contains(rule) && rule != change->RemoveRule_0)
                && now.excluded_paths == was.excluded_paths
            &&& change is AddPath ==> (now.excluded_paths.contains(path)
                <==> was.excluded_paths.contains(path) || path == change->AddPath_0)
                && now.excluded_rules == was.excluded_rules
            &&& change is RemovePath ==> (now.excluded_paths.contains(path)
                <==> was.excluded_paths.contains(path) && path != change->RemovePath_0)
                && now.excluded_rules == was.excluded_rules
        }),
{
    let i = choose|i: int|
        #[trigger] profile_at(before.profiles@, id, i) && profile_views(after.profiles@)
            == profile_views(before.profiles@).update(
            i,
            changed_profile(before.profiles@[i]@, change),
        );
    let was = before.profiles@[i]@;
    let all = profile_views(before.profiles@);
    let now = profile_views(after.profiles@);
    assert(now.len() == all.len() && now.len() == after.profiles@.len());
    assert(now[i] == after.profiles@[i]@);
    if 0 <= other < all.len() && other != i {
        assert(now[other] == after.profiles@[other]@);
        assert(all[other] == before.profiles@[other]@);
    }
    match change {
        Change::AddRule(text) => {
            law_adding_adds_once(was.excluded_rules, text, rule);
        },
        Change::RemoveRule(text) => {
            lemma_without_text(was.excluded_rules, text, rule);
        },
        Change::AddPath(gone) => {
            law_paths_are_added_and_removed(was.excluded_paths, gone, path);
        },
        Change::RemovePath(gone) => {
            law_paths_are_added_and_removed(was.excluded_paths, gone, path);
        },
    }
    i
}

/// A change named for a profile is a change to that profile.
pub proof fn law_scopes_are_kept_to(
    before: Config,
    after: Config,
    id: String,
    change: Change,
)
    ensures
        exclusion_changed(before, after, Scope::Profile(id), change) <==> profile_changed(
            before,
            after,
            id@,
            change,
        ),
        scope_exists(before, Scope::Global),
        scope_exists(before, Scope::Profile(id)) <==> exists|i: int|
            0 <= i < before.profiles@.len() && (#[trigger] before.profiles@[i]).id@ == id@,
{
    let all = profile_views(before.profiles@);
    let now = profile_views(after.profiles@);
    if profile_changed(before, after, id@, change) {
        let i = choose|i: int|
            #[trigger] profile_at(before.profiles@, id@, i) && now == all.update(
                i,
                changed_profile(before.profiles@[i]@, change),
            );
        assert(profile_at(before.profiles@, id@, i) && now == all.update(
            i,
            changed_profile(before.profiles@[i]@, change),
        ));
        let scope = Scope::Profile(id);
        assert(scope->Profile_0 == id);
        assert(exists|i: int|
            #[trigger] profile_at(before.profiles@, scope->Profile_0@, i) && profile_views(
                after.profiles@,
            ) == profile_views(before.profiles@).update(
                i,
                changed_profile(before.profiles@[i]@, change),
            ));
        assert(after.global_excluded_rules == before.global_excluded_rules);
        assert(exclusion_changed(before, after, scope, change));
    }
    if exclusion_changed(before, after, Scope::Profile(id), change) {
        let i = choose|i: int|
            #[trigger] profile_at(before.profiles@, id@, i) && now == all.update(
                i,
                changed_profile(before.profiles@[i]@, change),
            );
        assert(profile_at(before.profiles@, id@, i) && now == all.update(
            i,
            changed_profile(before.profiles@[i]@, change),
        ));
        assert(after.same_besides_profiles(before));
        assert(profile_changed(before, after, id@, change));
    }
}

/// Deleting a profile takes out every profile of its id and leaves the others, in
/// their order.
pub proof fn law_deleting_takes_only_that_profile(
    profiles: Seq<ScanProfileView>,
    last: ScanProfileView,
    id: Seq<char>,
)
    ensures
        profiles_without(Seq::empty(), id).len() == 0,
        last.id == id ==> profiles_without(profiles.push(last), id) == profiles_without(
            profiles,
            id,
        ),
        last.id != id ==> profiles_without(profiles.push(last), id) == profiles_without(
            profiles,
            id,
        ).push(last),
{
    assert(profiles.push(last).drop_last() =~= profiles);
}

/// An id leads to the first profile that has it.
pub proof fn law_profiles_are_found_by_id(
    profiles: Seq<ScanProfile>,
    id: Seq<char>,
    i: int,
    j: int,
)
    requires
        0 <= i < profiles.len(),
        profiles[i].id@ == id,
        profile_at(profiles, id, j),
    ensures
        has_profile(profiles, id),
        0 <= j <= i,
        profiles[j].id@ == id,
{
    if i < j {
        assert(profiles[i].id@ != id);
    }
}

/// A path is resolved component by component: a name is gone down, `.` is nothing,
/// and `..` takes back the last name, but never a root.
pub proof fn law_paths_resolve_in_turn(path: Seq<PartView>, name: Seq<char>)
    ensures
        resolved(Seq::empty()).len() == 0,
        resolved(path.push(PartView::Normal(name))) == resolved(path).push(PartView::Normal(name)),
        resolved(path.push(PartView::Current)) == resolved(path),
        resolved(path.push(PartView::Root)) == resolved(path).push(PartView::Root),
        resolved(path.push(PartView::Prefix(name))) == resolved(path).push(PartView::Prefix(name)),
        resolved(path.push(PartView::Normal(name)).push(PartView::Parent)) == resolved(path),
        resolved(path).len() == 0 || !(resolved(path).last() is Normal) ==> resolved(
            path.push(PartView::Parent),
        ) == resolved(path),
{
    let down = path.push(PartView::Normal(name));
    assert(down.drop_last() =~= path);
    assert(path.push(PartView::Current).drop_last() =~= path);
    assert(path.push(PartView::Root).drop_last() =~= path);
    assert(path.push(PartView::Prefix(name)).drop_last() =~= path);
    assert(path.push(PartView::Parent).drop_last() =~= path);
    assert(down.push(PartView::Parent).drop_last() =~= down);
    assert(resolved(down).drop_last() =~= resolved(path));
}

/// The configuration is `.cachereaper/config.json` in home.
pub proof fn law_the_configuration_has_its_place(home: Seq<PartView>)
    ensures
        config_place(home) == home.push(PartView::Normal(".cachereaper"@)).push(
            PartView::Normal("config.json"@),
        ),
{
}

proof fn lemma_last_dot(name: Seq<char>, at: int)
    requires
        0 <= at < name.len(),
        name[at] == '.',
        forall|k: int| at < k < name.len() ==> name[k] != '.',
    ensures
        last_dot(name) == at,
    decreases name.len(),
{
    if at < name.len() - 1 {
        let front = name.drop_last();
        assert(name[name.len() - 1] != '.');
        lemma_last_dot(front, at);
    }
}

/// Giving a file another extension replaces what stands behind its last dot.
pub proof fn law_extensions_are_replaced(
    dir: Seq<PartView>,
    front: Seq<char>,
    old_end: Seq<char>,
    new_end: Seq<char>,
)
    requires
        front.len() > 0,
        !old_end.contains('.'),
    ensures
        with_extension(
            dir.push(PartView::Normal(front + seq!['.'] + old_end)),
            new_end,
        ) == dir.push(PartView::Normal(front + seq!['.'] + new_end)),
{
    reveal_strlit(".");
    assert("."@ =~= seq!['.']);
    let name = front + seq!['.'] + old_end;
    let n = front.len() as int;
    assert(name[n] == '.');
    assert forall|k: int| n < k < name.len() implies name[k] != '.' by {
        assert(name[k] == old_end[k - n - 1]);
        assert(old_end.contains(old_end[k - n - 1]));
    }
    lemma_last_dot(name, n);
    assert(name.subrange(0, n) =~= front);
    let path = dir.push(PartView::Normal(name));
    assert(path.drop_last() =~= dir);
    assert(path_name(path) == Some(name));
}

/// Saving makes the directory first, and clears the way for the new file only where
/// it would be in it.
pub proof fn law_saving_makes_its_directory(
    dir: Seq<PartView>,
    name: Seq<char>,
    platform: Platform,
)
    ensures
        ({
            let path = dir.push(PartView::Normal(name));
            let plan = save_plan(path, platform);
            let temporary = with_extension(path, "json.tmp"@);
            &&& plan[0] == SaveStepView::CreateDir(dir)
            &&& plan[1] == SaveStepView::Write(temporary)
            &&& platform is Windows ==> plan.len() == 4 && plan[2] == SaveStepView::RemoveIfThere(
                path,
            )
            &&& !(platform is Windows) ==> plan.len() == 3
            &&& plan.last() == SaveStepView::Rename(temporary, path)
        }),
{
    let path = dir.push(PartView::Normal(name));
    assert(path.drop_last() =~= dir);
    assert(parent_path(path) == Some(dir));
}

/// Remembering an answer or changing the profiles leaves everything else as it was.
pub proof fn law_other_settings_stay(before: Config, after: Config)
    ensures
        after.same_besides_access(before) || after.same_besides_profiles(before)
            ==> after.seen_onboarding == before.seen_onboarding && after.auto_update
            == before.auto_update && after.support_prompt_at == before.support_prompt_at
            && after.support_prompt_disabled == before.support_prompt_disabled
            && after.global_excluded_paths == before.global_excluded_paths
            && after.global_excluded_rules == before.global_excluded_rules && after.last_profile_id
            == before.last_profile_id,
        after.same_besides_access(before) ==> after.profiles == before.profiles,
        after.same_besides_profiles(before) ==> after.access == before.access,
{
}

} // verus!
