//! The guards every deletion has to pass.
//!
//! A path is refused for what it is made of, for how shallow it is, for being
//! home or the root, for not being what the scan recorded, for lying outside the
//! roots deletion is confined to, and for being gone or a symlink. The reasons
//! are part of the interface: they are shown, logged and compared.
use vstd::prelude::*;

use crate::path::{
    absolute, climbs, denotes, drive, law_spelling_denotes, part_text, separator, spelled, path_name, root_only, within, within_any, FsPath, Part, PartView,
    Platform,
};
use crate::text::{
    all_ascii, ascii_lower, ends_with, joined, lowercased, starts_with, texts, to_lowercase,
};

verus! {

// ---------------------------------------------------------------------------
// Names that are never touched
// ---------------------------------------------------------------------------

/// Path components that are never candidates and never deletable: version
/// control, keys, cloud storage and photo libraries.
pub open spec fn forbidden_part(name: Seq<char>) -> bool {
    ||| name == ".git"@
    ||| name == ".hg"@
    ||| name == ".svn"@
    ||| name == ".ssh"@
    ||| name == ".gnupg"@
    ||| name == "Keychains"@
    ||| name == "CloudStorage"@
    ||| name == "Mobile Documents"@
    ||| ".photoslibrary"@.is_suffix_of(name)
}

/// Whether a lowercased name is `hint`, alone or followed by a space or a hyphen.
pub open spec fn hint_matches(low: Seq<char>, hint: Seq<char>) -> bool {
    ||| low == hint
    ||| (hint + " "@).is_prefix_of(low)
    ||| (hint + "-"@).is_prefix_of(low)
}

/// Whether a lowercased name is that of a cloud-sync folder.
pub open spec fn cloud_name(low: Seq<char>) -> bool {
    ||| hint_matches(low, "onedrive"@)
    ||| hint_matches(low, "google drive"@)
    ||| hint_matches(low, "dropbox"@)
    ||| hint_matches(low, "icloud"@)
    ||| hint_matches(low, "creative cloud"@)
    ||| hint_matches(low, "pcloud"@)
    ||| hint_matches(low, "mega"@)
    ||| hint_matches(low, "megasync"@)
    ||| hint_matches(low, "sync.com"@)
    ||| hint_matches(low, "box sync"@)
    ||| hint_matches(low, "nextcloud"@)
}

/// A name in lowercase. What that is beyond ASCII is Unicode's to say.
pub open spec fn in_lowercase(name: Seq<char>) -> Seq<char> {
    if all_ascii(name) {
        name.map_values(|c: char| ascii_lower(c))
    } else {
        lowercased(name)
    }
}

/// Whether a name is that of a cloud-sync folder, whatever its case.
pub open spec fn cloud_dir(name: Seq<char>) -> bool {
    cloud_name(in_lowercase(name))
}

/// Whether a path component is never deletable.
pub fn is_forbidden_part(name: &str) -> (r: bool)
    ensures
        r == forbidden_part(name@),
{
    *name == *".git" || *name == *".hg" || *name == *".svn" || *name == *".ssh" || *name
        == *".gnupg" || *name == *"Keychains" || *name == *"CloudStorage" || *name
        == *"Mobile Documents" || ends_with(name, ".photoslibrary")
}

fn matches_hint(low: &str, hint: &str) -> (r: bool)
    ensures
        r == hint_matches(low@, hint@),
{
    *low == *hint || starts_with(low, joined(hint, " ").as_str()) || starts_with(
        low,
        joined(hint, "-").as_str(),
    )
}

/// Whether a lowercased name is that of a cloud-sync folder.
///
/// A bare prefix test would swallow any directory that merely starts with one of
/// these words, so a hint only matches at a name boundary.
pub fn is_cloud_name(low: &str) -> (r: bool)
    ensures
        r == cloud_name(low@),
{
    matches_hint(low, "onedrive") || matches_hint(low, "google drive") || matches_hint(
        low,
        "dropbox",
    ) || matches_hint(low, "icloud") || matches_hint(low, "creative cloud") || matches_hint(
        low,
        "pcloud",
    ) || matches_hint(low, "mega") || matches_hint(low, "megasync") || matches_hint(low, "sync.com")
        || matches_hint(low, "box sync") || matches_hint(low, "nextcloud")
}

/// True for "OneDrive - Acme" and "Google Drive", false for "megaproject".
pub fn looks_like_cloud_dir(name: &str) -> (r: bool)
    ensures
        r == cloud_dir(name@),
{
    is_cloud_name(to_lowercase(name).as_str())
}

// ---------------------------------------------------------------------------
// Protected paths
// ---------------------------------------------------------------------------

/// The components of a path that count, as text: all but `.`.
pub open spec fn shown_parts(path: Seq<PartView>) -> Seq<Seq<char>>
    decreases path.len(),
{
    if path.len() == 0 {
        Seq::empty()
    } else if path.last() is Current {
        shown_parts(path.drop_last())
    } else {
        shown_parts(path.drop_last()).push(part_text(path.last()))
    }
}

/// Why a component must not be touched, if it must not.
pub open spec fn part_refusal(name: Seq<char>) -> Option<Seq<char>> {
    if forbidden_part(name) {
        Some("protected component: "@ + name)
    } else if cloud_dir(name) {
        Some("cloud-sync folder: "@ + name)
    } else {
        None
    }
}

/// What the first component that must not be touched is refused for.
pub open spec fn first_refusal(parts: Seq<Seq<char>>) -> Option<Seq<char>>
    decreases parts.len(),
{
    if parts.len() == 0 {
        None
    } else if part_refusal(parts[0]) is Some {
        part_refusal(parts[0])
    } else {
        first_refusal(parts.drop_first())
    }
}

/// How many components a path needs before it is deep enough: two names below
/// the root, and a drive counts as one more.
pub open spec fn depth_floor(path: Seq<PartView>) -> nat {
    if path.len() > 0 && path[0] is Prefix {
        4
    } else {
        3
    }
}

/// Why a path must never be touched, or the empty text when nothing speaks
/// against it.
pub open spec fn protection(path: Seq<PartView>, home: Seq<PartView>) -> Seq<char> {
    let parts = shown_parts(path);
    match first_refusal(parts) {
        Some(reason) => reason,
        None => if parts.len() < depth_floor(path) {
            "path too shallow"@
        } else if path == home || path == root_only() {
            "refusing home/root"@
        } else {
            ""@
        },
    }
}

/// The components of a path that count, as text: all but `.`.
pub fn components(path: &FsPath) -> (r: Vec<String>)
    ensures
        texts(r@) == shown_parts(path@),
{
    let mut out: Vec<String> = Vec::new();
    let mut i: usize = 0;
    assert(texts(out@) =~= shown_parts(path@.take(0)));
    while i < path.parts.len()
        invariant
            i <= path.parts.len(),
            texts(out@) == shown_parts(path@.take(i as int)),
        decreases path.parts.len() - i,
    {
        let ghost before = out@;
        let ghost longer = path@.take(i + 1);
        assert(longer.drop_last() =~= path@.take(i as int));
        assert(longer.last() == path.parts@[i as int]@);
        match &path.parts[i] {
            Part::Current => {},
            _ => {
                out.push(path.parts[i].text());
                assert(texts(out@) =~= texts(before).push(part_text(longer.last())));
            },
        }
        i += 1;
    }
    assert(path@.take(path@.len() as int) == path@);
    out
}

/// Returns a reason when the path must never be touched, and the empty text when
/// it may be.
pub fn path_is_protected(path: &FsPath, home: &FsPath) -> (r: String)
    ensures
        r@ == protection(path@, home@),
{
    let parts = components(path);
    let ghost shown = texts(parts@);
    let mut i: usize = 0;
    assert(shown.subrange(0, shown.len() as int) == shown);
    while i < parts.len()
        invariant
            i <= parts.len(),
            shown == texts(parts@),
            shown == shown_parts(path@),
            first_refusal(shown) == first_refusal(shown.subrange(i as int, shown.len() as int)),
        decreases parts.len() - i,
    {
        let ghost rest = shown.subrange(i as int, shown.len() as int);
        assert(rest[0] == parts@[i as int]@);
        if is_forbidden_part(parts[i].as_str()) {
            return joined("protected component: ", parts[i].as_str());
        }
        if looks_like_cloud_dir(parts[i].as_str()) {
            return joined("cloud-sync folder: ", parts[i].as_str());
        }
        assert(rest.drop_first() == shown.subrange(i + 1, shown.len() as int));
        i += 1;
    }
    let floor: usize = if path.parts.len() == 0 {
        3
    } else {
        assert(path@[0] == path.parts@[0]@);
        match &path.parts[0] {
            Part::Prefix(_) => 4,
            _ => 3,
        }
    };
    assert(shown.len() == parts.len());
    if parts.len() < floor {
        return "path too shallow".to_string();
    }
    if path.same(home) || path.same(&FsPath::root()) {
        return "refusing home/root".to_string();
    }
    "".to_string()
}

/// Whether a path lies inside `root`, or is `root` itself.
pub fn is_within(path: &FsPath, root: &FsPath) -> (r: bool)
    ensures
        r == within(path@, root@),
{
    path.starts_with(root)
}

// ---------------------------------------------------------------------------
// Validation immediately before a deletion
// ---------------------------------------------------------------------------

/// A path selected for deletion, carried from scan time to delete time.
#[derive(Debug)]
pub struct Target {
    pub path: FsPath,
    pub rule_id: String,
    pub tier: String,
    /// the path as it was given, which is how it is shown and recorded
    pub shown: String,
    /// the name recorded at scan time; a mismatch means the tree moved under us
    pub expect_name: String,
    pub size: u64,
    pub label: String,
    pub regen: String,
}

/// How a target is shown: as it was given, as long as that is a way to write its
/// path.
pub open spec fn shown_as(target: Target, platform: Platform) -> Seq<char> {
    if denotes(target.shown@, target.path@, platform) {
        target.shown@
    } else {
        spelled(target.path@, separator(platform))
    }
}

/// Whether what a target is shown as is a way to write its path.
pub open spec fn well_shown(target: Target, platform: Platform) -> bool {
    denotes(target.shown@, target.path@, platform)
}

/// Whether a target is another one, shown so that its path can be told.
pub open spec fn shown_right(target: Target, given: Target, platform: Platform) -> bool {
    &&& target.path == given.path
    &&& target.rule_id == given.rule_id
    &&& target.tier == given.tier
    &&& target.expect_name == given.expect_name
    &&& target.size == given.size
    &&& target.label == given.label
    &&& target.regen == given.regen
    &&& target.shown@ == shown_as(given, platform)
}

/// See to it that targets are shown so that their paths can be told.
pub fn show_right(targets: Vec<Target>, platform: Platform) -> (r: Vec<Target>)
    ensures
        r@.len() == targets@.len(),
        forall|k: int|
            0 <= k < r@.len() ==> shown_right(#[trigger] r@[k], targets@[k], platform),
        forall|k: int| 0 <= k < r@.len() ==> well_shown(#[trigger] r@[k], platform),
{
    let ghost given = targets@;
    let mut targets = targets;
    let mut i: usize = 0;
    while i < targets.len()
        invariant
            i <= targets@.len() == given.len(),
            forall|k: int|
                0 <= k < i ==> shown_right(#[trigger] targets@[k], given[k], platform)
                    && well_shown(targets@[k], platform),
            forall|k: int| i <= k < targets@.len() ==> #[trigger] targets@[k] == given[k],
        decreases targets.len() - i,
    {
        if !targets[i].path.is_denoted_by(targets[i].shown.as_str(), platform) {
            let plain = targets[i].path.display(platform);
            proof {
                law_spelling_denotes(targets@[i as int].path@, platform);
            }
            targets[i].shown = plain;
        }
        i += 1;
    }
    targets
}

/// What stands at a path, without following a symlink.
#[derive(Debug, Clone, Copy, PartialEq, Eq, Structural)]
pub enum Entry {
    Missing,
    Symlink,
    Present,
}

/// The name a path ends in, or the empty text.
pub open spec fn name_or_empty(path: Seq<PartView>) -> Seq<char> {
    match path_name(path) {
        Some(name) => name,
        None => ""@,
    }
}

/// Why a target must not be deleted, or the empty text when it may be.
///
/// A path that climbs is taken for one outside: where `..` leads depends on what
/// stands in front of it, which may be a symlink.
pub open spec fn refusal(
    target: Target,
    allowed: Seq<FsPath>,
    home: Seq<PartView>,
    platform: Platform,
    entry: Entry,
) -> Seq<char> {
    let path = target.path@;
    if !absolute(path, platform) {
        "not absolute"@
    } else if protection(path, home) != ""@ {
        protection(path, home)
    } else if name_or_empty(path) != target.expect_name@ {
        "name changed since scan"@
    } else if climbs(path) || !within_any(path, allowed) {
        "outside allowed roots"@
    } else {
        match entry {
            Entry::Missing => "already gone"@,
            Entry::Symlink => "symlink"@,
            Entry::Present => ""@,
        }
    }
}

/// Re-validates a target immediately before deletion.
pub fn validate_for_delete(
    target: &Target,
    allowed_roots: &Vec<FsPath>,
    home: &FsPath,
    platform: Platform,
    entry: Entry,
) -> (r: String)
    ensures
        r@ == refusal(*target, allowed_roots@, home@, platform, entry),
{
    if !target.path.is_absolute(platform) {
        return "not absolute".to_string();
    }
    let reason = path_is_protected(&target.path, home);
    proof {
        reveal_strlit("");
        assert(""@ =~= Seq::<char>::empty());
        assert(reason@.len() == 0 ==> reason@ =~= ""@);
    }
    if !reason.as_str().is_empty() {
        return reason;
    }
    let name = match target.path.file_name() {
        Some(name) => name,
        None => "".to_string(),
    };
    if name != target.expect_name {
        return "name changed since scan".to_string();
    }
    if target.path.is_climbing() || !target.path.starts_with_any(allowed_roots) {
        return "outside allowed roots".to_string();
    }
    match entry {
        Entry::Missing => "already gone".to_string(),
        Entry::Symlink => "symlink".to_string(),
        Entry::Present => "".to_string(),
    }
}

// ---------------------------------------------------------------------------
// Home
// ---------------------------------------------------------------------------

/// The environment variables that say where home is.
#[derive(Debug)]
pub struct HomeVars {
    pub home: Option<String>,
    pub user_profile: Option<String>,
    pub home_drive: Option<String>,
    pub home_path: Option<String>,
}

/// Whether a variable is set to something.
pub open spec fn filled(var: Option<String>) -> bool {
    var matches Some(value) && value@.len() > 0
}

/// The texts that, pushed one after the other, make the home path.
pub open spec fn home_text(platform: Platform, vars: HomeVars) -> Seq<Seq<char>> {
    if platform is Windows {
        if filled(vars.user_profile) {
            seq![vars.user_profile->0@]
        } else if filled(vars.home_drive) && filled(vars.home_path) {
            seq![vars.home_drive->0@, vars.home_path->0@]
        } else {
            seq!["C:\\"@]
        }
    } else {
        match vars.home {
            Some(home) => seq![home@],
            None => seq!["/"@],
        }
    }
}

fn is_filled(var: &Option<String>) -> (r: bool)
    ensures
        r == filled(*var),
{
    match var {
        Some(value) => !value.as_str().is_empty(),
        None => false,
    }
}

fn value_of(var: &Option<String>) -> (r: String)
    requires
        *var is Some,
    ensures
        r@ == var->0@,
{
    match var {
        Some(value) => value.clone(),
        None => String::new(),
    }
}

/// Where home is, as the texts that make its path when pushed one after the
/// other. Windows has no `HOME`: `USERPROFILE` is the equivalent, with the drive
/// and path pair as the fallback for the shells that set those instead.
pub fn home(platform: Platform, vars: &HomeVars) -> (r: Vec<String>)
    ensures
        texts(r@) == home_text(platform, *vars),
{
    let mut out: Vec<String> = Vec::new();
    match platform {
        Platform::Windows => {
            if is_filled(&vars.user_profile) {
                out.push(value_of(&vars.user_profile));
            } else if is_filled(&vars.home_drive) && is_filled(&vars.home_path) {
                out.push(value_of(&vars.home_drive));
                out.push(value_of(&vars.home_path));
            } else {
                out.push("C:\\".to_string());
            }
        },
        _ => match &vars.home {
            Some(home) => out.push(home.clone()),
            None => out.push("/".to_string()),
        },
    }
    assert(texts(out@) =~= home_text(platform, *vars));
    out
}

// ---------------------------------------------------------------------------
// What the guards promise
// ---------------------------------------------------------------------------

/// No reason is the empty text, so an empty answer always means "allowed".
proof fn lemma_refusals_speak(parts: Seq<Seq<char>>)
    ensures
        first_refusal(parts) matches Some(reason) ==> reason.len() > 0,
        first_refusal(parts) is None <==> forall|i: int|
            0 <= i < parts.len() ==> !forbidden_part(#[trigger] parts[i]) && !cloud_dir(parts[i]),
    decreases parts.len(),
{
    reveal_strlit("protected component: ");
    reveal_strlit("cloud-sync folder: ");
    if parts.len() > 0 {
        let rest = parts.drop_first();
        lemma_refusals_speak(rest);
        if first_refusal(parts) is None {
            assert forall|i: int| 0 <= i < parts.len() implies !forbidden_part(#[trigger] parts[i])
                && !cloud_dir(parts[i]) by {
                if i > 0 {
                    assert(rest[i - 1] == parts[i]);
                }
            }
        }
        if forall|i: int|
            0 <= i < parts.len() ==> !forbidden_part(#[trigger] parts[i]) && !cloud_dir(parts[i]) {
            assert forall|i: int| 0 <= i < rest.len() implies !forbidden_part(#[trigger] rest[i])
                && !cloud_dir(rest[i]) by {
                assert(rest[i] == parts[i + 1]);
            }
            assert(!forbidden_part(parts[0]) && !cloud_dir(parts[0]));
        }
    }
}

/// A path passes exactly when none of its components is forbidden or a cloud
/// folder, it is deep enough, and it is neither home nor the root.
pub proof fn law_unprotected(path: Seq<PartView>, home: Seq<PartView>)
    ensures
        protection(path, home) == ""@ <==> {
            &&& forall|i: int|
                0 <= i < shown_parts(path).len() ==> !forbidden_part(
                    #[trigger] shown_parts(path)[i],
                ) && !cloud_dir(shown_parts(path)[i])
            &&& shown_parts(path).len() >= depth_floor(path)
            &&& path != home
            &&& path != root_only()
        },
{
    lemma_refusals_speak(shown_parts(path));
    reveal_strlit("");
    reveal_strlit("path too shallow");
    reveal_strlit("refusing home/root");
    assert(""@.len() == 0 && "path too shallow"@.len() > 0 && "refusing home/root"@.len() > 0);
}

/// Home is refused in whatever way its drive is written.
pub proof fn law_home_is_refused_whatever_its_drive(
    target: Target,
    home: FsPath,
    allowed: Seq<FsPath>,
    platform: Platform,
    entry: Entry,
    a: String,
    b: String,
)
    requires
        home.parts@.len() > 0,
        home.parts@[0] == Part::Prefix(a),
        target.path.parts@ == home.parts@.update(0, Part::Prefix(b)),
        drive(a@) == drive(b@),
    ensures
        target.path@ == home@,
        protection(target.path@, home@) != ""@,
        refusal(target, allowed, home@, platform, entry) != ""@,
{
    assert(target.path@ =~= home@) by {
        assert forall|i: int| 0 <= i < home@.len() implies target.path@[i] == home@[i] by {
            assert(target.path@[i] == target.path.parts@[i]@);
            assert(home@[i] == home.parts@[i]@);
        }
    }
    law_unprotected(target.path@, home@);
    law_deletable(target, allowed, home@, platform, entry);
}

/// A target may be deleted exactly when its path is absolute, unprotected and
/// still carries the name the scan recorded, lies inside an allowed root without
/// climbing out of it again, and something other than a symlink is there.
pub proof fn law_deletable(
    target: Target,
    allowed: Seq<FsPath>,
    home: Seq<PartView>,
    platform: Platform,
    entry: Entry,
)
    ensures
        refusal(target, allowed, home, platform, entry) == ""@ <==> {
            &&& absolute(target.path@, platform)
            &&& protection(target.path@, home) == ""@
            &&& name_or_empty(target.path@) == target.expect_name@
            &&& within_any(target.path@, allowed)
            &&& !climbs(target.path@)
            &&& entry is Present
        },
{
    reveal_strlit("");
    reveal_strlit("not absolute");
    reveal_strlit("name changed since scan");
    reveal_strlit("outside allowed roots");
    reveal_strlit("already gone");
    reveal_strlit("symlink");
    assert(""@.len() == 0 && "not absolute"@.len() > 0 && "name changed since scan"@.len() > 0);
    assert("outside allowed roots"@.len() > 0 && "already gone"@.len() > 0 && "symlink"@.len() > 0);
}

proof fn lemma_shown_prefix(path: Seq<PartView>, inner: Seq<PartView>)
    requires
        path.is_prefix_of(inner),
    ensures
        shown_parts(path).is_prefix_of(shown_parts(inner)),
    decreases inner.len(),
{
    if path.len() == inner.len() {
        assert(path =~= inner);
        assert(shown_parts(path) =~= shown_parts(inner).subrange(
            0,
            shown_parts(inner).len() as int,
        ));
    } else {
        assert(path =~= inner.drop_last().subrange(0, path.len() as int)) by {
            assert forall|i: int| 0 <= i < path.len() implies path[i]
                == inner.drop_last().subrange(0, path.len() as int)[i] by {
                assert(path[i] == inner.subrange(0, path.len() as int)[i]);
            }
        }
        lemma_shown_prefix(path, inner.drop_last());
        let a = shown_parts(path);
        let b = shown_parts(inner.drop_last());
        let c = shown_parts(inner);
        assert(a =~= c.subrange(0, a.len() as int)) by {
            assert forall|i: int| 0 <= i < a.len() implies a[i] == c.subrange(
                0,
                a.len() as int,
            )[i] by {
                assert(a[i] == b.subrange(0, a.len() as int)[i]);
            }
        }
    }
}

proof fn lemma_first_refusal_prefix(parts: Seq<Seq<char>>, longer: Seq<Seq<char>>)
    requires
        parts.is_prefix_of(longer),
        first_refusal(parts) is Some,
    ensures
        first_refusal(longer) == first_refusal(parts),
    decreases parts.len(),
{
    assert(parts[0] == longer.subrange(0, parts.len() as int)[0]);
    if part_refusal(parts[0]) is None {
        assert(parts.drop_first() =~= longer.drop_first().subrange(0, parts.len() - 1)) by {
            assert forall|i: int| 0 <= i < parts.len() - 1 implies parts.drop_first()[i]
                == longer.drop_first().subrange(0, parts.len() - 1)[i] by {
                assert(parts[i + 1] == longer.subrange(0, parts.len() as int)[i + 1]);
            }
        }
        lemma_first_refusal_prefix(parts.drop_first(), longer.drop_first());
    }
}

/// Everything inside a protected directory is protected, for the same reason.
pub proof fn law_protection_is_inherited(
    path: Seq<PartView>,
    inner: Seq<PartView>,
    home: Seq<PartView>,
)
    requires
        within(inner, path),
        first_refusal(shown_parts(path)) is Some,
    ensures
        protection(inner, home) == protection(path, home),
        protection(inner, home) != ""@,
{
    lemma_shown_prefix(path, inner);
    lemma_first_refusal_prefix(shown_parts(path), shown_parts(inner));
    lemma_refusals_speak(shown_parts(path));
    reveal_strlit("");
}

// ---------------------------------------------------------------------------
// What the guards promise, name by name
// ---------------------------------------------------------------------------

/// The names of components that are never touched, and no others: these, and
/// whatever ends in `.photoslibrary`.
pub proof fn law_names_never_touched(name: Seq<char>)
    ensures
        forbidden_part(name) <==> (seq![
            ".git"@,
            ".hg"@,
            ".svn"@,
            ".ssh"@,
            ".gnupg"@,
            "Keychains"@,
            "CloudStorage"@,
            "Mobile Documents"@,
            "Photos Library.photoslibrary"@,
        ].contains(name) || exists|stem: Seq<char>| name == #[trigger] (stem + ".photoslibrary"@)),
{
    let all = seq![
        ".git"@,
        ".hg"@,
        ".svn"@,
        ".ssh"@,
        ".gnupg"@,
        "Keychains"@,
        "CloudStorage"@,
        "Mobile Documents"@,
        "Photos Library.photoslibrary"@,
    ];
    let end = ".photoslibrary"@;
    assert(all[0] == ".git"@ && all[1] == ".hg"@ && all[2] == ".svn"@ && all[3] == ".ssh"@ && all[4]
        == ".gnupg"@ && all[5] == "Keychains"@ && all[6] == "CloudStorage"@ && all[7]
        == "Mobile Documents"@);
    reveal_strlit(".photoslibrary");
    reveal_strlit("Photos Library.photoslibrary");
    assert(all[8] =~= all[8].subrange(0, 14) + end);
    assert(end =~= all[8].subrange(14, 28));
    if end.is_suffix_of(name) {
        let stem = name.subrange(0, name.len() - end.len());
        assert(name =~= stem + end);
    }
    if exists|stem: Seq<char>| name == #[trigger] (stem + end) {
        let stem = choose|stem: Seq<char>| name == #[trigger] (stem + end);
        assert(end =~= name.subrange(name.len() - end.len(), name.len() as int));
    }
}

/// A path with one of these components is refused, wherever it stands and whatever
/// is below it.
pub proof fn law_protected_components_are_refused(
    path: Seq<PartView>,
    home: Seq<PartView>,
    i: int,
    name: Seq<char>,
)
    requires
        0 <= i < path.len(),
        path[i] == PartView::Normal(name),
        seq![
            ".git"@,
            ".hg"@,
            ".svn"@,
            ".ssh"@,
            ".gnupg"@,
            "Keychains"@,
            "CloudStorage"@,
            "Mobile Documents"@,
            "Photos Library.photoslibrary"@,
        ].contains(name) || exists|stem: Seq<char>| name == #[trigger] (stem + ".photoslibrary"@),
    ensures
        protection(path, home).len() > 0,
{
    law_names_never_touched(name);
    lemma_component_shows(path, i);
    lemma_refused_component(path, home, i, name);
}

proof fn lemma_component_shows(path: Seq<PartView>, i: int)
    requires
        0 <= i < path.len(),
        !(path[i] is Current),
    ensures
        shown_parts(path).contains(part_text(path[i])),
    decreases path.len(),
{
    let front = path.drop_last();
    let before = shown_parts(front);
    let all = shown_parts(path);
    if i < front.len() {
        lemma_component_shows(front, i);
        let k = choose|k: int| 0 <= k < before.len() && before[k] == part_text(front[i]);
        assert(all[k] == part_text(path[i]));
    } else {
        assert(all[before.len() as int] == part_text(path[i]));
    }
}

proof fn lemma_refused_component(path: Seq<PartView>, home: Seq<PartView>, i: int, name: Seq<char>)
    requires
        0 <= i < path.len(),
        path[i] == PartView::Normal(name),
        shown_parts(path).contains(name),
        forbidden_part(name) || cloud_dir(name),
    ensures
        protection(path, home).len() > 0,
{
    let k = choose|k: int| 0 <= k < shown_parts(path).len() && shown_parts(path)[k] == name;
    law_unprotected(path, home);
    reveal_strlit("");
    if protection(path, home).len() == 0 {
        assert(protection(path, home) =~= ""@);
        assert(!forbidden_part(shown_parts(path)[k]) && !cloud_dir(shown_parts(path)[k]));
    }
}

/// A name is that of a cloud folder exactly when, in lower case, it is one of these
/// words or one of them followed by a space or a hyphen.
pub proof fn law_cloud_names(low: Seq<char>)
    ensures
        cloud_name(low) <==> exists|k: int|
            0 <= k < cloud_words().len() && (low == #[trigger] cloud_words()[k] || (low.len()
                > cloud_words()[k].len() && low.subrange(0, cloud_words()[k].len() as int)
                == cloud_words()[k] && (low[cloud_words()[k].len() as int] == ' '
                || low[cloud_words()[k].len() as int] == '-'))),
        cloud_words() == seq![
            "onedrive"@,
            "google drive"@,
            "dropbox"@,
            "icloud"@,
            "creative cloud"@,
            "pcloud"@,
            "mega"@,
            "megasync"@,
            "sync.com"@,
            "box sync"@,
            "nextcloud"@,
        ],
{
    let words = cloud_words();
    assert forall|k: int| 0 <= k < words.len() implies (hint_matches(low, #[trigger] words[k])
        <==> (low == words[k] || (low.len() > words[k].len() && low.subrange(
        0,
        words[k].len() as int,
    ) == words[k] && (low[words[k].len() as int] == ' ' || low[words[k].len() as int] == '-')))) by {
        lemma_hint(low, words[k]);
    }
    assert(words[0] == "onedrive"@ && words[1] == "google drive"@ && words[2] == "dropbox"@
        && words[3] == "icloud"@ && words[4] == "creative cloud"@ && words[5] == "pcloud"@
        && words[6] == "mega"@ && words[7] == "megasync"@ && words[8] == "sync.com"@ && words[9]
        == "box sync"@ && words[10] == "nextcloud"@);
}

/// The words that cloud folders are called by.
pub open spec fn cloud_words() -> Seq<Seq<char>> {
    seq![
        "onedrive"@,
        "google drive"@,
        "dropbox"@,
        "icloud"@,
        "creative cloud"@,
        "pcloud"@,
        "mega"@,
        "megasync"@,
        "sync.com"@,
        "box sync"@,
        "nextcloud"@,
    ]
}

proof fn lemma_hint(low: Seq<char>, hint: Seq<char>)
    ensures
        hint_matches(low, hint) <==> (low == hint || (low.len() > hint.len() && low.subrange(
            0,
            hint.len() as int,
        ) == hint && (low[hint.len() as int] == ' ' || low[hint.len() as int] == '-'))),
{
    reveal_strlit(" ");
    reveal_strlit("-");
    let n = hint.len() as int;
    let spaced = hint + " "@;
    let hyphened = hint + "-"@;
    if spaced.is_prefix_of(low) {
        assert(low.subrange(0, n + 1)[n] == low[n]);
        assert(low.subrange(0, n) =~= hint) by {
            assert forall|i: int| 0 <= i < n implies low[i] == hint[i] by {
                assert(low.subrange(0, n + 1)[i] == spaced[i]);
            }
        }
    }
    if hyphened.is_prefix_of(low) {
        assert(low.subrange(0, n + 1)[n] == low[n]);
        assert(low.subrange(0, n) =~= hint) by {
            assert forall|i: int| 0 <= i < n implies low[i] == hint[i] by {
                assert(low.subrange(0, n + 1)[i] == hyphened[i]);
            }
        }
    }
    if low.len() > hint.len() && low.subrange(0, n) == hint {
        assert forall|i: int| 0 <= i < n implies low[i] == hint[i] by {
            assert(low.subrange(0, n)[i] == low[i]);
        }
        if low[n] == ' ' {
            assert(spaced =~= low.subrange(0, n + 1));
        }
        if low[n] == '-' {
            assert(hyphened =~= low.subrange(0, n + 1));
        }
    }
}

/// A path through a cloud folder is refused, in whatever case its name is written
/// and whatever follows the name after a space or a hyphen.
pub proof fn law_cloud_folders_are_refused(
    path: Seq<PartView>,
    home: Seq<PartView>,
    i: int,
    name: Seq<char>,
    k: int,
)
    requires
        0 <= i < path.len(),
        path[i] == PartView::Normal(name),
        forall|j: int| 0 <= j < name.len() ==> (#[trigger] name[j]) <= '\x7f',
        0 <= k < cloud_words().len(),
        ({
            let word = cloud_words()[k];
            let n = word.len() as int;
            &&& name.len() >= n
            &&& forall|j: int|
                0 <= j < n ==> word[j] == (if 'A' <= #[trigger] name[j] <= 'Z' {
                    (name[j] as u32 + 32) as char
                } else {
                    name[j]
                })
            &&& name.len() == n || name[n] == ' ' || name[n] == '-'
        }),
    ensures
        cloud_dir(name),
        protection(path, home).len() > 0,
{
    let low = name.map_values(|c: char| ascii_lower(c));
    let word = cloud_words()[k];
    let n = word.len() as int;
    assert(all_ascii(name));
    assert(low.subrange(0, n) =~= word);
    if name.len() == n {
        assert(low =~= word);
    } else {
        assert(low[n] == name[n]);
    }
    law_cloud_names(low);
    lemma_component_shows(path, i);
    lemma_refused_component(path, home, i, name);
}

/// What counts of a path is every component but `.`, read as it is written.
pub proof fn law_components_are_all_but_dots(path: Seq<PartView>, part: PartView)
    ensures
        shown_parts(Seq::empty()) == Seq::<Seq<char>>::empty(),
        shown_parts(path.push(part)) == (match part {
            PartView::Current => shown_parts(path),
            PartView::Root => shown_parts(path).push("/"@),
            PartView::Parent => shown_parts(path).push(".."@),
            PartView::Prefix(name) => shown_parts(path).push(name),
            PartView::Normal(name) => shown_parts(path).push(name),
        }),
{
    assert(path.push(part).drop_last() =~= path);
}

/// A path with fewer than two names below its root is refused, and so are home and
/// the root itself.
pub proof fn law_shallow_paths_and_home_are_refused(path: Seq<PartView>, home: Seq<PartView>)
    ensures
        path.len() < 3 ==> protection(path, home).len() > 0,
        path.len() == 3 && path[0] is Prefix ==> protection(path, home).len() > 0,
        path == home ==> protection(path, home).len() > 0,
        path == seq![PartView::Root] ==> protection(path, home).len() > 0,
{
    law_unprotected(path, home);
    lemma_shown_no_longer(path);
    reveal_strlit("");
    if protection(path, home).len() == 0 {
        assert(protection(path, home) =~= ""@);
    }
}

proof fn lemma_shown_no_longer(path: Seq<PartView>)
    ensures
        shown_parts(path).len() <= path.len(),
    decreases path.len(),
{
    if path.len() > 0 {
        lemma_shown_no_longer(path.drop_last());
    }
}

proof fn lemma_shown_plainly(path: Seq<PartView>)
    requires
        forall|i: int| 0 <= i < path.len() ==> !((#[trigger] path[i]) is Current),
    ensures
        shown_parts(path).len() == path.len(),
        forall|i: int|
            0 <= i < path.len() ==> #[trigger] shown_parts(path)[i] == part_text(path[i]),
    decreases path.len(),
{
    if path.len() > 0 {
        let front = path.drop_last();
        assert forall|i: int| 0 <= i < front.len() implies !((#[trigger] front[i]) is Current) by {
            assert(front[i] == path[i]);
        }
        lemma_shown_plainly(front);
        assert forall|i: int| 0 <= i < path.len() implies #[trigger] shown_parts(path)[i]
            == part_text(path[i]) by {
            if i < front.len() {
                assert(shown_parts(path)[i] == shown_parts(front)[i]);
            }
        }
    }
}

/// Nothing else is refused: a path that is deep enough, is not home, and whose
/// components are neither among the names never touched nor cloud folders passes.
pub proof fn law_ordinary_paths_pass(path: Seq<PartView>, home: Seq<PartView>)
    requires
        path.len() >= 4 || (path.len() == 3 && !(path[0] is Prefix)),
        path != home,
        forall|i: int|
            0 <= i < path.len() ==> !((#[trigger] path[i]) is Current) && !forbidden_part(
                part_text(path[i]),
            ) && !cloud_dir(part_text(path[i])),
    ensures
        protection(path, home).len() == 0,
{
    lemma_shown_plainly(path);
    law_unprotected(path, home);
    reveal_strlit("");
    assert forall|i: int| 0 <= i < shown_parts(path).len() implies !forbidden_part(
        #[trigger] shown_parts(path)[i],
    ) && !cloud_dir(shown_parts(path)[i]) by {
        assert(shown_parts(path)[i] == part_text(path[i]));
    }
}

/// What a session may remove is where it was told to stay: the target's components
/// start with those of an allowed root, none of them leads back up, the last one is
/// the name that the scan recorded, and something that is no symlink stands there.
pub proof fn law_deletable_targets_are_where_they_belong(
    target: Target,
    allowed: Seq<FsPath>,
    home: Seq<PartView>,
    platform: Platform,
    entry: Entry,
)
    requires
        refusal(target, allowed, home, platform, entry).len() == 0,
    ensures
        entry == Entry::Present,
        target.path@.len() >= 3,
        target.path@ != home,
        !target.path@.contains(PartView::Parent),
        platform == Platform::Windows ==> target.path@[0] is Prefix && target.path@[1]
            == PartView::Root,
        platform != Platform::Windows ==> target.path@[0] == PartView::Root,
        target.expect_name@.len() > 0 ==> target.path@.last() == PartView::Normal(
            target.expect_name@,
        ),
        exists|r: int|
            0 <= r < allowed.len() && (#[trigger] allowed[r])@.len() <= target.path@.len()
                && forall|i: int|
                0 <= i < allowed[r]@.len() ==> #[trigger] allowed[r]@[i] == target.path@[i],
{
    reveal_strlit("");
    assert(refusal(target, allowed, home, platform, entry) =~= ""@);
    law_deletable(target, allowed, home, platform, entry);
    law_shallow_paths_and_home_are_refused(target.path@, home);
    crate::path::law_inside_any_means_inside_one(target.path@, allowed);
    crate::path::law_absolute_paths_start_at_a_root(target.path@);
}

/// A target that is where it belongs and unprotected is removed if it is there, is
/// passed over as already gone if it is not, and is refused if it is a symlink.
pub proof fn law_what_stands_there_decides(
    target: Target,
    allowed: Seq<FsPath>,
    home: Seq<PartView>,
    platform: Platform,
    r: int,
)
    requires
        platform == Platform::Windows ==> target.path@.len() > 1 && target.path@[0] is Prefix
            && target.path@[1] == PartView::Root,
        platform != Platform::Windows ==> target.path@.len() > 0 && target.path@[0]
            == PartView::Root,
        protection(target.path@, home).len() == 0,
        target.path@.len() > 0,
        target.path@.last() == PartView::Normal(target.expect_name@),
        !target.path@.contains(PartView::Parent),
        0 <= r < allowed.len(),
        allowed[r]@.len() <= target.path@.len(),
        forall|i: int|
            0 <= i < allowed[r]@.len() ==> #[trigger] allowed[r]@[i] == target.path@[i],
    ensures
        refusal(target, allowed, home, platform, Entry::Present).len() == 0,
        refusal(target, allowed, home, platform, Entry::Missing) == "already gone"@,
        refusal(target, allowed, home, platform, Entry::Symlink) == "symlink"@,
{
    reveal_strlit("");
    assert(protection(target.path@, home) =~= ""@);
    crate::path::law_inside_any_means_inside_one(target.path@, allowed);
    crate::path::law_absolute_paths_start_at_a_root(target.path@);
    assert(name_or_empty(target.path@) == target.expect_name@);
}

/// What a target is refused for is said: what is not absolute, what is protected,
/// what no longer has its name and what lies elsewhere, in that order.
pub proof fn law_refusals_say_why(
    target: Target,
    allowed: Seq<FsPath>,
    home: Seq<PartView>,
    platform: Platform,
    entry: Entry,
)
    ensures
        ({
            let why = refusal(target, allowed, home, platform, entry);
            let path = target.path@;
            let rooted = if platform == Platform::Windows {
                path.len() > 1 && path[0] is Prefix && path[1] == PartView::Root
            } else {
                path.len() > 0 && path[0] == PartView::Root
            };
            &&& !rooted ==> why == "not absolute"@
            &&& rooted && protection(path, home).len() > 0 ==> why == protection(path, home)
            &&& rooted && protection(path, home).len() == 0 && path.last() != PartView::Normal(
                target.expect_name@,
            ) && (target.expect_name@.len() > 0 || path.last() is Normal) ==> why
                == "name changed since scan"@
            &&& rooted && protection(path, home).len() == 0 && path.last() == PartView::Normal(
                target.expect_name@,
            ) && (path.contains(PartView::Parent) || forall|r: int|
                0 <= r < allowed.len() ==> !within(path, (#[trigger] allowed[r])@)) ==> why
                == "outside allowed roots"@
        }),
{
    reveal_strlit("");
    crate::path::law_absolute_paths_start_at_a_root(target.path@);
    if protection(target.path@, home).len() == 0 {
        assert(protection(target.path@, home) =~= ""@);
    }
}

/// Home is what the environment says. On Windows that is the profile, or else the
/// drive and the path on it, or else the root of `C:`; elsewhere it is `HOME`, or
/// else the root.
pub proof fn law_home_is_what_the_environment_says(vars: HomeVars)
    ensures
        (match vars.home {
            Some(home) => home_text(Platform::Linux, vars) == seq![home@] && home_text(
                Platform::MacOs,
                vars,
            ) == seq![home@],
            None => home_text(Platform::Linux, vars) == seq!["/"@] && home_text(
                Platform::MacOs,
                vars,
            ) == seq!["/"@],
        }),
        (match (vars.user_profile, vars.home_drive, vars.home_path) {
            (Some(profile), _, _) => profile@.len() > 0 ==> home_text(Platform::Windows, vars)
                == seq![profile@],
            (None, Some(drive), Some(path)) => home_text(Platform::Windows, vars) == (
            if drive@.len() > 0 && path@.len() > 0 {
                seq![drive@, path@]
            } else {
                seq!["C:\\"@]
            }),
            (None, _, _) => home_text(Platform::Windows, vars) == seq!["C:\\"@],
        }),
{
}

/// The reason names the first component that must not be touched, and says whether it
/// is protected or a cloud folder.
pub proof fn law_reasons_name_the_component(path: Seq<PartView>, home: Seq<PartView>, i: int)
    requires
        0 <= i < shown_parts(path).len(),
        forall|k: int|
            0 <= k < i ==> !forbidden_part(#[trigger] shown_parts(path)[k]) && !cloud_dir(
                shown_parts(path)[k],
            ),
    ensures
        forbidden_part(shown_parts(path)[i]) ==> protection(path, home) == "protected component: "@
            + shown_parts(path)[i],
        !forbidden_part(shown_parts(path)[i]) && cloud_dir(shown_parts(path)[i]) ==> protection(
            path,
            home,
        ) == "cloud-sync folder: "@ + shown_parts(path)[i],
{
    lemma_first_refusal_is(shown_parts(path), i);
}

proof fn lemma_first_refusal_is(parts: Seq<Seq<char>>, i: int)
    requires
        0 <= i < parts.len(),
        forall|k: int|
            0 <= k < i ==> !forbidden_part(#[trigger] parts[k]) && !cloud_dir(parts[k]),
    ensures
        part_refusal(parts[i]) is Some ==> first_refusal(parts) == part_refusal(parts[i]),
    decreases i,
{
    if i > 0 {
        let rest = parts.drop_first();
        assert(!forbidden_part(parts[0]) && !cloud_dir(parts[0]));
        assert forall|k: int| 0 <= k < i - 1 implies !forbidden_part(#[trigger] rest[k])
            && !cloud_dir(rest[k]) by {
            assert(rest[k] == parts[k + 1]);
        }
        assert(rest[i - 1] == parts[i]);
        lemma_first_refusal_is(rest, i - 1);
    }
}

/// A path that is refused for no component is refused for its depth, or for being
/// home or the root, and is told so.
pub proof fn law_other_reasons_are_told(path: Seq<PartView>, home: Seq<PartView>)
    requires
        forall|k: int|
            0 <= k < shown_parts(path).len() ==> !forbidden_part(#[trigger] shown_parts(path)[k])
                && !cloud_dir(shown_parts(path)[k]),
    ensures
        ({
            let floor: int = if path.len() > 0 && path[0] is Prefix {
                4
            } else {
                3
            };
            let deep = shown_parts(path).len() >= floor;
            &&& !deep ==> protection(path, home) == "path too shallow"@
            &&& deep && (path == home || path == seq![PartView::Root]) ==> protection(path, home)
                == "refusing home/root"@
            &&& deep && path != home && path != seq![PartView::Root] ==> protection(
                path,
                home,
            ).len() == 0
        }),
{
    reveal_strlit("");
    lemma_no_refusal(shown_parts(path));
}

proof fn lemma_no_refusal(parts: Seq<Seq<char>>)
    requires
        forall|k: int|
            0 <= k < parts.len() ==> !forbidden_part(#[trigger] parts[k]) && !cloud_dir(parts[k]),
    ensures
        first_refusal(parts) is None,
    decreases parts.len(),
{
    if parts.len() > 0 {
        let rest = parts.drop_first();
        assert(!forbidden_part(parts[0]) && !cloud_dir(parts[0]));
        assert forall|k: int| 0 <= k < rest.len() implies !forbidden_part(#[trigger] rest[k])
            && !cloud_dir(rest[k]) by {
            assert(rest[k] == parts[k + 1]);
        }
        lemma_no_refusal(rest);
    }
}

/// Seeing to how a target is shown changes nothing else about it, and nothing at all
/// if it was shown rightly.
pub proof fn law_showing_changes_nothing_else(target: Target, given: Target, platform: Platform)
    requires
        shown_right(target, given, platform),
    ensures
        target.path@ == given.path@,
        target.rule_id@ == given.rule_id@,
        target.tier@ == given.tier@,
        target.expect_name@ == given.expect_name@,
        target.size == given.size,
        target.label@ == given.label@,
        target.regen@ == given.regen@,
        denotes(given.shown@, given.path@, platform) ==> target.shown@ == given.shown@,
        !denotes(given.shown@, given.path@, platform) ==> target.shown@ == spelled(
            given.path@,
            separator(platform),
        ),
        denotes(target.shown@, target.path@, platform),
{
    crate::path::law_spelling_denotes(given.path@, platform);
}

/// A profile variable that is set to nothing is as good as none: the drive and the
/// path count then, and if one of them is missing, the root of `C:`.
pub proof fn law_empty_variables_say_nothing(vars: HomeVars)
    requires
        vars.user_profile is None || vars.user_profile->0@.len() == 0,
    ensures
        vars.home_drive is Some && vars.home_drive->0@.len() > 0 && vars.home_path is Some
            && vars.home_path->0@.len() > 0 ==> home_text(Platform::Windows, vars) == seq![
            vars.home_drive->0@,
            vars.home_path->0@,
        ],
        vars.home_drive is None || vars.home_drive->0@.len() == 0 || vars.home_path is None
            || vars.home_path->0@.len() == 0 ==> home_text(Platform::Windows, vars) == seq![
            "C:\\"@,
        ],
{
}

/// The guards speak against every path with one of these components, both when asked
/// about the path and when asked about deleting it.
pub proof fn law_guards_refuse_protected_components(
    target: &Target,
    allowed: &Vec<FsPath>,
    home: &FsPath,
    platform: Platform,
    entry: Entry,
    reason: String,
    why: String,
    i: int,
    name: Seq<char>,
)
    requires
        call_ensures(path_is_protected, (&target.path, home), reason),
        call_ensures(validate_for_delete, (target, allowed, home, platform, entry), why),
        0 <= i < target.path@.len(),
        target.path@[i] == PartView::Normal(name),
        seq![
            ".git"@,
            ".hg"@,
            ".svn"@,
            ".ssh"@,
            ".gnupg"@,
            "Keychains"@,
            "CloudStorage"@,
            "Mobile Documents"@,
            "Photos Library.photoslibrary"@,
        ].contains(name),
    ensures
        reason@.len() > 0,
        why@.len() > 0,
{
    law_protected_components_are_refused(target.path@, home@, i, name);
    law_deletable(*target, allowed@, home@, platform, entry);
    reveal_strlit("");
    if why@.len() == 0 {
        assert(why@ =~= ""@);
    }
}

} // verus!
