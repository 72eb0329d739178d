//! Keeping only what git already ignores.
//!
//! Names like `build` or `dist` prove nothing, so such a directory only counts
//! where git ignores it. Git is asked once per repository, with the paths on its
//! input and the ignored ones echoed back. A path outside any repository is
//! dropped, because nothing proves it is build output rather than source.
use vstd::prelude::*;

use crate::claims::{claim_views, Claim, ClaimView};
use crate::path::{
    contains_path, listed_path, parent_path, separator, spelled, within, FsPath, PartView, Platform,
};
use crate::text::{chars_of, contains_text, lines, lines_of, listed, text_of, trim, trimmed};

verus! {

/// A character in the spelling git uses.
pub open spec fn git_char(c: char) -> char {
    if c == '\\' {
        '/'
    } else {
        c
    }
}

/// A path in the spelling git uses, with forward slashes on every platform.
pub open spec fn git_spelling(path: Seq<PartView>, platform: Platform) -> Seq<char> {
    let text = spelled(path, separator(platform));
    if platform is Windows {
        text.map_values(|c: char| git_char(c))
    } else {
        text
    }
}

/// A path in the spelling git uses.
///
/// Git echoes back the paths it was handed, and speaks forward slashes on every
/// platform. A miss here silently drops a finding, so what is sent and what is
/// looked up both go through this.
pub fn git_path(path: &FsPath, platform: Platform) -> (r: String)
    ensures
        r@ == git_spelling(path@, platform),
{
    let text = path.display(platform);
    match platform {
        Platform::Windows => {
            let chars = chars_of(text.as_str());
            let mut out: Vec<char> = Vec::new();
            let mut i: usize = 0;
            while i < chars.len()
                invariant
                    i <= chars.len(),
                    out@ == chars@.map_values(|c: char| git_char(c)).take(i as int),
                decreases chars.len() - i,
            {
                let c = chars[i];
                out.push(
                    if c == '\\' {
                        '/'
                    } else {
                        c
                    },
                );
                i += 1;
            }
            assert(out@ =~= chars@.map_values(|c: char| git_char(c)));
            text_of(&out)
        },
        _ => text,
    }
}

// ---------------------------------------------------------------------------
// Repositories
// ---------------------------------------------------------------------------

/// The nearest directory, from `start` upwards, that holds a repository.
pub open spec fn nearest_repo(start: Seq<PartView>, with_git: Seq<FsPath>) -> Option<Seq<PartView>>
    decreases start.len(),
{
    if listed_path(with_git, start) {
        Some(start)
    } else {
        match parent_path(start) {
            Some(up) => nearest_repo(up, with_git),
            None => None,
        }
    }
}

/// The nearest directory, from `start` upwards, that holds a repository.
/// `with_git` are the directories that have an entry called `.git`.
pub fn git_repo_root(start: &FsPath, with_git: &Vec<FsPath>) -> (r: Option<FsPath>)
    ensures
        r is Some <==> nearest_repo(start@, with_git@) is Some,
        r matches Some(repo) ==> nearest_repo(start@, with_git@) == Some(repo@),
{
    let mut at = start.clone();
    loop
        invariant
            nearest_repo(start@, with_git@) == nearest_repo(at@, with_git@),
        decreases at@.len(),
    {
        if contains_path(with_git, &at) {
            return Some(at);
        }
        match at.parent() {
            Some(up) => {
                at = up;
            },
            None => {
                return None;
            },
        }
    }
}

/// The directories in which to look for `.git`, from `start` upwards.
pub open spec fn upwards(start: Seq<PartView>) -> Seq<Seq<PartView>>
    decreases start.len(),
{
    match parent_path(start) {
        Some(up) => seq![start] + upwards(up),
        None => seq![start],
    }
}

/// The directories in which to look for `.git`, from `start` upwards.
pub fn repo_probes(start: &FsPath) -> (r: Vec<FsPath>)
    ensures
        crate::path::paths(r@) == upwards(start@),
{
    let mut out: Vec<FsPath> = Vec::new();
    let mut at = start.clone();
    loop
        invariant
            upwards(start@) == crate::path::paths(out@) + upwards(at@),
        decreases at@.len(),
    {
        let ghost before = out@;
        out.push(at.clone());
        assert(crate::path::paths(out@) =~= crate::path::paths(before).push(at@));
        match at.parent() {
            Some(up) => {
                assert(crate::path::paths(before) + (seq![at@] + upwards(up@))
                    =~= crate::path::paths(out@) + upwards(up@));
                at = up;
            },
            None => {
                assert(crate::path::paths(before) + seq![at@] =~= crate::path::paths(out@));
                return out;
            },
        }
    }
}

/// Where the search for a claim's repository starts.
pub open spec fn beside(path: Seq<PartView>) -> Seq<PartView> {
    match parent_path(path) {
        Some(up) => up,
        None => path,
    }
}

/// Where the search for a directory's repository starts: the directory it is in.
pub fn search_start(path: &FsPath) -> (r: FsPath)
    ensures
        r@ == beside(path@),
{
    match path.parent() {
        Some(up) => up,
        None => path.clone(),
    }
}

/// The repository of a claim.
pub open spec fn repo_of(claim: ClaimView, with_git: Seq<FsPath>) -> Option<Seq<PartView>> {
    nearest_repo(beside(claim.path), with_git)
}

/// The repositories of the claims, each once, in the order in which they first
/// appear.
pub open spec fn repos(claims: Seq<ClaimView>, with_git: Seq<FsPath>) -> Seq<Seq<PartView>>
    decreases claims.len(),
{
    if claims.len() == 0 {
        Seq::empty()
    } else {
        let before = repos(claims.drop_last(), with_git);
        match repo_of(claims.last(), with_git) {
            Some(repo) => if before.contains(repo) {
                before
            } else {
                before.push(repo)
            },
            None => before,
        }
    }
}

/// The claims in one repository.
pub open spec fn in_repo(
    claims: Seq<ClaimView>,
    with_git: Seq<FsPath>,
    repo: Seq<PartView>,
) -> Seq<ClaimView>
    decreases claims.len(),
{
    if claims.len() == 0 {
        Seq::empty()
    } else if repo_of(claims.last(), with_git) == Some(repo) {
        in_repo(claims.drop_last(), with_git, repo).push(claims.last())
    } else {
        in_repo(claims.drop_last(), with_git, repo)
    }
}

/// The claims in one repository.
#[derive(Debug)]
pub struct RepoGroup {
    pub repo: FsPath,
    pub items: Vec<Claim>,
}

/// Whether the groups are the claims bucketed by repository.
pub open spec fn grouped(
    claims: Seq<ClaimView>,
    with_git: Seq<FsPath>,
    groups: Seq<RepoGroup>,
) -> bool {
    &&& groups.len() == repos(claims, with_git).len()
    &&& forall|g: int|
        0 <= g < groups.len() ==> (#[trigger] groups[g]).repo@ == repos(claims, with_git)[g]
            && claim_views(groups[g].items@) == in_repo(claims, with_git, groups[g].repo@)
}

proof fn lemma_repos(claims: Seq<ClaimView>, with_git: Seq<FsPath>)
    ensures
        repos(claims, with_git).no_duplicates(),
        forall|i: int|
            0 <= i < claims.len() ==> (repo_of(#[trigger] claims[i], with_git) matches Some(repo)
                ==> repos(claims, with_git).contains(repo)),
    decreases claims.len(),
{
    if claims.len() > 0 {
        let front = claims.drop_last();
        lemma_repos(front, with_git);
        let before = repos(front, with_git);
        let all = repos(claims, with_git);
        assert forall|i: int| 0 <= i < claims.len() implies (repo_of(
            #[trigger] claims[i],
            with_git,
        ) matches Some(repo) ==> all.contains(repo)) by {
            if let Some(repo) = repo_of(claims[i], with_git) {
                if i < front.len() {
                    assert(front[i] == claims[i]);
                    assert(before.contains(repo));
                    let g = choose|g: int| 0 <= g < before.len() && before[g] == repo;
                    assert(all[g] == repo);
                } else if !before.contains(repo) {
                    assert(all[before.len() as int] == repo);
                }
            }
        }
    }
}

proof fn lemma_in_repo_nothing(
    claims: Seq<ClaimView>,
    with_git: Seq<FsPath>,
    repo: Seq<PartView>,
)
    requires
        !repos(claims, with_git).contains(repo),
    ensures
        in_repo(claims, with_git, repo).len() == 0,
    decreases claims.len(),
{
    if claims.len() > 0 {
        let front = claims.drop_last();
        lemma_repos(claims, with_git);
        assert(repo_of(claims[claims.len() - 1], with_git) != Some(repo));
        let before = repos(front, with_git);
        if before.contains(repo) {
            let g = choose|g: int| 0 <= g < before.len() && before[g] == repo;
            assert(repos(claims, with_git)[g] == repo);
        }
        lemma_in_repo_nothing(front, with_git, repo);
    }
}

/// Bucket claims by repository. A claim outside any repository is dropped.
pub fn by_repo(claims: &Vec<Claim>, with_git: &Vec<FsPath>) -> (r: Vec<RepoGroup>)
    ensures
        grouped(claim_views(claims@), with_git@, r@),
{
    let ghost all = claim_views(claims@);
    let ghost git = with_git@;
    let mut groups: Vec<RepoGroup> = Vec::new();
    let mut i: usize = 0;
    while i < claims.len()
        invariant
            i <= claims.len(),
            all == claim_views(claims@),
            git == with_git@,
            grouped(all.take(i as int), git, groups@),
        decreases claims.len() - i,
    {
        let ghost before = all.take(i as int);
        let ghost now = all.take(i + 1);
        let claim = &claims[i];
        proof {
            assert(now.drop_last() =~= before);
            assert(now.last() == claim@);
            lemma_repos(before, git);
        }
        let start = search_start(&claim.path);
        match git_repo_root(&start, with_git) {
            Some(repo) => {
                let mut g: usize = 0;
                while g < groups.len() && !groups[g].repo.same(&repo)
                    invariant
                        g <= groups.len(),
                        forall|k: int| 0 <= k < g ==> (#[trigger] groups@[k]).repo@ != repo@,
                    decreases groups.len() - g,
                {
                    g += 1;
                }
                let ghost old_groups = groups@;
                if g < groups.len() {
                    groups[g].items.push(claim.clone());
                    proof {
                        assert(repos(before, git)[g as int] == repo@);
                        assert(repos(now, git) == repos(before, git));
                        assert forall|k: int| 0 <= k < groups@.len() implies (
                        #[trigger] groups@[k]).repo@ == repos(now, git)[k] && claim_views(
                            groups@[k].items@,
                        ) == in_repo(now, git, groups@[k].repo@) by {
                            assert(groups@[k].repo == old_groups[k].repo);
                            if k == g {
                                assert(claim_views(groups@[k].items@) =~= claim_views(
                                    old_groups[k].items@,
                                ).push(claim@));
                            } else {
                                assert(groups@[k] == old_groups[k]);
                                assert(repos(before, git)[k] != repos(before, git)[g as int]);
                            }
                        }
                    }
                } else {
                    let mut items: Vec<Claim> = Vec::new();
                    items.push(claim.clone());
                    let ghost first = items@;
                    groups.push(RepoGroup { repo, items });
                    proof {
                        if repos(before, git).contains(repo@) {
                            let k = choose|k: int|
                                0 <= k < repos(before, git).len() && repos(before, git)[k]
                                    == repo@;
                            assert(old_groups[k].repo@ == repo@);
                        }
                        lemma_in_repo_nothing(before, git, repo@);
                        assert(claim_views(first) =~= in_repo(now, git, repo@));
                        assert forall|k: int| 0 <= k < groups@.len() implies (
                        #[trigger] groups@[k]).repo@ == repos(now, git)[k] && claim_views(
                            groups@[k].items@,
                        ) == in_repo(now, git, groups@[k].repo@) by {
                            if k < old_groups.len() {
                                assert(groups@[k] == old_groups[k]);
                                assert(old_groups[k].repo@ != repo@);
                            }
                        }
                    }
                }
            },
            None => {
                proof {
                    assert(repos(now, git) == repos(before, git));
                    assert forall|k: int| 0 <= k < groups@.len() implies (
                    #[trigger] groups@[k]).repo@ == repos(now, git)[k] && claim_views(
                        groups@[k].items@,
                    ) == in_repo(now, git, groups@[k].repo@) by {
                        assert(in_repo(now, git, groups@[k].repo@) == in_repo(
                            before,
                            git,
                            groups@[k].repo@,
                        ));
                    }
                }
            },
        }
        i += 1;
    }
    assert(all.take(all.len() as int) =~= all);
    groups
}

// ---------------------------------------------------------------------------
// Asking git
// ---------------------------------------------------------------------------

/// The arguments of the `git` call that tells which paths a repository ignores.
pub fn check_ignore_args(repo: &FsPath, platform: Platform) -> (r: Vec<String>)
    ensures
        crate::text::texts(r@) == seq![
            "-C"@,
            spelled(repo@, separator(platform)),
            "check-ignore"@,
            "--stdin"@,
        ],
{
    let mut out: Vec<String> = Vec::new();
    out.push("-C".to_string());
    out.push(repo.display(platform));
    out.push("check-ignore".to_string());
    out.push("--stdin".to_string());
    assert(crate::text::texts(out@) =~= seq![
        "-C"@,
        spelled(repo@, separator(platform)),
        "check-ignore"@,
        "--stdin"@,
    ]);
    out
}

/// What git is handed: the paths of the claims, one a line.
pub open spec fn payload(claims: Seq<ClaimView>, platform: Platform) -> Seq<char>
    decreases claims.len(),
{
    if claims.len() == 0 {
        Seq::empty()
    } else {
        let line = git_spelling(claims.last().path, platform);
        if claims.len() == 1 {
            line
        } else {
            payload(claims.drop_last(), platform) + seq!['\n'] + line
        }
    }
}

/// What git is handed: the paths of the claims, one a line.
pub fn ignore_payload(claims: &Vec<Claim>, platform: Platform) -> (r: String)
    ensures
        r@ == payload(claim_views(claims@), platform),
{
    let ghost all = claim_views(claims@);
    let mut out = String::new();
    let mut i: usize = 0;
    while i < claims.len()
        invariant
            i <= claims.len(),
            all == claim_views(claims@),
            out@ == payload(all.take(i as int), platform),
        decreases claims.len() - i,
    {
        assert(all.take(i + 1).drop_last() =~= all.take(i as int));
        assert(all.take(i + 1).last() == claims@[i as int]@);
        if i > 0 {
            out.push('\n');
        }
        let ghost before = out@;
        let line = git_path(&claims[i].path, platform);
        out.append(line.as_str());
        assert(out@ =~= payload(all.take(i + 1), platform));
        i += 1;
    }
    assert(all.take(all.len() as int) =~= all);
    out
}

/// Whether git's answer names a path: some line of it is that path, leaving white
/// space at its ends aside. An empty line names nothing.
pub open spec fn names_path(output: Seq<char>, path: Seq<char>) -> bool {
    path.len() > 0 && exists|i: int|
        0 <= i < lines(output).len() && trimmed(#[trigger] lines(output)[i]) == path
}

/// The paths in git's answer.
pub fn ignored_paths(output: &str) -> (r: Vec<String>)
    ensures
        forall|path: Seq<char>| #[trigger] listed(r@, path) <==> names_path(output@, path),
{
    let all = lines_of(output);
    let ghost texts = lines(output@);
    let mut out: Vec<String> = Vec::new();
    let mut i: usize = 0;
    while i < all.len()
        invariant
            i <= all.len(),
            crate::text::texts(all@) == texts,
            forall|path: Seq<char>| #[trigger]
                listed(out@, path) <==> (path.len() > 0 && exists|k: int|
                    0 <= k < i && trimmed(#[trigger] texts[k]) == path),
        decreases all.len() - i,
    {
        let ghost before = out@;
        assert(texts[i as int] == all@[i as int]@);
        let line = trim(all[i].as_str());
        if !line.as_str().is_empty() {
            out.push(line.clone());
        }
        proof {
            assert forall|path: Seq<char>| #[trigger]
                listed(out@, path) <==> (path.len() > 0 && exists|k: int|
                    0 <= k < i + 1 && trimmed(#[trigger] texts[k]) == path) by {
                if listed(out@, path) && path != line@ {
                    let a = choose|a: int| 0 <= a < out@.len() && (#[trigger] out@[a])@ == path;
                    assert(before[a]@ == path);
                    assert(listed(before, path));
                }
                if listed(before, path) {
                    let a = choose|a: int| 0 <= a < before.len() && (#[trigger] before[a])@ == path;
                    assert(out@[a]@ == path);
                }
                if line@.len() > 0 {
                    assert(out@[before.len() as int]@ == line@);
                }
                if path.len() > 0 && exists|k: int|
                    0 <= k < i + 1 && trimmed(#[trigger] texts[k]) == path {
                    let k = choose|k: int| 0 <= k < i + 1 && trimmed(#[trigger] texts[k]) == path;
                    if k < i {
                        assert(listed(before, path));
                    }
                }
                if path == line@ {
                    assert(trimmed(texts[i as int]) == path);
                }
            }
        }
        i += 1;
    }
    out
}

/// The claims that git's answer names.
pub open spec fn ignored_claims(
    claims: Seq<ClaimView>,
    output: Seq<char>,
    platform: Platform,
) -> Seq<ClaimView>
    decreases claims.len(),
{
    if claims.len() == 0 {
        Seq::empty()
    } else {
        let before = ignored_claims(claims.drop_last(), output, platform);
        if names_path(output, git_spelling(claims.last().path, platform)) {
            before.push(claims.last())
        } else {
            before
        }
    }
}

/// The `g`th answer: `None` where git could not be asked.
pub open spec fn answer(outputs: Seq<Option<String>>, g: int) -> Option<Seq<char>> {
    if 0 <= g < outputs.len() {
        match outputs[g] {
            Some(text) => Some(text@),
            None => None,
        }
    } else {
        None
    }
}

/// The claims in the first `n` repositories that git ignores.
pub open spec fn kept_claims(
    claims: Seq<ClaimView>,
    with_git: Seq<FsPath>,
    outputs: Seq<Option<String>>,
    platform: Platform,
    n: int,
) -> Seq<ClaimView>
    decreases n,
{
    if n <= 0 {
        Seq::empty()
    } else {
        let before = kept_claims(claims, with_git, outputs, platform, n - 1);
        match answer(outputs, n - 1) {
            Some(output) => before + ignored_claims(
                in_repo(claims, with_git, repos(claims, with_git)[n - 1]),
                output,
                platform,
            ),
            None => before,
        }
    }
}

/// The claims that git ignores. `outputs` holds git's answer for each repository
/// that [`by_repo`] lists, in the same order; a repository without an answer
/// keeps nothing.
pub fn filter_gitignored(
    claims: &Vec<Claim>,
    with_git: &Vec<FsPath>,
    outputs: &Vec<Option<String>>,
    platform: Platform,
) -> (r: Vec<Claim>)
    ensures
        claim_views(r@) == kept_claims(
            claim_views(claims@),
            with_git@,
            outputs@,
            platform,
            repos(claim_views(claims@), with_git@).len() as int,
        ),
{
    let groups = by_repo(claims, with_git);
    let ghost all = claim_views(claims@);
    let mut out: Vec<Claim> = Vec::new();
    let mut g: usize = 0;
    while g < groups.len()
        invariant
            all == claim_views(claims@),
            grouped(all, with_git@, groups@),
            g <= groups.len(),
            claim_views(out@) == kept_claims(all, with_git@, outputs@, platform, g as int),
        decreases groups.len() - g,
    {
        if g < outputs.len() {
            if let Some(output) = &outputs[g] {
                let ignored = ignored_paths(output.as_str());
                let items = &groups[g].items;
                let ghost members = claim_views(items@);
                let ghost before = claim_views(out@);
                let mut k: usize = 0;
                assert(before + ignored_claims(members.take(0), output@, platform) =~= before);
                while k < items.len()
                    invariant
                        members == claim_views(items@),
                        k <= items.len(),
                        forall|path: Seq<char>| #[trigger]
                            listed(ignored@, path) <==> names_path(output@, path),
                        claim_views(out@) == before + ignored_claims(
                            members.take(k as int),
                            output@,
                            platform,
                        ),
                    decreases items.len() - k,
                {
                    let ghost sofar = out@;
                    assert(members.take(k + 1).drop_last() =~= members.take(k as int));
                    assert(members.take(k + 1).last() == items@[k as int]@);
                    let spelling = git_path(&items[k].path, platform);
                    if contains_text(&ignored, spelling.as_str()) {
                        out.push(items[k].clone());
                        assert(claim_views(out@) =~= claim_views(sofar).push(items@[k as int]@));
                    }
                    assert(claim_views(out@) =~= before + ignored_claims(
                        members.take(k + 1),
                        output@,
                        platform,
                    ));
                    k += 1;
                }
                assert(members.take(members.len() as int) =~= members);
            }
        }
        g += 1;
    }
    out
}

// ---------------------------------------------------------------------------
// What this promises
// ---------------------------------------------------------------------------

proof fn lemma_ignored_claims(
    claims: Seq<ClaimView>,
    output: Seq<char>,
    platform: Platform,
    claim: ClaimView,
)
    ensures
        ignored_claims(claims, output, platform).contains(claim) <==> claims.contains(claim)
            && names_path(output, git_spelling(claim.path, platform)),
    decreases claims.len(),
{
    if claims.len() > 0 {
        let front = claims.drop_last();
        lemma_ignored_claims(front, output, platform, claim);
        let before = ignored_claims(front, output, platform);
        let all = ignored_claims(claims, output, platform);
        if claims.contains(claim) {
            let k = choose|k: int| 0 <= k < claims.len() && claims[k] == claim;
            if k < front.len() {
                assert(front[k] == claim);
            }
        }
        if front.contains(claim) {
            let k = choose|k: int| 0 <= k < front.len() && front[k] == claim;
            assert(claims[k] == claim);
        }
        if before.contains(claim) {
            let k = choose|k: int| 0 <= k < before.len() && before[k] == claim;
            assert(all[k] == claim);
        }
        if all.contains(claim) && !before.contains(claim) {
            assert(claim == claims.last());
            assert(claims[claims.len() - 1] == claim);
        }
        if names_path(output, git_spelling(claims.last().path, platform)) {
            assert(all[before.len() as int] == claims.last());
        }
    }
}

proof fn lemma_in_repo(
    claims: Seq<ClaimView>,
    with_git: Seq<FsPath>,
    repo: Seq<PartView>,
    claim: ClaimView,
)
    ensures
        in_repo(claims, with_git, repo).contains(claim) <==> claims.contains(claim) && repo_of(
            claim,
            with_git,
        ) == Some(repo),
    decreases claims.len(),
{
    if claims.len() > 0 {
        let front = claims.drop_last();
        lemma_in_repo(front, with_git, repo, claim);
        let before = in_repo(front, with_git, repo);
        let all = in_repo(claims, with_git, repo);
        if claims.contains(claim) {
            let k = choose|k: int| 0 <= k < claims.len() && claims[k] == claim;
            if k < front.len() {
                assert(front[k] == claim);
            }
        }
        if front.contains(claim) {
            let k = choose|k: int| 0 <= k < front.len() && front[k] == claim;
            assert(claims[k] == claim);
        }
        if before.contains(claim) {
            let k = choose|k: int| 0 <= k < before.len() && before[k] == claim;
            assert(all[k] == claim);
        }
        if all.contains(claim) && !before.contains(claim) {
            assert(claim == claims.last());
            assert(claims[claims.len() - 1] == claim);
        }
        if repo_of(claims.last(), with_git) == Some(repo) {
            assert(all[before.len() as int] == claims.last());
        }
    }
}

/// Whether git was asked about a claim's repository, the `g`th, and ignores the
/// claim.
pub open spec fn ignored_by(
    claims: Seq<ClaimView>,
    with_git: Seq<FsPath>,
    outputs: Seq<Option<String>>,
    platform: Platform,
    claim: ClaimView,
    g: int,
) -> bool {
    &&& repo_of(claim, with_git) == Some(repos(claims, with_git)[g])
    &&& answer(outputs, g) matches Some(output) && names_path(
        output,
        git_spelling(claim.path, platform),
    )
}

/// A gated claim is kept if and only if it lies in a repository whose git ignores
/// it; in particular, one outside any repository never is.
pub proof fn law_kept_means_ignored(
    claims: Seq<ClaimView>,
    with_git: Seq<FsPath>,
    outputs: Seq<Option<String>>,
    platform: Platform,
    claim: ClaimView,
    n: int,
)
    requires
        0 <= n <= repos(claims, with_git).len(),
    ensures
        kept_claims(claims, with_git, outputs, platform, n).contains(claim) <==> claims.contains(
            claim,
        ) && exists|g: int|
            0 <= g < n && #[trigger] ignored_by(claims, with_git, outputs, platform, claim, g),
    decreases n,
{
    if n > 0 {
        law_kept_means_ignored(claims, with_git, outputs, platform, claim, n - 1);
        let before = kept_claims(claims, with_git, outputs, platform, n - 1);
        let all = kept_claims(claims, with_git, outputs, platform, n);
        let repo = repos(claims, with_git)[n - 1];
        let members = in_repo(claims, with_git, repo);
        lemma_in_repo(claims, with_git, repo, claim);
        if let Some(output) = answer(outputs, n - 1) {
            lemma_ignored_claims(members, output, platform, claim);
            let added = ignored_claims(members, output, platform);
            if before.contains(claim) {
                let k = choose|k: int| 0 <= k < before.len() && before[k] == claim;
                assert(all[k] == claim);
            }
            if added.contains(claim) {
                let k = choose|k: int| 0 <= k < added.len() && added[k] == claim;
                assert(all[before.len() + k] == claim);
                assert(ignored_by(claims, with_git, outputs, platform, claim, n - 1));
            }
            if all.contains(claim) {
                let k = choose|k: int| 0 <= k < all.len() && all[k] == claim;
                if k < before.len() {
                    assert(before[k] == claim);
                } else {
                    assert(added[k - before.len()] == claim);
                }
            }
        }
        if exists|g: int|
            0 <= g < n && #[trigger] ignored_by(claims, with_git, outputs, platform, claim, g) {
            let g = choose|g: int|
                0 <= g < n && #[trigger] ignored_by(
                    claims,
                    with_git,
                    outputs,
                    platform,
                    claim,
                    g,
                );
            if g < n - 1 {
                assert(0 <= g < n - 1 && ignored_by(
                    claims,
                    with_git,
                    outputs,
                    platform,
                    claim,
                    g,
                ));
            }
        }
        if before.contains(claim) {
            let g = choose|g: int|
                0 <= g < n - 1 && #[trigger] ignored_by(
                    claims,
                    with_git,
                    outputs,
                    platform,
                    claim,
                    g,
                );
            assert(0 <= g < n && ignored_by(claims, with_git, outputs, platform, claim, g));
        }
    }
}

/// The repository found for a path is a directory that holds one, and the path's
/// own directory lies inside it.
pub proof fn law_repo_is_above(start: Seq<PartView>, with_git: Seq<FsPath>)
    ensures
        nearest_repo(start, with_git) matches Some(repo) ==> listed_path(with_git, repo) && within(
            start,
            repo,
        ),
    decreases start.len(),
{
    if !listed_path(with_git, start) {
        if let Some(up) = parent_path(start) {
            law_repo_is_above(up, with_git);
            if let Some(repo) = nearest_repo(up, with_git) {
                assert(start.subrange(0, repo.len() as int) =~= up.subrange(0, repo.len() as int));
            }
        }
    }
}

/// Git is handed a path as it is spelled; on Windows every backslash becomes a slash,
/// and nothing else changes.
pub proof fn law_git_speaks_slashes(path: Seq<PartView>, platform: Platform, i: int)
    ensures
        git_spelling(path, platform).len() == spelled(path, separator(platform)).len(),
        !(platform is Windows) ==> git_spelling(path, platform) == spelled(
            path,
            separator(platform),
        ),
        0 <= i < git_spelling(path, platform).len() && platform is Windows ==> git_spelling(
            path,
            platform,
        )[i] == (if spelled(path, separator(platform))[i] == '\\' {
            '/'
        } else {
            spelled(path, separator(platform))[i]
        }),
{
}

/// The search for a repository looks at a directory first, and then where it would
/// look for its parent's.
pub proof fn law_the_search_goes_up(start: Seq<PartView>, name: Seq<char>)
    ensures
        upwards(start.push(PartView::Normal(name))) == seq![
            start.push(PartView::Normal(name)),
        ] + upwards(start),
        upwards(start)[0] == start,
        beside(start.push(PartView::Normal(name))) == start,
{
    let down = start.push(PartView::Normal(name));
    assert(down.drop_last() =~= start);
    assert(parent_path(down) == Some(start));
}

/// The repository is the nearest one: whatever directory on the way up holds one,
/// the search ends there or below it.
pub proof fn law_the_nearest_repository_is_taken(
    start: Seq<PartView>,
    with_git: Seq<FsPath>,
    k: int,
    g: int,
)
    requires
        0 <= k < upwards(start).len(),
        0 <= g < with_git.len(),
        with_git[g]@ == upwards(start)[k],
    ensures
        nearest_repo(start, with_git) is Some,
        exists|j: int|
            0 <= j <= k && #[trigger] upwards(start)[j] == nearest_repo(start, with_git)->0,
    decreases start.len(),
{
    let all = upwards(start);
    if listed_path(with_git, start) {
        assert(all[0] == start);
    } else {
        assert(with_git[g]@ != start);
        let up = parent_path(start)->0;
        let rest = upwards(up);
        assert(all[k] == rest[k - 1]);
        law_the_nearest_repository_is_taken(up, with_git, k - 1, g);
        let j = choose|j: int|
            0 <= j <= k - 1 && #[trigger] rest[j] == nearest_repo(up, with_git)->0;
        assert(all[j + 1] == rest[j]);
    }
}

/// Without a repository on the way up there is none.
pub proof fn law_no_repository_is_made_up(start: Seq<PartView>, with_git: Seq<FsPath>)
    requires
        forall|k: int, g: int|
            0 <= k < upwards(start).len() && 0 <= g < with_git.len() ==> #[trigger] upwards(
                start,
            )[k] != (#[trigger] with_git[g])@,
    ensures
        nearest_repo(start, with_git) is None,
    decreases start.len(),
{
    let all = upwards(start);
    assert(all[0] == start);
    if listed_path(with_git, start) {
        let g = choose|g: int| 0 <= g < with_git.len() && (#[trigger] with_git[g])@ == start;
        assert(all[0] != with_git[g]@);
    }
    if let Some(up) = parent_path(start) {
        assert forall|k: int, g: int|
            0 <= k < upwards(up).len() && 0 <= g < with_git.len() implies #[trigger] upwards(up)[k]
            != (#[trigger] with_git[g])@ by {
            assert(all[k + 1] == upwards(up)[k]);
            assert(all[k + 1] != with_git[g]@);
        }
        law_no_repository_is_made_up(up, with_git);
    }
}

/// Git is asked about each repository once, and about every repository that holds a
/// claim.
pub proof fn law_every_repository_is_asked_once(
    claims: Seq<ClaimView>,
    with_git: Seq<FsPath>,
    repo: Seq<PartView>,
)
    ensures
        repos(claims, with_git).contains(repo) <==> exists|i: int|
            0 <= i < claims.len() && nearest_repo(beside((#[trigger] claims[i]).path), with_git)
                == Some(repo),
        forall|a: int, b: int|
            0 <= a < b < repos(claims, with_git).len() ==> #[trigger] repos(claims, with_git)[a]
                != #[trigger] repos(claims, with_git)[b],
    decreases claims.len(),
{
    lemma_repos(claims, with_git);
    if claims.len() > 0 {
        let front = claims.drop_last();
        law_every_repository_is_asked_once(front, with_git, repo);
        let before = repos(front, with_git);
        let all = repos(claims, with_git);
        if all.contains(repo) {
            if before.contains(repo) {
                let i = choose|i: int|
                    0 <= i < front.len() && nearest_repo(
                        beside((#[trigger] front[i]).path),
                        with_git,
                    ) == Some(repo);
                assert(front[i] == claims[i]);
            } else {
                assert(repo_of(claims[claims.len() - 1], with_git) == Some(repo));
            }
        }
        if exists|i: int|
            0 <= i < claims.len() && nearest_repo(beside((#[trigger] claims[i]).path), with_git)
                == Some(repo) {
            let i = choose|i: int|
                0 <= i < claims.len() && nearest_repo(beside((#[trigger] claims[i]).path), with_git)
                    == Some(repo);
            assert(repo_of(claims[i], with_git) == Some(repo));
        }
    }
}

/// The claims of a repository are handed over in their order, and no others.
pub proof fn law_claims_go_to_their_repository(
    claims: Seq<ClaimView>,
    claim: ClaimView,
    with_git: Seq<FsPath>,
    repo: Seq<PartView>,
)
    ensures
        in_repo(Seq::empty(), with_git, repo).len() == 0,
        nearest_repo(beside(claim.path), with_git) == Some(repo) ==> in_repo(
            claims.push(claim),
            with_git,
            repo,
        ) == in_repo(claims, with_git, repo).push(claim),
        nearest_repo(beside(claim.path), with_git) != Some(repo) ==> in_repo(
            claims.push(claim),
            with_git,
            repo,
        ) == in_repo(claims, with_git, repo),
{
    let more = claims.push(claim);
    assert(more.drop_last() =~= claims);
    assert(more.last() == claim);
}

/// Git is handed one line for each claim.
pub proof fn law_each_claim_is_a_line(
    claims: Seq<ClaimView>,
    claim: ClaimView,
    platform: Platform,
)
    ensures
        payload(Seq::empty(), platform).len() == 0,
        payload(seq![claim], platform) == git_spelling(claim.path, platform),
        claims.len() > 0 ==> payload(claims.push(claim), platform) == payload(claims, platform)
            + seq!['\n'] + git_spelling(claim.path, platform),
{
    let more = claims.push(claim);
    assert(more.drop_last() =~= claims);
    assert(more.last() == claim);
}

/// Whether the answer for the `g`th repository echoes a claim's path on some line,
/// and that repository is the claim's.
pub open spec fn echoed(
    claims: Seq<ClaimView>,
    with_git: Seq<FsPath>,
    outputs: Seq<Option<String>>,
    platform: Platform,
    claim: ClaimView,
    g: int,
    i: int,
) -> bool {
    &&& 0 <= g < repos(claims, with_git).len()
    &&& nearest_repo(beside(claim.path), with_git) == Some(repos(claims, with_git)[g])
    &&& g < outputs.len()
    &&& outputs[g] is Some
    &&& 0 <= i < lines(outputs[g]->0@).len()
    &&& trimmed(lines(outputs[g]->0@)[i]) == git_spelling(claim.path, platform)
    &&& git_spelling(claim.path, platform).len() > 0
}

/// A claim that needs git's word counts exactly if git, asked about the claim's own
/// repository, echoes its path on some line.
pub proof fn law_git_has_the_last_word(
    claims: Seq<ClaimView>,
    with_git: Seq<FsPath>,
    outputs: Seq<Option<String>>,
    platform: Platform,
    claim: ClaimView,
)
    ensures
        kept_claims(
            claims,
            with_git,
            outputs,
            platform,
            repos(claims, with_git).len() as int,
        ).contains(claim) <==> claims.contains(claim) && exists|g: int, i: int| #[trigger]
            echoed(claims, with_git, outputs, platform, claim, g, i),
{
    let n = repos(claims, with_git).len() as int;
    law_kept_means_ignored(claims, with_git, outputs, platform, claim, n);
    if exists|g: int|
        0 <= g < n && #[trigger] ignored_by(claims, with_git, outputs, platform, claim, g) {
        let g = choose|g: int|
            0 <= g < n && #[trigger] ignored_by(claims, with_git, outputs, platform, claim, g);
        let output = answer(outputs, g)->0;
        let spelling = git_spelling(claim.path, platform);
        let i = choose|i: int|
            0 <= i < lines(output).len() && trimmed(#[trigger] lines(output)[i]) == spelling;
        assert(echoed(claims, with_git, outputs, platform, claim, g, i));
    }
    if exists|g: int, i: int| #[trigger]
        echoed(claims, with_git, outputs, platform, claim, g, i) {
        let (g, i) = choose|g: int, i: int| #[trigger]
            echoed(claims, with_git, outputs, platform, claim, g, i);
        let output = outputs[g]->0@;
        assert(answer(outputs, g) == Some(output));
        assert(trimmed(lines(output)[i]) == git_spelling(claim.path, platform));
        assert(names_path(output, git_spelling(claim.path, platform)));
        assert(ignored_by(claims, with_git, outputs, platform, claim, g));
    }
}

/// Bucketing loses no claim that lies in a repository: it is in the group of that
/// repository, and no repository has two groups.
pub proof fn law_every_claim_has_its_group(
    claims: Seq<ClaimView>,
    with_git: Seq<FsPath>,
    groups: Seq<RepoGroup>,
    i: int,
    repo: Seq<PartView>,
)
    requires
        grouped(claims, with_git, groups),
        0 <= i < claims.len(),
        nearest_repo(beside(claims[i].path), with_git) == Some(repo),
    ensures
        exists|g: int|
            0 <= g < groups.len() && (#[trigger] groups[g]).repo@ == repo && claim_views(
                groups[g].items@,
            ).contains(claims[i]),
        forall|a: int, b: int|
            0 <= a < b < groups.len() ==> (#[trigger] groups[a]).repo@ != (
            #[trigger] groups[b]).repo@,
{
    let all = repos(claims, with_git);
    law_every_repository_is_asked_once(claims, with_git, repo);
    assert(all.contains(repo));
    let g = choose|g: int| 0 <= g < all.len() && all[g] == repo;
    assert(groups[g].repo@ == all[g]);
    lemma_in_repo(claims, with_git, repo, claims[i]);
    assert(claims.contains(claims[i]));
    assert forall|a: int, b: int| 0 <= a < b < groups.len() implies (#[trigger] groups[a]).repo@ != (
    #[trigger] groups[b]).repo@ by {
        assert(all[a] != all[b]);
    }
}

} // verus!
