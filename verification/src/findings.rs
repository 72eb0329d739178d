//! Findings: directories the rules claim, ready to be shown on the map.
//!
//! A matched directory is marked, not pruned: the tree keeps what is inside. Rule
//! hits inside other rule hits are dropped, so that nothing is counted twice.
use vstd::prelude::*;

use crate::claims::{
    all_claims, artifact_claims, candidates, claim_views, claims_candidate, is_user_excluded,
    law_claims_are_searched, user_excluded, Claim, ClaimView,
};
use crate::gitignore::{
    filter_gitignored, kept_claims, law_kept_means_ignored, repos,
};
use crate::guard::{path_is_protected, protection};
use crate::order::{
    lemma_inside_between, lemma_path_antisymmetric, lemma_path_total, lemma_path_transitive,
    lemma_prefix_first, path_before, path_le, sorts_before, stable_order, stable_sort, Ranked,
};
use crate::path::{absolute, formed, within, FsPath, PartView, Platform};
use crate::rollup::{
    hangs_under, law_root_holds_everything, law_unrelated_subtrees_fit, sums_at, unrelated,
};
use crate::rules::{
    law_rules_apply_where_they_say, rule_views, ArtifactMatcher, ArtifactRuleView, Rules, StaticRule,
};
use crate::scan::{
    arena, find_node, law_found_paths_go_down, lemma_arena_topological, no_node_leads_up, node_at,
    node_names, node_path, own_sizes, parent_first, parent_indices, totals_fit, Tree,
};
use crate::text::{contains_text, listed};

verus! {

/// A directory the rules claim.
#[derive(Debug)]
pub struct Finding {
    pub node: u32,
    pub path: FsPath,
    pub rule_id: String,
    pub tier: String,
    pub label: String,
    pub regen: String,
    pub warn: String,
    pub size: u64,
    /// `static` for a place on the disk, `project` for a kind of directory.
    pub source: &'static str,
}

/// What a [`Finding`] says.
pub struct FindingView {
    pub node: u32,
    pub path: Seq<PartView>,
    pub rule_id: Seq<char>,
    pub tier: Seq<char>,
    pub label: Seq<char>,
    pub regen: Seq<char>,
    pub warn: Seq<char>,
    pub size: u64,
    pub source: Seq<char>,
}

impl View for Finding {
    type V = FindingView;

    open spec fn view(&self) -> FindingView {
        FindingView {
            node: self.node,
            path: self.path@,
            rule_id: self.rule_id@,
            tier: self.tier@,
            label: self.label@,
            regen: self.regen@,
            warn: self.warn@,
            size: self.size,
            source: self.source@,
        }
    }
}

impl Clone for Finding {
    fn clone(&self) -> (r: Self)
        ensures
            r@ == self@,
    {
        Finding {
            node: self.node,
            path: self.path.clone(),
            rule_id: self.rule_id.clone(),
            tier: self.tier.clone(),
            label: self.label.clone(),
            regen: self.regen.clone(),
            warn: self.warn.clone(),
            size: self.size,
            source: self.source,
        }
    }
}

impl Ranked for Finding {
    open spec fn ranks_le(&self, other: &Self) -> bool {
        path_le(self.path@, other.path@)
    }

    proof fn ranks_total(&self, other: &Self) {
        lemma_path_total(self.path@, other.path@);
    }

    proof fn ranks_transitive(&self, mid: &Self, other: &Self) {
        lemma_path_transitive(self.path@, mid.path@, other.path@);
    }

    fn no_later(&self, other: &Self) -> (r: bool) {
        path_before(&self.path, &other.path)
    }
}

/// What a list of findings says.
pub open spec fn finding_views(findings: Seq<Finding>) -> Seq<FindingView> {
    findings.map_values(|finding: Finding| finding@)
}

// ---------------------------------------------------------------------------
// Static rules
// ---------------------------------------------------------------------------

/// Whether a rule is used at all.
pub open spec fn active(rule: StaticRule, platform: Platform, include_system: bool) -> bool {
    rule.applies(platform) && (!rule.system || include_system)
}

/// Whether a finding already holds this path.
pub open spec fn claimed(found: Seq<FindingView>, path: Seq<PartView>) -> bool {
    exists|k: int| 0 <= k < found.len() && (#[trigger] found[k]).path == path
}

/// Whether a path may be offered: it was not left out, nothing protects it, and
/// it was scanned.
pub open spec fn offered(tree: Tree, home: Seq<PartView>, path: Seq<PartView>) -> bool {
    &&& !user_excluded(tree, path)
    &&& protection(path, home).len() == 0
    &&& node_at(tree, path) is Some
}

/// The finding of a static rule at a path.
pub open spec fn static_finding(
    tree: Tree,
    rule: StaticRule,
    path: Seq<PartView>,
) -> FindingView {
    let node = node_at(tree, path)->0;
    FindingView {
        node,
        path,
        rule_id: rule.id@,
        tier: rule.tier@,
        label: rule.label@,
        regen: rule.regen@,
        warn: rule.warn@,
        size: tree.nodes@[node as int].total_size,
        source: "static"@,
    }
}

/// The findings after the first `n` targets of a rule have been looked at. The
/// first rule to claim a path wins.
pub open spec fn after_targets(
    tree: Tree,
    home: Seq<PartView>,
    rule: StaticRule,
    found: Seq<FindingView>,
    targets: Seq<FsPath>,
    n: int,
) -> Seq<FindingView>
    decreases n,
{
    if n <= 0 {
        found
    } else {
        let before = after_targets(tree, home, rule, found, targets, n - 1);
        let target = targets[n - 1]@;
        if offered(tree, home, target) && !claimed(before, target) {
            before.push(static_finding(tree, rule, target))
        } else {
            before
        }
    }
}

/// The targets of the `r`th rule: none where none were reported.
pub open spec fn targets_of(targets: Seq<Vec<FsPath>>, r: int) -> Seq<FsPath> {
    if 0 <= r < targets.len() {
        targets[r]@
    } else {
        Seq::empty()
    }
}

/// The findings of the first `n` static rules.
pub open spec fn after_rules(
    tree: Tree,
    home: Seq<PartView>,
    platform: Platform,
    include_system: bool,
    rules: Seq<StaticRule>,
    targets: Seq<Vec<FsPath>>,
    n: int,
) -> Seq<FindingView>
    decreases n,
{
    if n <= 0 {
        Seq::empty()
    } else {
        let before = after_rules(tree, home, platform, include_system, rules, targets, n - 1);
        if active(rules[n - 1], platform, include_system) {
            let mine = targets_of(targets, n - 1);
            after_targets(tree, home, rules[n - 1], before, mine, mine.len() as int)
        } else {
            before
        }
    }
}

/// Whether a finding already holds this path.
fn is_claimed(found: &Vec<Finding>, path: &FsPath) -> (r: bool)
    ensures
        r == claimed(finding_views(found@), path@),
{
    let ghost views = finding_views(found@);
    let mut k: usize = 0;
    while k < found.len()
        invariant
            k <= found.len(),
            views == finding_views(found@),
            forall|m: int| 0 <= m < k ==> (#[trigger] views[m]).path != path@,
        decreases found.len() - k,
    {
        assert(views[k as int] == found@[k as int]@);
        if found[k].path.same(path) {
            return true;
        }
        k += 1;
    }
    false
}

/// Map what the static rules point at onto tree nodes.
///
/// `targets` holds, for each rule in turn, the paths that it points at. Order
/// matters: the table lists specific rules before generic ones, and the first
/// rule to claim a path wins.
pub fn static_findings(
    tree: &Tree,
    home: &FsPath,
    platform: Platform,
    include_system: bool,
    rules: &Rules,
    targets: &Vec<Vec<FsPath>>,
) -> (r: Vec<Finding>)
    requires
        arena(tree.nodes@),
    ensures
        finding_views(r@) == after_rules(
            *tree,
            home@,
            platform,
            include_system,
            rules.statics@,
            targets@,
            rules.statics@.len() as int,
        ),
{
    let mut out: Vec<Finding> = Vec::new();
    let mut n: usize = 0;
    assert(finding_views(out@) =~= Seq::empty());
    while n < rules.statics.len()
        invariant
            arena(tree.nodes@),
            n <= rules.statics.len(),
            finding_views(out@) == after_rules(
                *tree,
                home@,
                platform,
                include_system,
                rules.statics@,
                targets@,
                n as int,
            ),
        decreases rules.statics.len() - n,
    {
        let rule = &rules.statics[n];
        let ghost start = finding_views(out@);
        let ghost mine = targets_of(targets@, n as int);
        if rule.applies_here(platform) && (!rule.system || include_system) && n < targets.len() {
            let mut t: usize = 0;
            while t < targets[n as usize].len()
                invariant
                    arena(tree.nodes@),
                    n < targets.len(),
                    mine == targets@[n as int]@,
                    t <= mine.len(),
                    finding_views(out@) == after_targets(
                        *tree,
                        home@,
                        *rule,
                        start,
                        mine,
                        t as int,
                    ),
                decreases mine.len() - t,
            {
                let target = &targets[n][t];
                let ghost before = out@;
                if !is_user_excluded(tree, target) && !is_claimed(&out, target) {
                    let reason = path_is_protected(target, home);
                    if reason.as_str().is_empty() {
                        if let Some(node) = find_node(tree, target) {
                            out.push(
                                Finding {
                                    node,
                                    path: target.clone(),
                                    rule_id: rule.id.clone(),
                                    tier: rule.tier.clone(),
                                    label: rule.label.clone(),
                                    regen: rule.regen.clone(),
                                    warn: rule.warn.clone(),
                                    size: tree.nodes[node as usize].total_size,
                                    source: "static",
                                },
                            );
                            assert(finding_views(out@) =~= finding_views(before).push(
                                static_finding(*tree, *rule, target@),
                            ));
                        }
                    }
                }
                t += 1;
            }
        }
        n += 1;
    }
    out
}

// ---------------------------------------------------------------------------
// Artifact rules
// ---------------------------------------------------------------------------

/// The finding that a claim amounts to.
pub open spec fn project_finding(tree: Tree, claim: ClaimView) -> FindingView {
    FindingView {
        node: claim.node,
        path: claim.path,
        rule_id: claim.rule.id,
        tier: claim.rule.tier,
        label: claim.rule.label,
        regen: claim.rule.regen,
        warn: ""@,
        size: tree.nodes@[claim.node as int].total_size,
        source: "project"@,
    }
}

/// What the disk and git said when they were asked.
#[derive(Debug)]
pub struct Evidence {
    /// For each candidate in turn, the wanted names that exist in it.
    pub inside: Vec<Vec<String>>,
    /// The directories that hold a repository.
    pub with_git: Vec<FsPath>,
    /// For each repository with gated claims in turn, git's answer.
    pub ignored: Vec<Option<String>>,
    /// For each static rule in turn, the paths that it points at.
    pub targets: Vec<Vec<FsPath>>,
}

/// The claims that count: those that need no more proof, then those that git
/// ignores.
pub open spec fn settled_claims(
    tree: Tree,
    platform: Platform,
    rules: Seq<ArtifactRuleView>,
    evidence: Evidence,
) -> Seq<ClaimView> {
    let deferred = all_claims(tree, rules, evidence.inside@, true);
    all_claims(tree, rules, evidence.inside@, false) + kept_claims(
        deferred,
        evidence.with_git@,
        evidence.ignored@,
        platform,
        repos(deferred, evidence.with_git@).len() as int,
    )
}

/// What a list of claims amounts to.
pub open spec fn project_findings(tree: Tree, claims: Seq<ClaimView>) -> Seq<FindingView> {
    claims.map_values(|claim: ClaimView| project_finding(tree, claim))
}

/// Turn claims into findings, behind those in `out`.
fn add_findings(tree: &Tree, claims: &Vec<Claim>, out: &mut Vec<Finding>)
    requires
        forall|k: int|
            0 <= k < claims@.len() ==> (#[trigger] claims@[k]).node < tree.nodes@.len(),
    ensures
        finding_views(final(out)@) == finding_views(old(out)@) + project_findings(
            *tree,
            claim_views(claims@),
        ),
{
    let ghost before = finding_views(out@);
    let ghost views = project_findings(*tree, claim_views(claims@));
    let mut k: usize = 0;
    assert(before + views.take(0) =~= before);
    while k < claims.len()
        invariant
            k <= claims.len(),
            views == project_findings(*tree, claim_views(claims@)),
            forall|m: int|
                0 <= m < claims@.len() ==> (#[trigger] claims@[m]).node < tree.nodes@.len(),
            finding_views(out@) == before + views.take(k as int),
        decreases claims.len() - k,
    {
        let claim = &claims[k];
        let ghost sofar = out@;
        out.push(
            Finding {
                node: claim.node,
                path: claim.path.clone(),
                rule_id: claim.rule.id.clone(),
                tier: claim.rule.tier.clone(),
                label: claim.rule.label.clone(),
                regen: claim.rule.regen.clone(),
                warn: "".to_string(),
                size: tree.nodes[claim.node as usize].total_size,
                source: "project",
            },
        );
        assert(views[k as int] == project_finding(*tree, claim@));
        assert(finding_views(out@) =~= finding_views(sofar).push(views[k as int]));
        assert(before + views.take(k + 1) =~= (before + views.take(k as int)).push(
            views[k as int],
        ));
        k += 1;
    }
    assert(views.take(views.len() as int) =~= views);
}

/// The artifacts of a tree: what the claims that count amount to, without those
/// inside another of them.
pub open spec fn artifacts(
    tree: Tree,
    platform: Platform,
    rules: Seq<ArtifactRuleView>,
    evidence: Evidence,
) -> Seq<FindingView> {
    let all = project_findings(tree, settled_claims(tree, platform, rules, evidence));
    survivors(all, all.len() as int)
}

/// Artifact hits in the tree, with the gitignore-gated candidates resolved. Nothing
/// inside a claimed artifact is claimed again.
pub fn artifact_findings(tree: &Tree, platform: Platform, rules: &Rules, evidence: &Evidence) -> (r:
    Vec<Finding>)
    requires
        arena(tree.nodes@),
    ensures
        finding_views(r@) == artifacts(*tree, platform, rule_views(rules.artifacts@), *evidence),
{
    let matcher = ArtifactMatcher::new(rules);
    let claims = artifact_claims(tree, &matcher, &evidence.inside);
    let kept = filter_gitignored(
        &claims.deferred,
        &evidence.with_git,
        &evidence.ignored,
        platform,
    );
    let mut out: Vec<Finding> = Vec::new();
    proof {
        lemma_claims_in_tree(*tree, matcher@, evidence.inside@, false);
        lemma_claims_in_tree(*tree, matcher@, evidence.inside@, true);
        let deferred = claim_views(claims.deferred@);
        let direct = claim_views(claims.direct@);
        let kept_views = claim_views(kept@);
        assert forall|k: int| 0 <= k < kept@.len() implies (#[trigger] kept@[k]).node
            < tree.nodes@.len() by {
            assert(kept_views[k] == kept@[k]@);
            assert(kept_views.contains(kept@[k]@));
            law_kept_means_ignored(
                deferred,
                evidence.with_git@,
                evidence.ignored@,
                platform,
                kept@[k]@,
                repos(deferred, evidence.with_git@).len() as int,
            );
            let m = choose|m: int| 0 <= m < deferred.len() && deferred[m] == kept@[k]@;
            assert(deferred[m].node < tree.nodes@.len());
        }
        assert forall|k: int| 0 <= k < claims.direct@.len() implies (
        #[trigger] claims.direct@[k]).node < tree.nodes@.len() by {
            assert(direct[k] == claims.direct@[k]@);
        }
    }
    add_findings(tree, &claims.direct, &mut out);
    add_findings(tree, &kept, &mut out);
    proof {
        let a = claim_views(claims.direct@);
        let b = claim_views(kept@);
        assert(finding_views(out@) =~= project_findings(*tree, a + b));
    }
    outer_findings(&out)
}

proof fn lemma_claims_in_tree(
    tree: Tree,
    rules: Seq<ArtifactRuleView>,
    inside: Seq<Vec<String>>,
    gated: bool,
)
    requires
        arena(tree.nodes@),
    ensures
        forall|k: int|
            0 <= k < all_claims(tree, rules, inside, gated).len() ==> (#[trigger] all_claims(
                tree,
                rules,
                inside,
                gated,
            )[k]).node < tree.nodes@.len(),
{
    law_claims_are_searched(
        tree,
        rules,
        inside,
        gated,
        candidates(tree, rules, tree.nodes@.len() as int).len() as int,
    );
}

// ---------------------------------------------------------------------------
// Nested findings
// ---------------------------------------------------------------------------

/// Whether finding `j` makes finding `i` superfluous: `i` lies inside it, or is
/// at the same path and came later.
pub open spec fn covers(all: Seq<FindingView>, j: int, i: int) -> bool {
    within(all[i].path, all[j].path) && (all[i].path == all[j].path ==> j < i)
}

/// Whether no other finding makes finding `i` superfluous.
pub open spec fn survives(all: Seq<FindingView>, i: int) -> bool {
    0 <= i < all.len() && forall|j: int|
        0 <= j < all.len() && j != i ==> !#[trigger] covers(all, j, i)
}

/// Those of the first `n` findings that no other one makes superfluous, in their
/// order.
pub open spec fn survivors(all: Seq<FindingView>, n: int) -> Seq<FindingView>
    decreases n,
{
    if n <= 0 {
        Seq::empty()
    } else if survives(all, n - 1) {
        survivors(all, n - 1).push(all[n - 1])
    } else {
        survivors(all, n - 1)
    }
}

/// Whether no other finding makes finding `i` superfluous.
fn is_outer(all: &Vec<Finding>, i: usize) -> (r: bool)
    requires
        i < all.len(),
    ensures
        r == survives(finding_views(all@), i as int),
{
    let ghost views = finding_views(all@);
    let mut j: usize = 0;
    while j < all.len()
        invariant
            j <= all.len(),
            i < all.len(),
            views == finding_views(all@),
            forall|m: int| 0 <= m < j && m != i ==> !#[trigger] covers(views, m, i as int),
        decreases all.len() - j,
    {
        assert(views[i as int] == all@[i as int]@ && views[j as int] == all@[j as int]@);
        if j != i && all[i].path.starts_with(&all[j].path) && (j < i || !all[i].path.same(
            &all[j].path,
        )) {
            assert(covers(views, j as int, i as int));
            return false;
        }
        j += 1;
    }
    true
}

/// The findings that no other one makes superfluous, in their order.
fn outer_findings(all: &Vec<Finding>) -> (r: Vec<Finding>)
    ensures
        finding_views(r@) == survivors(finding_views(all@), all@.len() as int),
{
    let ghost views = finding_views(all@);
    let mut out: Vec<Finding> = Vec::new();
    let mut i: usize = 0;
    assert(finding_views(out@) =~= survivors(views, 0));
    while i < all.len()
        invariant
            i <= all.len(),
            views == finding_views(all@),
            finding_views(out@) == survivors(views, i as int),
        decreases all.len() - i,
    {
        if is_outer(all, i) {
            let ghost before = out@;
            out.push(all[i].clone());
            assert(finding_views(out@) =~= finding_views(before).push(views[i as int]));
        }
        i += 1;
    }
    out
}

/// Where the survivors stood.
proof fn lemma_survivors(all: Seq<FindingView>, n: int) -> (at: Seq<int>)
    requires
        0 <= n <= all.len(),
    ensures
        at.len() == survivors(all, n).len(),
        forall|k: int|
            0 <= k < at.len() ==> 0 <= #[trigger] at[k] < n && survives(all, at[k]) && survivors(
                all,
                n,
            )[k] == all[at[k]],
        forall|a: int, b: int| 0 <= a < b < at.len() ==> #[trigger] at[a] < #[trigger] at[b],
        forall|i: int|
            0 <= i < n && #[trigger] survives(all, i) ==> survivors(all, n).contains(all[i]),
    decreases n,
{
    if n <= 0 {
        Seq::empty()
    } else {
        let before = lemma_survivors(all, n - 1);
        let front = survivors(all, n - 1);
        let now = survivors(all, n);
        assert forall|i: int| 0 <= i < n && #[trigger] survives(all, i) implies now.contains(
            all[i],
        ) by {
            if i < n - 1 {
                let k = choose|k: int| 0 <= k < front.len() && front[k] == all[i];
                assert(now[k] == all[i]);
            } else {
                assert(now[front.len() as int] == all[i]);
            }
        }
        if survives(all, n - 1) {
            before.push(n - 1)
        } else {
            before
        }
    }
}

/// Nothing inside a claimed artifact is claimed again: no artifact lies inside
/// another.
pub proof fn law_artifacts_are_not_nested(
    tree: Tree,
    platform: Platform,
    rules: Seq<ArtifactRuleView>,
    evidence: Evidence,
)
    ensures
        forall|a: int, b: int|
            0 <= a < artifacts(tree, platform, rules, evidence).len() && 0 <= b < artifacts(
                tree,
                platform,
                rules,
                evidence,
            ).len() && a != b ==> !within(
                (#[trigger] artifacts(tree, platform, rules, evidence)[a]).path,
                (#[trigger] artifacts(tree, platform, rules, evidence)[b]).path,
            ),
{
    let all = project_findings(tree, settled_claims(tree, platform, rules, evidence));
    let kept = artifacts(tree, platform, rules, evidence);
    let at = lemma_survivors(all, all.len() as int);
    assert forall|a: int, b: int|
        0 <= a < kept.len() && 0 <= b < kept.len() && a != b implies !within(
        (#[trigger] kept[a]).path,
        (#[trigger] kept[b]).path,
    ) by {
        let i = at[a];
        let j = at[b];
        assert(i != j) by {
            if a < b {
                assert(at[a] < at[b]);
            } else {
                assert(at[b] < at[a]);
            }
        }
        assert(survives(all, i) && survives(all, j));
        assert(!covers(all, j, i));
        assert(!covers(all, i, j));
        lemma_within_itself(all[i].path);
    }
}

/// Only what lies inside a claimed artifact is passed over: whatever the claims
/// that count amount to is an artifact of the tree or lies inside one. So a
/// directory in one that git does not ignore is claimed as any other.
pub proof fn law_only_nested_artifacts_are_passed_over(
    tree: Tree,
    platform: Platform,
    rules: Seq<ArtifactRuleView>,
    evidence: Evidence,
    i: int,
)
    requires
        0 <= i < settled_claims(tree, platform, rules, evidence).len(),
    ensures
        exists|k: int|
            0 <= k < artifacts(tree, platform, rules, evidence).len() && within(
                settled_claims(tree, platform, rules, evidence)[i].path,
                (#[trigger] artifacts(tree, platform, rules, evidence)[k]).path,
            ),
{
    let settled = settled_claims(tree, platform, rules, evidence);
    let all = project_findings(tree, settled);
    let kept = artifacts(tree, platform, rules, evidence);
    let at = lemma_survivors(all, all.len() as int);
    let s = lemma_someone_covers(all, i);
    assert(kept.contains(all[s]));
    let k = choose|k: int| 0 <= k < kept.len() && kept[k] == all[s];
    assert(all[i].path == settled[i].path);
    assert(within(settled[i].path, kept[k].path));
}

/// Whether finding `a` stands strictly in front of finding `b`.
pub open spec fn steps_up(kept: Seq<FindingView>, a: int, b: int) -> bool {
    path_le(kept[a].path, kept[b].path) && kept[a].path != kept[b].path
}

/// Whether a finding is one of the survivors.
pub open spec fn is_survivor(all: Seq<FindingView>, finding: FindingView) -> bool {
    exists|i: int| #[trigger] survives(all, i) && all[i] == finding
}

/// Whether `kept` holds the outermost findings of `all`, each once, ordered by
/// path.
pub open spec fn outermost(all: Seq<FindingView>, kept: Seq<FindingView>) -> bool {
    &&& forall|a: int, b: int| 0 <= a < b < kept.len() ==> #[trigger] steps_up(kept, a, b)
    &&& forall|k: int| 0 <= k < kept.len() ==> is_survivor(all, #[trigger] kept[k])
    &&& forall|i: int| #[trigger] survives(all, i) ==> kept.contains(all[i])
}

/// Whether kept finding `m` does not lie inside kept finding `k`.
spec fn apart(kept: Seq<FindingView>, k: int, m: int) -> bool {
    !within(kept[m].path, kept[k].path)
}

/// Whether the `q`th finding in order lies inside one that was kept before it, or
/// was itself kept.
spec fn accounted(
    all: Seq<FindingView>,
    order: Seq<usize>,
    kept: Seq<FindingView>,
    pos: Seq<int>,
    q: int,
) -> bool {
    exists|k: int|
        0 <= k < pos.len() && #[trigger] pos[k] <= q && within(
            all[order[q] as int].path,
            kept[k].path,
        )
}

proof fn lemma_within_itself(path: Seq<PartView>)
    ensures
        within(path, path),
        path_le(path, path),
{
    assert(path.subrange(0, path.len() as int) =~= path);
    lemma_prefix_first(path, path);
}

proof fn lemma_within_transitive(a: Seq<PartView>, b: Seq<PartView>, c: Seq<PartView>)
    requires
        within(a, b),
        within(b, c),
    ensures
        within(a, c),
{
    assert(a.subrange(0, c.len() as int) =~= c) by {
        assert forall|i: int| 0 <= i < c.len() implies a.subrange(0, c.len() as int)[i] == c[i] by {
            assert(b.subrange(0, c.len() as int)[i] == c[i]);
            assert(a.subrange(0, b.len() as int)[i] == b[i]);
        }
    }
}

/// What the pass over the sorted findings keeps is what is outermost.
proof fn lemma_pass_keeps_outermost(
    findings: Seq<Finding>,
    order: Seq<usize>,
    kept: Seq<FindingView>,
    pos: Seq<int>,
)
    requires
        findings.len() <= usize::MAX,
        stable_order(findings, order),
        pos.len() == kept.len(),
        forall|k: int|
            0 <= k < pos.len() ==> 0 <= #[trigger] pos[k] < order.len() && kept[k]
                == finding_views(findings)[order[pos[k]] as int],
        forall|k: int, m: int|
            0 <= k < m < pos.len() ==> #[trigger] pos[k] < #[trigger] pos[m],
        forall|k: int, m: int| 0 <= k < m < kept.len() ==> #[trigger] apart(kept, k, m),
        forall|q: int|
            0 <= q < order.len() ==> #[trigger] accounted(
                finding_views(findings),
                order,
                kept,
                pos,
                q,
            ),
    ensures
        outermost(finding_views(findings), kept),
{
    let all = finding_views(findings);
    assert forall|a: int, b: int| 0 <= a < b < kept.len() implies #[trigger] steps_up(
        kept,
        a,
        b,
    ) by {
        assert(pos[a] < pos[b]);
        assert(sorts_before(findings, order[pos[a]] as int, order[pos[b]] as int));
        assert(apart(kept, a, b));
        lemma_within_itself(kept[b].path);
    }
    assert forall|k: int| 0 <= k < kept.len() implies is_survivor(all, #[trigger] kept[k]) by {
        let i = order[pos[k]] as int;
        assert forall|j: int| 0 <= j < all.len() && j != i implies !#[trigger] covers(all, j, i) by {
            if covers(all, j, i) {
                assert(order.contains(j as usize));
                let q = choose|q: int| 0 <= q < order.len() && order[q] == j as usize;
                lemma_prefix_first(all[j].path, all[i].path);
                if pos[k] < q {
                    assert(sorts_before(findings, order[pos[k]] as int, order[q] as int));
                    lemma_path_antisymmetric(all[i].path, all[j].path);
                    assert(false);
                }
                assert(accounted(all, order, kept, pos, q));
                let m = choose|m: int|
                    0 <= m < pos.len() && #[trigger] pos[m] <= q && within(
                        all[order[q] as int].path,
                        kept[m].path,
                    );
                lemma_within_transitive(all[i].path, all[j].path, kept[m].path);
                if k <= m {
                    if k < m {
                        assert(pos[k] < pos[m]);
                    }
                    assert(false);
                }
                assert(apart(kept, m, k));
                assert(false);
            }
        }
        assert(survives(all, i));
    }
    assert forall|i: int| #[trigger] survives(all, i) implies kept.contains(all[i]) by {
        assert(order.contains(i as usize));
        let q = choose|q: int| 0 <= q < order.len() && order[q] == i as usize;
        assert(accounted(all, order, kept, pos, q));
        let k = choose|k: int|
            0 <= k < pos.len() && #[trigger] pos[k] <= q && within(
                all[order[q] as int].path,
                kept[k].path,
            );
        if pos[k] < q {
            let j = order[pos[k]] as int;
            assert(sorts_before(findings, order[pos[k]] as int, order[q] as int));
            lemma_within_itself(all[i].path);
            assert(j != i);
            assert(covers(all, j, i));
            assert(false);
        }
        assert(kept[k] == all[i]);
    }
}

/// Drop findings that sit inside another finding, keeping the outermost.
///
/// Sorting by components makes a child always follow its parent, which a plain
/// string sort does not guarantee.
pub fn dedupe_nested(findings: Vec<Finding>) -> (r: Vec<Finding>)
    ensures
        outermost(finding_views(findings@), finding_views(r@)),
{
    let order = stable_sort(&findings);
    let ghost all = finding_views(findings@);
    let mut kept: Vec<Finding> = Vec::new();
    let ghost mut pos: Seq<int> = Seq::empty();
    let mut p: usize = 0;
    while p < order.len()
        invariant
            p <= order.len(),
            all == finding_views(findings@),
            stable_order(findings@, order@),
            pos.len() == kept@.len(),
            forall|k: int|
                0 <= k < pos.len() ==> 0 <= #[trigger] pos[k] < p && finding_views(kept@)[k]
                    == all[order@[pos[k]] as int],
            forall|k: int, m: int|
                0 <= k < m < pos.len() ==> #[trigger] pos[k] < #[trigger] pos[m],
            forall|k: int, m: int|
                0 <= k < m < kept@.len() ==> #[trigger] apart(finding_views(kept@), k, m),
            forall|q: int|
                0 <= q < p ==> #[trigger] accounted(
                    all,
                    order@,
                    finding_views(kept@),
                    pos,
                    q,
                ),
        decreases order.len() - p,
    {
        let i: usize = order[p];
        let finding = &findings[i];
        let ghost views = finding_views(kept@);
        assert(all[i as int] == finding@);
        let inside = if kept.len() == 0 {
            false
        } else {
            assert(views[kept@.len() - 1] == kept@[kept@.len() - 1]@);
            finding.path.starts_with(&kept[kept.len() - 1].path)
        };
        if inside {
            proof {
                let last = pos.len() - 1;
                assert(pos[last] <= p);
                assert(accounted(all, order@, views, pos, p as int));
            }
        } else {
            let ghost before_pos = pos;
            kept.push(finding.clone());
            proof {
                pos = pos.push(p as int);
                let now = finding_views(kept@);
                assert(now =~= views.push(finding@));
                lemma_within_itself(finding@.path);
                assert(pos[views.len() as int] <= p);
                assert(accounted(all, order@, now, pos, p as int));
                assert forall|q: int| 0 <= q < p implies #[trigger] accounted(
                    all,
                    order@,
                    now,
                    pos,
                    q,
                ) by {
                    assert(accounted(all, order@, views, before_pos, q));
                    let k = choose|k: int|
                        0 <= k < before_pos.len() && #[trigger] before_pos[k] <= q && within(
                            all[order@[q] as int].path,
                            views[k].path,
                        );
                    assert(pos[k] <= q);
                }
                assert forall|k: int, m: int| 0 <= k < m < now.len() implies #[trigger] apart(
                    now,
                    k,
                    m,
                ) by {
                    if m < views.len() {
                        assert(apart(views, k, m));
                    } else if within(finding@.path, views[k].path) {
                        let last = views.len() - 1;
                        assert(before_pos[k] < p && before_pos[last] < p);
                        if k < last {
                            assert(before_pos[k] < before_pos[last]);
                            assert(sorts_before(
                                findings@,
                                order@[before_pos[k]] as int,
                                order@[before_pos[last]] as int,
                            ));
                            assert(sorts_before(
                                findings@,
                                order@[before_pos[last]] as int,
                                order@[p as int] as int,
                            ));
                            lemma_inside_between(views[k].path, views[last].path, finding@.path);
                            assert(apart(views, k, last));
                        }
                        assert(false);
                    }
                }
                assert forall|k: int| 0 <= k < pos.len() implies 0 <= #[trigger] pos[k] < p + 1
                    && now[k] == all[order@[pos[k]] as int] by {
                    if k < before_pos.len() {
                        assert(pos[k] == before_pos[k]);
                        assert(views[k] == all[order@[before_pos[k]] as int]);
                    }
                }
            }
        }
        p += 1;
    }
    proof {
        lemma_pass_keeps_outermost(findings@, order@, finding_views(kept@), pos);
    }
    kept
}

// ---------------------------------------------------------------------------
// Everything together
// ---------------------------------------------------------------------------

/// All findings before nested ones are dropped: artifacts, then static hits.
pub open spec fn raw_findings(
    tree: Tree,
    home: Seq<PartView>,
    platform: Platform,
    include_system: bool,
    rules: Rules,
    evidence: Evidence,
) -> Seq<FindingView> {
    artifacts(tree, platform, rule_views(rules.artifacts@), evidence) + after_rules(
        tree,
        home,
        platform,
        include_system,
        rules.statics@,
        evidence.targets@,
        rules.statics@.len() as int,
    )
}

/// The findings whose rule was not excluded.
pub open spec fn unsuppressed(kept: Seq<FindingView>, excluded: Seq<String>) -> Seq<FindingView>
    decreases kept.len(),
{
    if kept.len() == 0 {
        Seq::empty()
    } else if listed(excluded, kept.last().rule_id) {
        unsuppressed(kept.drop_last(), excluded)
    } else {
        unsuppressed(kept.drop_last(), excluded).push(kept.last())
    }
}

/// Every finding in the tree, deduped so nested matches do not double-count.
pub fn all_findings(
    tree: &Tree,
    home: &FsPath,
    platform: Platform,
    include_system: bool,
    rules: &Rules,
    evidence: &Evidence,
) -> (r: Vec<Finding>)
    requires
        arena(tree.nodes@),
    ensures
        outermost(
            raw_findings(*tree, home@, platform, include_system, *rules, *evidence),
            finding_views(r@),
        ),
{
    let mut found = artifact_findings(tree, platform, rules, evidence);
    let mut statics = static_findings(
        tree,
        home,
        platform,
        include_system,
        rules,
        &evidence.targets,
    );
    let ghost a = found@;
    let ghost b = statics@;
    found.append(&mut statics);
    assert(finding_views(found@) =~= finding_views(a) + finding_views(b));
    dedupe_nested(found)
}

/// Every finding in the tree whose rule was not excluded.
///
/// Rule exclusions affect classification only. The tree and its totals stay
/// intact, so excluded matches remain ordinary map content.
pub fn all_findings_excluding(
    tree: &Tree,
    home: &FsPath,
    platform: Platform,
    include_system: bool,
    rules: &Rules,
    evidence: &Evidence,
    excluded_rules: &Vec<String>,
) -> (r: Vec<Finding>)
    requires
        arena(tree.nodes@),
    ensures
        exists|kept: Seq<FindingView>|
            outermost(
                raw_findings(*tree, home@, platform, include_system, *rules, *evidence),
                kept,
            ) && finding_views(r@) == #[trigger] unsuppressed(kept, excluded_rules@),
{
    let all = all_findings(tree, home, platform, include_system, rules, evidence);
    let ghost views = finding_views(all@);
    let mut out: Vec<Finding> = Vec::new();
    let mut k: usize = 0;
    assert(finding_views(out@) =~= unsuppressed(views.take(0), excluded_rules@));
    while k < all.len()
        invariant
            k <= all.len(),
            views == finding_views(all@),
            finding_views(out@) == unsuppressed(views.take(k as int), excluded_rules@),
        decreases all.len() - k,
    {
        let ghost before = out@;
        assert(views.take(k + 1).drop_last() =~= views.take(k as int));
        assert(views.take(k + 1).last() == all@[k as int]@);
        if !contains_text(excluded_rules, all[k].rule_id.as_str()) {
            out.push(all[k].clone());
            assert(finding_views(out@) =~= finding_views(before).push(all@[k as int]@));
        }
        k += 1;
    }
    assert(views.take(views.len() as int) =~= views);
    out
}

// ---------------------------------------------------------------------------
// What findings promise
// ---------------------------------------------------------------------------

/// No finding that is kept lies inside another.
pub proof fn law_no_finding_in_another(all: Seq<FindingView>, kept: Seq<FindingView>)
    requires
        outermost(all, kept),
    ensures
        forall|a: int, b: int|
            0 <= a < kept.len() && 0 <= b < kept.len() && a != b ==> !within(
                (#[trigger] kept[a]).path,
                (#[trigger] kept[b]).path,
            ),
{
    assert forall|a: int, b: int|
        0 <= a < kept.len() && 0 <= b < kept.len() && a != b implies !within(
        (#[trigger] kept[a]).path,
        (#[trigger] kept[b]).path,
    ) by {
        assert(is_survivor(all, kept[a]));
        assert(is_survivor(all, kept[b]));
        let i = choose|i: int| #[trigger] survives(all, i) && all[i] == kept[a];
        let j = choose|j: int| #[trigger] survives(all, j) && all[j] == kept[b];
        if a < b {
            assert(steps_up(kept, a, b));
        } else {
            assert(steps_up(kept, b, a));
        }
        if within(kept[a].path, kept[b].path) {
            assert(covers(all, j, i));
        }
    }
}

/// A chain of findings, each inside the next, ends at one that survives.
proof fn lemma_someone_covers(all: Seq<FindingView>, i: int) -> (s: int)
    requires
        0 <= i < all.len(),
    ensures
        survives(all, s),
        within(all[i].path, all[s].path),
    decreases all[i].path.len(), i,
{
    lemma_within_itself(all[i].path);
    if survives(all, i) {
        i
    } else {
        let j = choose|j: int| 0 <= j < all.len() && j != i && #[trigger] covers(all, j, i);
        if all[j].path.len() == all[i].path.len() {
            assert(all[i].path.subrange(0, all[j].path.len() as int) =~= all[i].path);
        }
        let s = lemma_someone_covers(all, j);
        lemma_within_transitive(all[i].path, all[j].path, all[s].path);
        s
    }
}

/// Nothing is lost: everything found lies inside a finding that is kept.
pub proof fn law_every_finding_is_covered(
    all: Seq<FindingView>,
    kept: Seq<FindingView>,
    i: int,
)
    requires
        outermost(all, kept),
        0 <= i < all.len(),
    ensures
        exists|k: int| 0 <= k < kept.len() && within(all[i].path, (#[trigger] kept[k]).path),
{
    let s = lemma_someone_covers(all, i);
    assert(kept.contains(all[s]));
    let k = choose|k: int| 0 <= k < kept.len() && kept[k] == all[s];
    assert(within(all[i].path, kept[k].path));
}

/// Dropping nested findings twice is the same as doing it once.
pub proof fn law_dedupe_is_idempotent(
    all: Seq<FindingView>,
    once: Seq<FindingView>,
    twice: Seq<FindingView>,
)
    requires
        outermost(all, once),
        outermost(once, twice),
    ensures
        once == twice,
{
    law_no_finding_in_another(all, once);
    assert forall|i: int| 0 <= i < once.len() implies #[trigger] survives(once, i) by {
        assert forall|j: int| 0 <= j < once.len() && j != i implies !#[trigger] covers(
            once,
            j,
            i,
        ) by {
            assert(!within(once[i].path, once[j].path));
        }
    }
    assert forall|i: int| 0 <= i < once.len() implies twice.contains(#[trigger] once[i]) by {
        assert(survives(once, i));
    }
    assert forall|k: int| 0 <= k < twice.len() implies once.contains(#[trigger] twice[k]) by {
        assert(is_survivor(once, twice[k]));
    }
    lemma_ascending_same(once, twice);
}

/// Two ascending lists with the same members are the same list.
proof fn lemma_ascending_same(a: Seq<FindingView>, b: Seq<FindingView>)
    requires
        forall|i: int, j: int| 0 <= i < j < a.len() ==> #[trigger] steps_up(a, i, j),
        forall|i: int, j: int| 0 <= i < j < b.len() ==> #[trigger] steps_up(b, i, j),
        forall|i: int| 0 <= i < a.len() ==> b.contains(#[trigger] a[i]),
        forall|i: int| 0 <= i < b.len() ==> a.contains(#[trigger] b[i]),
    ensures
        a == b,
    decreases a.len(),
{
    if a.len() == 0 {
        if b.len() > 0 {
            assert(a.contains(b[0]));
        }
        assert(a =~= b);
    } else {
        assert(b.contains(a[0]));
        let x = a.last();
        let y = b.last();
        assert(b.contains(a[a.len() - 1]));
        assert(a.contains(b[b.len() - 1]));
        let p = choose|p: int| 0 <= p < b.len() && b[p] == x;
        let q = choose|q: int| 0 <= q < a.len() && a[q] == y;
        if p < b.len() - 1 {
            assert(steps_up(b, p, b.len() - 1));
            assert(q < a.len() - 1);
            assert(steps_up(a, q, a.len() - 1));
            lemma_path_antisymmetric(x.path, y.path);
            assert(false);
        }
        let fa = a.drop_last();
        let fb = b.drop_last();
        assert forall|i: int, j: int| 0 <= i < j < fa.len() implies #[trigger] steps_up(
            fa,
            i,
            j,
        ) by {
            assert(steps_up(a, i, j));
        }
        assert forall|i: int, j: int| 0 <= i < j < fb.len() implies #[trigger] steps_up(
            fb,
            i,
            j,
        ) by {
            assert(steps_up(b, i, j));
        }
        assert forall|i: int| 0 <= i < fa.len() implies fb.contains(#[trigger] fa[i]) by {
            assert(b.contains(a[i]));
            let k = choose|k: int| 0 <= k < b.len() && b[k] == a[i];
            assert(steps_up(a, i, a.len() - 1));
            assert(fb[k] == fa[i]);
        }
        assert forall|i: int| 0 <= i < fb.len() implies fa.contains(#[trigger] fb[i]) by {
            assert(a.contains(b[i]));
            let k = choose|k: int| 0 <= k < a.len() && a[k] == b[i];
            assert(steps_up(b, i, b.len() - 1));
            assert(fa[k] == fb[i]);
        }
        lemma_ascending_same(fa, fb);
        assert(a =~= fa.push(x));
        assert(b =~= fb.push(y));
    }
}

/// What is kept depends on the findings alone: there is only one such list.
pub proof fn law_outermost_is_unique(
    all: Seq<FindingView>,
    one: Seq<FindingView>,
    other: Seq<FindingView>,
)
    requires
        outermost(all, one),
        outermost(all, other),
    ensures
        one == other,
{
    assert forall|k: int| 0 <= k < one.len() implies other.contains(#[trigger] one[k]) by {
        assert(is_survivor(all, one[k]));
    }
    assert forall|k: int| 0 <= k < other.len() implies one.contains(#[trigger] other[k]) by {
        assert(is_survivor(all, other[k]));
    }
    lemma_ascending_same(one, other);
}

/// Suppressing rules removes the findings of those rules and no others.
pub proof fn law_suppression_is_exact(
    kept: Seq<FindingView>,
    excluded: Seq<String>,
    finding: FindingView,
)
    ensures
        unsuppressed(kept, excluded).contains(finding) <==> kept.contains(finding) && !listed(
            excluded,
            finding.rule_id,
        ),
    decreases kept.len(),
{
    if kept.len() > 0 {
        let front = kept.drop_last();
        law_suppression_is_exact(front, excluded, finding);
        let before = unsuppressed(front, excluded);
        let now = unsuppressed(kept, excluded);
        if before.contains(finding) {
            let k = choose|k: int| 0 <= k < before.len() && before[k] == finding;
            assert(now[k] == finding);
        }
        if front.contains(finding) {
            let k = choose|k: int| 0 <= k < front.len() && front[k] == finding;
            assert(kept[k] == finding);
        }
        if kept.contains(finding) && !front.contains(finding) {
            let k = choose|k: int| 0 <= k < kept.len() && kept[k] == finding;
            if k < front.len() {
                assert(front[k] == finding);
            }
            assert(finding == kept.last());
            if !listed(excluded, finding.rule_id) {
                assert(now[before.len() as int] == finding);
            }
        }
        if now.contains(finding) && !before.contains(finding) {
            assert(finding == kept.last());
            assert(kept[kept.len() - 1] == finding);
        }
    }
}

proof fn lemma_targets_keep_findings(
    tree: Tree,
    home: Seq<PartView>,
    rule: StaticRule,
    found: Seq<FindingView>,
    targets: Seq<FsPath>,
    n: int,
)
    requires
        0 <= n <= targets.len(),
    ensures
        found.is_prefix_of(after_targets(tree, home, rule, found, targets, n)),
        forall|t: int|
            0 <= t < n && offered(tree, home, (#[trigger] targets[t])@) ==> claimed(
                after_targets(tree, home, rule, found, targets, n),
                targets[t]@,
            ),
    decreases n,
{
    let now = after_targets(tree, home, rule, found, targets, n);
    if n > 0 {
        lemma_targets_keep_findings(tree, home, rule, found, targets, n - 1);
        let before = after_targets(tree, home, rule, found, targets, n - 1);
        assert(found =~= now.subrange(0, found.len() as int)) by {
            assert(found =~= before.subrange(0, found.len() as int));
        }
        assert forall|t: int|
            0 <= t < n && offered(tree, home, (#[trigger] targets[t])@) implies claimed(
            now,
            targets[t]@,
        ) by {
            if claimed(before, targets[t]@) {
                let k = choose|k: int|
                    0 <= k < before.len() && (#[trigger] before[k]).path == targets[t]@;
                assert(now[k].path == targets[t]@);
            } else {
                assert(t == n - 1);
                assert(now[before.len() as int].path == targets[t]@);
            }
        }
    } else {
        assert(found =~= now.subrange(0, found.len() as int));
    }
}

/// The first rule to claim a path wins: what earlier rules found stays as it is,
/// and everything an active rule points at that may be offered is found by the
/// time that rule is done.
pub proof fn law_first_rule_wins(
    tree: Tree,
    home: Seq<PartView>,
    platform: Platform,
    include_system: bool,
    rules: Seq<StaticRule>,
    targets: Seq<Vec<FsPath>>,
    m: int,
    n: int,
)
    requires
        0 <= m <= n <= rules.len(),
    ensures
        after_rules(tree, home, platform, include_system, rules, targets, m).is_prefix_of(
            after_rules(tree, home, platform, include_system, rules, targets, n),
        ),
        m < n && active(rules[m], platform, include_system) ==> forall|t: int|
            0 <= t < targets_of(targets, m).len() && offered(
                tree,
                home,
                (#[trigger] targets_of(targets, m)[t])@,
            ) ==> claimed(
                after_rules(tree, home, platform, include_system, rules, targets, m + 1),
                targets_of(targets, m)[t]@,
            ),
    decreases n - m,
{
    let at = after_rules(tree, home, platform, include_system, rules, targets, m);
    let end = after_rules(tree, home, platform, include_system, rules, targets, n);
    if m < n {
        let next = after_rules(tree, home, platform, include_system, rules, targets, m + 1);
        let mine = targets_of(targets, m);
        if active(rules[m], platform, include_system) {
            lemma_targets_keep_findings(tree, home, rules[m], at, mine, mine.len() as int);
        } else {
            assert(at.subrange(0, at.len() as int) =~= at);
        }
        law_first_rule_wins(tree, home, platform, include_system, rules, targets, m + 1, n);
        assert(at =~= end.subrange(0, at.len() as int)) by {
            assert forall|k: int| 0 <= k < at.len() implies at[k] == end.subrange(
                0,
                at.len() as int,
            )[k] by {
                assert(at[k] == next.subrange(0, at.len() as int)[k]);
                assert(next[k] == end.subrange(0, next.len() as int)[k]);
            }
        }
    } else {
        assert(at.subrange(0, at.len() as int) =~= at);
    }
}

/// Whether a static finding is what its path calls for.
pub open spec fn sound_finding(tree: Tree, home: Seq<PartView>, finding: FindingView) -> bool {
    &&& offered(tree, home, finding.path)
    &&& node_at(tree, finding.path) == Some(finding.node)
    &&& finding.size == tree.nodes@[finding.node as int].total_size
}

proof fn lemma_targets_sound(
    tree: Tree,
    home: Seq<PartView>,
    rule: StaticRule,
    found: Seq<FindingView>,
    targets: Seq<FsPath>,
    n: int,
)
    requires
        0 <= n <= targets.len(),
        forall|k: int| 0 <= k < found.len() ==> sound_finding(tree, home, #[trigger] found[k]),
        forall|a: int, b: int|
            0 <= a < b < found.len() ==> (#[trigger] found[a]).path != (#[trigger] found[b]).path,
    ensures
        forall|k: int|
            0 <= k < after_targets(tree, home, rule, found, targets, n).len() ==> sound_finding(
                tree,
                home,
                #[trigger] after_targets(tree, home, rule, found, targets, n)[k],
            ),
        forall|a: int, b: int|
            0 <= a < b < after_targets(tree, home, rule, found, targets, n).len() ==> (
            #[trigger] after_targets(tree, home, rule, found, targets, n)[a]).path != (
            #[trigger] after_targets(tree, home, rule, found, targets, n)[b]).path,
    decreases n,
{
    if n > 0 {
        lemma_targets_sound(tree, home, rule, found, targets, n - 1);
        let before = after_targets(tree, home, rule, found, targets, n - 1);
        let now = after_targets(tree, home, rule, found, targets, n);
        assert forall|k: int| 0 <= k < now.len() implies sound_finding(
            tree,
            home,
            #[trigger] now[k],
        ) by {
            if k < before.len() {
                assert(now[k] == before[k]);
            }
        }
        assert forall|a: int, b: int| 0 <= a < b < now.len() implies (#[trigger] now[a]).path != (
        #[trigger] now[b]).path by {
            assert(now[a] == before[a]);
            if b < before.len() {
                assert(now[b] == before[b]);
            }
        }
    }
}

/// Static rules never offer what is protected, was left out or was not scanned,
/// and never the same path twice.
pub proof fn law_static_findings_are_sound(
    tree: Tree,
    home: Seq<PartView>,
    platform: Platform,
    include_system: bool,
    rules: Seq<StaticRule>,
    targets: Seq<Vec<FsPath>>,
    n: int,
)
    requires
        0 <= n <= rules.len(),
    ensures
        forall|k: int|
            0 <= k < after_rules(
                tree,
                home,
                platform,
                include_system,
                rules,
                targets,
                n,
            ).len() ==> sound_finding(
                tree,
                home,
                #[trigger] after_rules(tree, home, platform, include_system, rules, targets, n)[k],
            ),
        forall|a: int, b: int|
            0 <= a < b < after_rules(
                tree,
                home,
                platform,
                include_system,
                rules,
                targets,
                n,
            ).len() ==> (#[trigger] after_rules(
                tree,
                home,
                platform,
                include_system,
                rules,
                targets,
                n,
            )[a]).path != (#[trigger] after_rules(
                tree,
                home,
                platform,
                include_system,
                rules,
                targets,
                n,
            )[b]).path,
    decreases n,
{
    if n > 0 {
        law_static_findings_are_sound(tree, home, platform, include_system, rules, targets, n - 1);
        let before = after_rules(tree, home, platform, include_system, rules, targets, n - 1);
        let mine = targets_of(targets, n - 1);
        lemma_targets_sound(tree, home, rules[n - 1], before, mine, mine.len() as int);
    }
}

// ---------------------------------------------------------------------------
// Nothing is counted twice
// ---------------------------------------------------------------------------

/// The sizes of some findings, added up.
pub open spec fn sizes(findings: Seq<FindingView>) -> int
    decreases findings.len(),
{
    if findings.len() == 0 {
        0
    } else {
        sizes(findings.drop_last()) + findings.last().size
    }
}

/// Whether every target is a path as paths can be.
pub open spec fn all_formed(targets: Seq<Vec<FsPath>>) -> bool {
    forall|r: int, t: int|
        0 <= r < targets.len() && 0 <= t < targets[r]@.len() ==> formed(
            (#[trigger] targets[r]@[t])@,
        )
}

/// Whether the paths of a tree are as those of a disk are: its root is absolute,
/// and no directory is called `..`.
pub open spec fn like_a_disk(tree: Tree, platform: Platform) -> bool {
    absolute(tree.root_path@, platform) && no_node_leads_up(tree.nodes@)
}

/// Whether a finding is about a node of the tree: it has that node's path and size.
spec fn about_its_node(tree: Tree, finding: FindingView) -> bool {
    &&& finding.node < tree.nodes@.len()
    &&& finding.path == node_path(tree, finding.node as int)
    &&& finding.size == tree.nodes@[finding.node as int].total_size
}

proof fn lemma_static_about_nodes(
    tree: Tree,
    platform: Platform,
    home: Seq<PartView>,
    rule: StaticRule,
    found: Seq<FindingView>,
    targets: Seq<FsPath>,
    n: int,
)
    requires
        arena(tree.nodes@),
        0 <= n <= targets.len(),
        like_a_disk(tree, platform),
        forall|t: int| 0 <= t < targets.len() ==> formed((#[trigger] targets[t])@),
        forall|k: int| 0 <= k < found.len() ==> about_its_node(tree, #[trigger] found[k]),
    ensures
        forall|k: int|
            0 <= k < after_targets(tree, home, rule, found, targets, n).len() ==> about_its_node(
                tree,
                #[trigger] after_targets(tree, home, rule, found, targets, n)[k],
            ),
    decreases n,
{
    if n > 0 {
        lemma_static_about_nodes(tree, platform, home, rule, found, targets, n - 1);
        let before = after_targets(tree, home, rule, found, targets, n - 1);
        let now = after_targets(tree, home, rule, found, targets, n);
        assert forall|k: int| 0 <= k < now.len() implies about_its_node(
            tree,
            #[trigger] now[k],
        ) by {
            if k < before.len() {
                assert(now[k] == before[k]);
            } else {
                assert(formed(targets[n - 1]@));
                law_found_paths_go_down(tree, targets[n - 1]@, platform);
            }
        }
    }
}

proof fn lemma_rules_about_nodes(
    tree: Tree,
    home: Seq<PartView>,
    platform: Platform,
    include_system: bool,
    rules: Seq<StaticRule>,
    targets: Seq<Vec<FsPath>>,
    n: int,
)
    requires
        arena(tree.nodes@),
        like_a_disk(tree, platform),
        all_formed(targets),
        0 <= n <= rules.len(),
    ensures
        forall|k: int|
            0 <= k < after_rules(tree, home, platform, include_system, rules, targets, n).len()
                ==> about_its_node(
                tree,
                #[trigger] after_rules(tree, home, platform, include_system, rules, targets, n)[k],
            ),
    decreases n,
{
    if n > 0 {
        lemma_rules_about_nodes(tree, home, platform, include_system, rules, targets, n - 1);
        let before = after_rules(tree, home, platform, include_system, rules, targets, n - 1);
        let mine = targets_of(targets, n - 1);
        assert forall|t: int| 0 <= t < mine.len() implies formed((#[trigger] mine[t])@) by {
            assert(mine[t] == targets[n - 1]@[t]);
        }
        lemma_static_about_nodes(
            tree,
            platform,
            home,
            rules[n - 1],
            before,
            mine,
            mine.len() as int,
        );
    }
}

proof fn lemma_artifacts_about_nodes(
    tree: Tree,
    platform: Platform,
    rules: Seq<ArtifactRuleView>,
    evidence: Evidence,
    k: int,
)
    requires
        arena(tree.nodes@),
        0 <= k < settled_claims(tree, platform, rules, evidence).len(),
    ensures
        about_its_node(
            tree,
            project_findings(tree, settled_claims(tree, platform, rules, evidence))[k],
        ),
{
    let n = candidates(tree, rules, tree.nodes@.len() as int).len() as int;
    let direct = all_claims(tree, rules, evidence.inside@, false);
    let deferred = all_claims(tree, rules, evidence.inside@, true);
    let count = repos(deferred, evidence.with_git@).len() as int;
    let kept = kept_claims(deferred, evidence.with_git@, evidence.ignored@, platform, count);
    let all = settled_claims(tree, platform, rules, evidence);
    law_claims_are_searched(tree, rules, evidence.inside@, false, n);
    law_claims_are_searched(tree, rules, evidence.inside@, true, n);
    if k < direct.len() {
        assert(all[k] == direct[k]);
        assert(claims_candidate(tree, rules, direct[k]));
    } else {
        assert(all[k] == kept[k - direct.len()]);
        assert(kept.contains(all[k]));
        law_kept_means_ignored(
            deferred,
            evidence.with_git@,
            evidence.ignored@,
            platform,
            all[k],
            count,
        );
        let j = choose|j: int| 0 <= j < deferred.len() && deferred[j] == all[k];
        assert(claims_candidate(tree, rules, deferred[j]));
    }
}

proof fn lemma_hangs_within(tree: Tree, top: int, i: int)
    requires
        arena(tree.nodes@),
        0 <= top < tree.nodes@.len(),
        0 <= i < tree.nodes@.len(),
        hangs_under(parent_indices(tree.nodes@), top, i),
    ensures
        within(node_path(tree, i), node_path(tree, top)),
    decreases i,
{
    if i == top {
        lemma_within_itself(node_path(tree, i));
    } else {
        assert(parent_first(tree.nodes@, i));
        let up = tree.nodes@[i].parent as int;
        lemma_hangs_within(tree, top, up);
        assert(node_names(tree.nodes@, i) == node_names(tree.nodes@, up).push(
            tree.nodes@[i].name@,
        ));
        assert(node_path(tree, i) =~= node_path(tree, up).push(
            PartView::Normal(tree.nodes@[i].name@),
        ));
        let over = node_path(tree, top);
        assert(over =~= node_path(tree, i).subrange(0, over.len() as int)) by {
            assert(over == node_path(tree, up).subrange(0, over.len() as int));
        }
    }
}

proof fn lemma_sizes_are_sums(tree: Tree, kept: Seq<FindingView>)
    requires
        totals_fit(tree.nodes@),
        forall|k: int| 0 <= k < kept.len() ==> about_its_node(tree, #[trigger] kept[k]),
    ensures
        sizes(kept) == sums_at(
            parent_indices(tree.nodes@),
            own_sizes(tree.nodes@),
            kept.map_values(|finding: FindingView| finding.node as int),
        ),
    decreases kept.len(),
{
    let tops = kept.map_values(|finding: FindingView| finding.node as int);
    if kept.len() > 0 {
        let front = kept.drop_last();
        assert forall|k: int| 0 <= k < front.len() implies about_its_node(
            tree,
            #[trigger] front[k],
        ) by {
            assert(front[k] == kept[k]);
        }
        lemma_sizes_are_sums(tree, front);
        assert(tops.drop_last() =~= front.map_values(|finding: FindingView| finding.node as int));
        assert(about_its_node(tree, kept[kept.len() - 1]));
    }
}

proof fn lemma_sizes_shrink(kept: Seq<FindingView>, excluded: Seq<String>)
    ensures
        0 <= sizes(unsuppressed(kept, excluded)) <= sizes(kept),
    decreases kept.len(),
{
    if kept.len() > 0 {
        lemma_sizes_shrink(kept.drop_last(), excluded);
        let front = unsuppressed(kept.drop_last(), excluded);
        assert(front.push(kept.last()).drop_last() =~= front);
    }
}

/// Nothing is counted twice: what all findings occupy together, whether or not
/// some rules were excluded, is no more than what the root holds.
///
/// The tree is like that of a disk: in one that holds a directory called `..`, a
/// target through `..` would stand for it a second time.
pub proof fn law_findings_fit_in_the_root(
    tree: Tree,
    home: Seq<PartView>,
    platform: Platform,
    include_system: bool,
    rules: Rules,
    evidence: Evidence,
    kept: Seq<FindingView>,
    excluded: Seq<String>,
)
    requires
        arena(tree.nodes@),
        totals_fit(tree.nodes@),
        like_a_disk(tree, platform),
        all_formed(evidence.targets@),
        outermost(raw_findings(tree, home, platform, include_system, rules, evidence), kept),
    ensures
        sizes(kept) <= tree.nodes@[0].total_size,
        sizes(unsuppressed(kept, excluded)) <= sizes(kept),
{
    let all = raw_findings(tree, home, platform, include_system, rules, evidence);
    let project_rules = rule_views(rules.artifacts@);
    let claimed = project_findings(
        tree,
        settled_claims(tree, platform, project_rules, evidence),
    );
    let first = artifacts(tree, platform, project_rules, evidence);
    let at = lemma_survivors(claimed, claimed.len() as int);
    let parents = parent_indices(tree.nodes@);
    let weights = own_sizes(tree.nodes@);
    let tops = kept.map_values(|finding: FindingView| finding.node as int);
    lemma_rules_about_nodes(
        tree,
        home,
        platform,
        include_system,
        rules.statics@,
        evidence.targets@,
        rules.statics@.len() as int,
    );
    assert forall|k: int| 0 <= k < kept.len() implies about_its_node(tree, #[trigger] kept[k]) by {
        assert(is_survivor(all, kept[k]));
        let i = choose|i: int| #[trigger] survives(all, i) && all[i] == kept[k];
        if i < first.len() {
            assert(all[i] == first[i]);
            assert(first[i] == claimed[at[i]]);
            lemma_artifacts_about_nodes(tree, platform, project_rules, evidence, at[i]);
        } else {
            assert(all[i] == after_rules(
                tree,
                home,
                platform,
                include_system,
                rules.statics@,
                evidence.targets@,
                rules.statics@.len() as int,
            )[i - first.len()]);
        }
    }
    law_no_finding_in_another(all, kept);
    assert(unrelated(parents, tops)) by {
        assert forall|a: int| 0 <= a < tops.len() implies 0 <= #[trigger] tops[a]
            < parents.len() by {
            assert(about_its_node(tree, kept[a]));
        }
        assert forall|a: int, b: int|
            0 <= a < tops.len() && 0 <= b < tops.len() && a != b implies !hangs_under(
            parents,
            #[trigger] tops[a],
            #[trigger] tops[b],
        ) by {
            assert(about_its_node(tree, kept[a]) && about_its_node(tree, kept[b]));
            if hangs_under(parents, tops[a], tops[b]) {
                lemma_hangs_within(tree, tops[a], tops[b]);
                assert(within(kept[b].path, kept[a].path));
            }
        }
    }
    lemma_sizes_are_sums(tree, kept);
    lemma_sizes_shrink(kept, excluded);
    lemma_arena_topological(tree.nodes@);
    law_unrelated_subtrees_fit(parents, weights, tops);
    law_root_holds_everything(parents, weights);
}

// ---------------------------------------------------------------------------
// What a finding says
// ---------------------------------------------------------------------------

/// Whether a static rule is looked at: it is for this system, and it is no system
/// rule unless those are wanted.
pub open spec fn in_use(rule: StaticRule, platform: Platform, include_system: bool) -> bool {
    &&& {
        ||| rule.os@ == "any"@
        ||| rule.os@ == "macos"@ && platform is MacOs
        ||| rule.os@ == "windows"@ && platform is Windows
        ||| rule.os@ == "linux"@ && platform is Linux
    }
    &&& rule.system ==> include_system
}

/// Whether the `t`th target of the `r`th rule is this path, and the rule is in use.
pub open spec fn points_at(
    rules: Seq<StaticRule>,
    targets: Seq<Vec<FsPath>>,
    platform: Platform,
    include_system: bool,
    r: int,
    t: int,
    path: Seq<PartView>,
) -> bool {
    &&& 0 <= r < rules.len()
    &&& in_use(rules[r], platform, include_system)
    &&& r < targets.len()
    &&& 0 <= t < targets[r]@.len()
    &&& targets[r]@[t]@ == path
}

/// Whether a finding carries what its static rule says.
pub open spec fn speaks_for(finding: FindingView, rule: StaticRule) -> bool {
    &&& finding.rule_id == rule.id@
    &&& finding.tier == rule.tier@
    &&& finding.label == rule.label@
    &&& finding.regen == rule.regen@
    &&& finding.warn == rule.warn@
    &&& finding.source == "static"@
}

proof fn lemma_in_use(rule: StaticRule, platform: Platform, include_system: bool)
    ensures
        active(rule, platform, include_system) == in_use(rule, platform, include_system),
{
    law_rules_apply_where_they_say(rule);
}

proof fn lemma_target_of_finding(
    tree: Tree,
    home: Seq<PartView>,
    rule: StaticRule,
    found: Seq<FindingView>,
    targets: Seq<FsPath>,
    n: int,
    k: int,
) -> (t: int)
    requires
        0 <= n <= targets.len(),
        found.len() <= k < after_targets(tree, home, rule, found, targets, n).len(),
    ensures
        0 <= t < n,
        targets[t]@ == after_targets(tree, home, rule, found, targets, n)[k].path,
        speaks_for(after_targets(tree, home, rule, found, targets, n)[k], rule),
    decreases n,
{
    let before = after_targets(tree, home, rule, found, targets, n - 1);
    if k < before.len() {
        lemma_target_of_finding(tree, home, rule, found, targets, n - 1, k)
    } else {
        n - 1
    }
}

proof fn lemma_rule_of_finding(
    tree: Tree,
    home: Seq<PartView>,
    platform: Platform,
    include_system: bool,
    rules: Seq<StaticRule>,
    targets: Seq<Vec<FsPath>>,
    n: int,
    k: int,
) -> (at: (int, int))
    requires
        0 <= n <= rules.len(),
        0 <= k < after_rules(tree, home, platform, include_system, rules, targets, n).len(),
    ensures
        0 <= at.0 < n,
        after_rules(tree, home, platform, include_system, rules, targets, at.0).len() <= k,
        points_at(
            rules,
            targets,
            platform,
            include_system,
            at.0,
            at.1,
            after_rules(tree, home, platform, include_system, rules, targets, n)[k].path,
        ),
        speaks_for(
            after_rules(tree, home, platform, include_system, rules, targets, n)[k],
            rules[at.0],
        ),
    decreases n,
{
    let before = after_rules(tree, home, platform, include_system, rules, targets, n - 1);
    let now = after_rules(tree, home, platform, include_system, rules, targets, n);
    let mine = targets_of(targets, n - 1);
    lemma_in_use(rules[n - 1], platform, include_system);
    if k < before.len() {
        law_first_rule_wins(tree, home, platform, include_system, rules, targets, n - 1, n);
        assert(before[k] == now.subrange(0, before.len() as int)[k]);
        lemma_rule_of_finding(tree, home, platform, include_system, rules, targets, n - 1, k)
    } else {
        let t = lemma_target_of_finding(
            tree,
            home,
            rules[n - 1],
            before,
            mine,
            mine.len() as int,
            k,
        );
        (n - 1, t)
    }
}

/// Every static finding carries the words of a rule in use that points at its path,
/// and that rule is the first of those that do. It is a place that was scanned, was
/// not left out and is not protected, with the size of the directory there.
pub proof fn law_static_findings_carry_their_rule(
    tree: Tree,
    home: Seq<PartView>,
    platform: Platform,
    include_system: bool,
    rules: Seq<StaticRule>,
    targets: Seq<Vec<FsPath>>,
    k: int,
) -> (at: (int, int))
    requires
        0 <= k < after_rules(
            tree,
            home,
            platform,
            include_system,
            rules,
            targets,
            rules.len() as int,
        ).len(),
    ensures
        ({
            let finding = after_rules(
                tree,
                home,
                platform,
                include_system,
                rules,
                targets,
                rules.len() as int,
            )[k];
            &&& points_at(rules, targets, platform, include_system, at.0, at.1, finding.path)
            &&& speaks_for(finding, rules[at.0])
            &&& forall|q: int, t: int|
                0 <= q < at.0 ==> !#[trigger] points_at(
                    rules,
                    targets,
                    platform,
                    include_system,
                    q,
                    t,
                    finding.path,
                )
            &&& forall|e: int|
                0 <= e < tree.stats.excluded_paths@.len() ==> !within(
                    finding.path,
                    (#[trigger] tree.stats.excluded_paths@[e])@,
                )
            &&& protection(finding.path, home).len() == 0
            &&& node_at(tree, finding.path) == Some(finding.node)
            &&& finding.size == tree.nodes@[finding.node as int].total_size
        }),
{
    let n = rules.len() as int;
    let all = after_rules(tree, home, platform, include_system, rules, targets, n);
    let finding = all[k];
    let at = lemma_rule_of_finding(tree, home, platform, include_system, rules, targets, n, k);
    law_static_findings_are_sound(tree, home, platform, include_system, rules, targets, n);
    assert(sound_finding(tree, home, finding));
    let then = after_rules(tree, home, platform, include_system, rules, targets, at.0);
    law_first_rule_wins(tree, home, platform, include_system, rules, targets, at.0, n);
    assert forall|q: int, t: int| 0 <= q < at.0 implies !#[trigger] points_at(
        rules,
        targets,
        platform,
        include_system,
        q,
        t,
        finding.path,
    ) by {
        if points_at(rules, targets, platform, include_system, q, t, finding.path) {
            let after = after_rules(tree, home, platform, include_system, rules, targets, q + 1);
            lemma_in_use(rules[q], platform, include_system);
            law_first_rule_wins(tree, home, platform, include_system, rules, targets, q, n);
            assert(targets_of(targets, q)[t]@ == finding.path);
            assert(claimed(after, finding.path));
            let j = choose|j: int|
                0 <= j < after.len() && (#[trigger] after[j]).path == finding.path;
            law_first_rule_wins(tree, home, platform, include_system, rules, targets, q + 1, at.0);
            assert(after[j] == then.subrange(0, after.len() as int)[j]);
            assert(then[j] == all.subrange(0, then.len() as int)[j]);
            assert(all[j].path == all[k].path);
            assert(false);
        }
    }
    at
}

/// Whatever a rule in use points at is found, unless it was left out, is protected or
/// was not scanned.
pub proof fn law_every_place_is_found(
    tree: Tree,
    home: Seq<PartView>,
    platform: Platform,
    include_system: bool,
    rules: Seq<StaticRule>,
    targets: Seq<Vec<FsPath>>,
    r: int,
    t: int,
    path: Seq<PartView>,
)
    requires
        points_at(rules, targets, platform, include_system, r, t, path),
        forall|e: int|
            0 <= e < tree.stats.excluded_paths@.len() ==> !within(
                path,
                (#[trigger] tree.stats.excluded_paths@[e])@,
            ),
        protection(path, home).len() == 0,
        node_at(tree, path) is Some,
    ensures
        exists|k: int|
            0 <= k < after_rules(
                tree,
                home,
                platform,
                include_system,
                rules,
                targets,
                rules.len() as int,
            ).len() && (#[trigger] after_rules(
                tree,
                home,
                platform,
                include_system,
                rules,
                targets,
                rules.len() as int,
            )[k]).path == path,
{
    let n = rules.len() as int;
    lemma_in_use(rules[r], platform, include_system);
    law_first_rule_wins(tree, home, platform, include_system, rules, targets, r, n);
    law_first_rule_wins(tree, home, platform, include_system, rules, targets, r + 1, n);
    let after = after_rules(tree, home, platform, include_system, rules, targets, r + 1);
    let all = after_rules(tree, home, platform, include_system, rules, targets, n);
    assert(targets_of(targets, r)[t]@ == path);
    assert(offered(tree, home, path));
    assert(claimed(after, path));
    let k = choose|k: int| 0 <= k < after.len() && (#[trigger] after[k]).path == path;
    assert(after[k] == all.subrange(0, after.len() as int)[k]);
    assert(all[k].path == path);
}

/// Every artifact is a claim that counts, and carries what the claim's rule says,
/// with the path and the size of its directory and no warning.
pub proof fn law_artifacts_carry_their_rule(
    tree: Tree,
    platform: Platform,
    rules: Seq<ArtifactRuleView>,
    evidence: Evidence,
    k: int,
) -> (claim: ClaimView)
    requires
        arena(tree.nodes@),
        0 <= k < artifacts(tree, platform, rules, evidence).len(),
    ensures
        ({
            let finding = artifacts(tree, platform, rules, evidence)[k];
            let deferred = all_claims(tree, rules, evidence.inside@, true);
            &&& finding.node == claim.node
            &&& finding.node < tree.nodes@.len()
            &&& finding.path == node_path(tree, finding.node as int)
            &&& finding.size == tree.nodes@[finding.node as int].total_size
            &&& finding.rule_id == claim.rule.id
            &&& finding.tier == claim.rule.tier
            &&& finding.label == claim.rule.label
            &&& finding.regen == claim.rule.regen
            &&& finding.warn.len() == 0
            &&& finding.source == "project"@
            &&& {
                ||| all_claims(tree, rules, evidence.inside@, false).contains(claim)
                ||| kept_claims(
                    deferred,
                    evidence.with_git@,
                    evidence.ignored@,
                    platform,
                    repos(deferred, evidence.with_git@).len() as int,
                ).contains(claim)
            }
        }),
{
    let settled = settled_claims(tree, platform, rules, evidence);
    let all = project_findings(tree, settled);
    let at = lemma_survivors(all, all.len() as int);
    let claim = settled[at[k]];
    lemma_artifacts_about_nodes(tree, platform, rules, evidence, at[k]);
    let direct = all_claims(tree, rules, evidence.inside@, false);
    if at[k] < direct.len() {
        assert(direct[at[k]] == claim);
    } else {
        let deferred = all_claims(tree, rules, evidence.inside@, true);
        let kept = kept_claims(
            deferred,
            evidence.with_git@,
            evidence.ignored@,
            platform,
            repos(deferred, evidence.with_git@).len() as int,
        );
        assert(kept[at[k] - direct.len()] == claim);
    }
    reveal_strlit("");
    claim
}

/// Nothing that is proved is lost: a claim that counts lies in some artifact.
pub proof fn law_every_claim_is_in_an_artifact(
    tree: Tree,
    platform: Platform,
    rules: Seq<ArtifactRuleView>,
    evidence: Evidence,
    claim: ClaimView,
)
    requires
        ({
            let deferred = all_claims(tree, rules, evidence.inside@, true);
            ||| all_claims(tree, rules, evidence.inside@, false).contains(claim)
            ||| kept_claims(
                deferred,
                evidence.with_git@,
                evidence.ignored@,
                platform,
                repos(deferred, evidence.with_git@).len() as int,
            ).contains(claim)
        }),
    ensures
        exists|k: int|
            0 <= k < artifacts(tree, platform, rules, evidence).len() && within(
                claim.path,
                (#[trigger] artifacts(tree, platform, rules, evidence)[k]).path,
            ),
{
    let settled = settled_claims(tree, platform, rules, evidence);
    let direct = all_claims(tree, rules, evidence.inside@, false);
    let deferred = all_claims(tree, rules, evidence.inside@, true);
    let kept = kept_claims(
        deferred,
        evidence.with_git@,
        evidence.ignored@,
        platform,
        repos(deferred, evidence.with_git@).len() as int,
    );
    let i = if direct.contains(claim) {
        choose|i: int| 0 <= i < direct.len() && direct[i] == claim
    } else {
        direct.len() + (choose|i: int| 0 <= i < kept.len() && kept[i] == claim)
    };
    assert(settled[i] == claim);
    law_only_nested_artifacts_are_passed_over(tree, platform, rules, evidence, i);
}

/// Artifacts come before static findings, and all of both are there.
pub proof fn law_both_kinds_are_found(
    tree: Tree,
    home: Seq<PartView>,
    platform: Platform,
    include_system: bool,
    rules: Rules,
    evidence: Evidence,
)
    ensures
        ({
            let all = raw_findings(tree, home, platform, include_system, rules, evidence);
            let first = artifacts(tree, platform, rule_views(rules.artifacts@), evidence);
            let second = after_rules(
                tree,
                home,
                platform,
                include_system,
                rules.statics@,
                evidence.targets@,
                rules.statics@.len() as int,
            );
            &&& all.len() == first.len() + second.len()
            &&& forall|k: int| 0 <= k < first.len() ==> all[k] == #[trigger] first[k]
            &&& forall|k: int|
                0 <= k < second.len() ==> all[first.len() + k] == #[trigger] second[k]
        }),
{
}

/// A finding is dropped only for one that it lies inside, or for an earlier one at
/// the very same path; and nothing is kept that was not found.
pub proof fn law_kept_findings_are_outermost(
    all: Seq<FindingView>,
    kept: Seq<FindingView>,
    finding: FindingView,
)
    requires
        outermost(all, kept),
    ensures
        kept.contains(finding) <==> exists|i: int|
            0 <= i < all.len() && #[trigger] all[i] == finding && forall|j: int|
                0 <= j < all.len() && within(finding.path, (#[trigger] all[j]).path) ==> i <= j
                    && all[j].path == finding.path,
{
    if kept.contains(finding) {
        let k = choose|k: int| 0 <= k < kept.len() && kept[k] == finding;
        assert(is_survivor(all, kept[k]));
        let i = choose|i: int| #[trigger] survives(all, i) && all[i] == finding;
        assert forall|j: int|
            0 <= j < all.len() && within(finding.path, (#[trigger] all[j]).path) implies i <= j
            && all[j].path == finding.path by {
            if j != i {
                assert(!covers(all, j, i));
            }
        }
        assert(all[i] == finding);
    }
    if exists|i: int|
        0 <= i < all.len() && #[trigger] all[i] == finding && forall|j: int|
            0 <= j < all.len() && within(finding.path, (#[trigger] all[j]).path) ==> i <= j
                && all[j].path == finding.path {
        let i = choose|i: int|
            0 <= i < all.len() && #[trigger] all[i] == finding && forall|j: int|
                0 <= j < all.len() && within(finding.path, (#[trigger] all[j]).path) ==> i <= j
                    && all[j].path == finding.path;
        assert forall|j: int| 0 <= j < all.len() && j != i implies !#[trigger] covers(
            all,
            j,
            i,
        ) by {
            if covers(all, j, i) {
                assert(within(finding.path, all[j].path));
            }
        }
        assert(survives(all, i));
    }
}

/// What is kept stands in the order of its paths.
pub proof fn law_kept_findings_are_in_order(
    all: Seq<FindingView>,
    kept: Seq<FindingView>,
    a: int,
    b: int,
)
    requires
        outermost(all, kept),
        0 <= a < b < kept.len(),
    ensures
        path_le(kept[a].path, kept[b].path),
        kept[a].path != kept[b].path,
{
    assert(steps_up(kept, a, b));
}

/// Leaving rules out looks at each finding by itself: it stays, in its place, unless
/// its rule is one of them.
pub proof fn law_suppression_goes_by_the_rule(
    kept: Seq<FindingView>,
    finding: FindingView,
    excluded: Seq<String>,
)
    ensures
        unsuppressed(Seq::empty(), excluded).len() == 0,
        (forall|i: int| 0 <= i < excluded.len() ==> (#[trigger] excluded[i])@ != finding.rule_id)
            ==> unsuppressed(kept.push(finding), excluded) == unsuppressed(kept, excluded).push(
            finding,
        ),
        (exists|i: int| 0 <= i < excluded.len() && (#[trigger] excluded[i])@ == finding.rule_id)
            ==> unsuppressed(kept.push(finding), excluded) == unsuppressed(kept, excluded),
{
    let more = kept.push(finding);
    assert(more.drop_last() =~= kept);
    assert(more.last() == finding);
}

/// What the static rules find carries the words of the rule that found it, which is
/// the first rule in use that points there.
pub proof fn law_found_caches_speak_for_their_rule(
    tree: &Tree,
    home: &FsPath,
    platform: Platform,
    include_system: bool,
    rules: &Rules,
    targets: &Vec<Vec<FsPath>>,
    r: Vec<Finding>,
    k: int,
) -> (at: (int, int))
    requires
        call_ensures(
            static_findings,
            (tree, home, platform, include_system, rules, targets),
            r,
        ),
        0 <= k < r@.len(),
    ensures
        points_at(rules.statics@, targets@, platform, include_system, at.0, at.1, r@[k].path@),
        r@[k].rule_id@ == rules.statics@[at.0].id@,
        r@[k].tier@ == rules.statics@[at.0].tier@,
        r@[k].label@ == rules.statics@[at.0].label@,
        r@[k].regen@ == rules.statics@[at.0].regen@,
        r@[k].warn@ == rules.statics@[at.0].warn@,
        forall|q: int, t: int|
            0 <= q < at.0 ==> !#[trigger] points_at(
                rules.statics@,
                targets@,
                platform,
                include_system,
                q,
                t,
                r@[k].path@,
            ),
{
    let found = finding_views(r@);
    assert(found.len() == r@.len());
    assert(found[k] == r@[k]@);
    law_static_findings_carry_their_rule(
        *tree,
        home@,
        platform,
        include_system,
        rules.statics@,
        targets@,
        k,
    )
}

} // verus!
