//! Which directories of a tree the artifact rules claim.
//!
//! Directories under `Library`, `Applications` and the like are not searched,
//! and neither are hidden ones unless they are themselves the name of an
//! artifact. Index order is topological, so one forward pass suffices. What has to
//! be looked up on the disk, the names inside a candidate, is asked for and handed
//! back. Claims inside one another are settled once git's word is in.
use vstd::prelude::*;

use crate::path::{within, within_any, FsPath, PartView};
use crate::rollup::hangs_under;
use crate::rules::{
    first_fit, hidden_allowed, is_hidden_allowed, is_skipped_top_level, knows,
    law_markers_are_required, law_names_are_known_by_their_rules, law_top_level_names_left_alone,
    occurs, skip_top_level, ArtifactMatcher, ArtifactRule, ArtifactRuleView,
};
use crate::scan::{
    arena, child_agrees, listed_by_parent, node_path, parent_first, parent_indices, Node, Tree,
};

verus! {

/// Whether a path was left out of the scan on request.
pub open spec fn user_excluded(tree: Tree, path: Seq<PartView>) -> bool {
    within_any(path, tree.stats.excluded_paths@)
}

/// Whether a path was left out of the scan on request.
pub fn is_user_excluded(tree: &Tree, path: &FsPath) -> (r: bool)
    ensures
        r == user_excluded(*tree, path@),
{
    path.starts_with_any(&tree.stats.excluded_paths)
}

/// Whether a name may be searched at this depth.
pub open spec fn searched(node: Node, rules: Seq<ArtifactRuleView>) -> bool {
    hidden_allowed(rules, node.name@) && (node.depth != 1 || !skip_top_level(node.name@))
}

/// Whether artifacts are looked for at a node: every name on the way to it may
/// be searched.
pub open spec fn eligible(nodes: Seq<Node>, rules: Seq<ArtifactRuleView>, i: int) -> bool
    decreases i,
{
    if 0 < i < nodes.len() && nodes[i].parent < i {
        eligible(nodes, rules, nodes[i].parent as int) && searched(nodes[i], rules)
    } else {
        true
    }
}

/// Whether a node may turn out to be an artifact.
pub open spec fn candidate(tree: Tree, rules: Seq<ArtifactRuleView>, i: int) -> bool {
    &&& 0 < i < tree.nodes@.len()
    &&& eligible(tree.nodes@, rules, i)
    &&& knows(rules, tree.nodes@[i].name@)
    &&& !user_excluded(tree, node_path(tree, i))
}

/// The candidates among the first `n` nodes.
pub open spec fn candidates(tree: Tree, rules: Seq<ArtifactRuleView>, n: int) -> Seq<u32>
    decreases n,
{
    if n <= 0 {
        Seq::empty()
    } else if candidate(tree, rules, n - 1) {
        candidates(tree, rules, n - 1).push((n - 1) as u32)
    } else {
        candidates(tree, rules, n - 1)
    }
}

proof fn lemma_candidates(tree: Tree, rules: Seq<ArtifactRuleView>, n: int)
    requires
        0 <= n <= tree.nodes@.len() <= u32::MAX,
    ensures
        forall|k: int|
            0 <= k < candidates(tree, rules, n).len() ==> (#[trigger] candidates(
                tree,
                rules,
                n,
            )[k]) < n && candidate(tree, rules, candidates(tree, rules, n)[k] as int),
    decreases n,
{
    if n > 0 {
        lemma_candidates(tree, rules, n - 1);
        let before = candidates(tree, rules, n - 1);
        let all = candidates(tree, rules, n);
        assert forall|k: int| 0 <= k < all.len() implies (#[trigger] all[k]) < n && candidate(
            tree,
            rules,
            all[k] as int,
        ) by {
            if k < before.len() {
                assert(all[k] == before[k]);
            }
        }
    }
}

/// The nodes that may turn out to be artifacts, by index.
pub fn artifact_candidates(tree: &Tree, matcher: &ArtifactMatcher) -> (r: Vec<u32>)
    requires
        arena(tree.nodes@),
        matcher.wf(),
    ensures
        r@ == candidates(*tree, matcher@, tree.nodes@.len() as int),
{
    let ghost rules = matcher@;
    let mut open: Vec<bool> = Vec::new();
    let mut out: Vec<u32> = Vec::new();
    let mut i: usize = 0;
    while i < tree.nodes.len()
        invariant
            arena(tree.nodes@),
            matcher.wf(),
            rules == matcher@,
            i <= tree.nodes@.len() <= u32::MAX,
            open@.len() == i,
            forall|k: int| 0 <= k < i ==> #[trigger] open@[k] == eligible(tree.nodes@, rules, k),
            out@ == candidates(*tree, rules, i as int),
        decreases tree.nodes.len() - i,
    {
        if i == 0 {
            open.push(true);
        } else {
            assert(parent_first(tree.nodes@, i as int));
            let node = &tree.nodes[i];
            let may = open[node.parent as usize] && is_hidden_allowed(matcher, node.name.as_str())
                && (node.depth != 1 || !is_skipped_top_level(node.name.as_str()));
            open.push(may);
            if may && matcher.has_rule_for(node.name.as_str()) {
                let path = tree.path_of(i as u32);
                if !is_user_excluded(tree, &path) {
                    out.push(i as u32);
                }
            }
        }
        i += 1;
    }
    out
}

/// The names beside a node: its parent's other directories and marker files, and
/// its own.
pub open spec fn sibling_names(nodes: Seq<Node>, i: int) -> Seq<String> {
    let parent = nodes[nodes[i].parent as int];
    parent.children@.map_values(|c: u32| nodes[c as int].name) + parent.markers@
}

/// The names beside a node.
pub fn siblings_of(nodes: &Vec<Node>, i: usize) -> (r: Vec<String>)
    requires
        arena(nodes@),
        0 < i < nodes@.len(),
    ensures
        r@ == sibling_names(nodes@, i as int),
{
    assert(parent_first(nodes@, i as int));
    let parent: usize = nodes[i].parent as usize;
    let ghost all = sibling_names(nodes@, i as int);
    let ghost names = nodes@[parent as int].children@.map_values(
        |c: u32| nodes@[c as int].name,
    );
    let mut out: Vec<String> = Vec::new();
    let mut k: usize = 0;
    while k < nodes[parent].children.len()
        invariant
            arena(nodes@),
            parent < nodes@.len(),
            names == nodes@[parent as int].children@.map_values(|c: u32| nodes@[c as int].name),
            k <= names.len(),
            out@ == names.take(k as int),
        decreases names.len() - k,
    {
        assert(child_agrees(nodes@, parent as int, k as int));
        let c: u32 = nodes[parent].children[k];
        out.push(nodes[c as usize].name.clone());
        assert(names.take(k + 1) =~= names.take(k as int).push(names[k as int]));
        k += 1;
    }
    assert(names.take(names.len() as int) =~= names);
    let ghost markers = nodes@[parent as int].markers@;
    let mut m: usize = 0;
    while m < nodes[parent].markers.len()
        invariant
            parent < nodes@.len(),
            markers == nodes@[parent as int].markers@,
            m <= markers.len(),
            out@ == names + markers.take(m as int),
        decreases markers.len() - m,
    {
        out.push(nodes[parent].markers[m].clone());
        assert(names + markers.take(m + 1) =~= (names + markers.take(m as int)).push(
            markers[m as int],
        ));
        m += 1;
    }
    assert(markers.take(markers.len() as int) =~= markers);
    out
}

/// A directory that a rule claims.
#[derive(Debug)]
pub struct Claim {
    pub node: u32,
    pub path: FsPath,
    pub rule: ArtifactRule,
}

/// What a [`Claim`] says.
pub struct ClaimView {
    pub node: u32,
    pub path: Seq<PartView>,
    pub rule: ArtifactRuleView,
}

impl View for Claim {
    type V = ClaimView;

    open spec fn view(&self) -> ClaimView {
        ClaimView { node: self.node, path: self.path@, rule: self.rule@ }
    }
}

impl Clone for Claim {
    fn clone(&self) -> (r: Self)
        ensures
            r@ == self@,
    {
        Claim { node: self.node, path: self.path.clone(), rule: self.rule.clone() }
    }
}

/// What a list of claims says.
pub open spec fn claim_views(claims: Seq<Claim>) -> Seq<ClaimView> {
    claims.map_values(|claim: Claim| claim@)
}

/// The claim on a candidate, given the names found inside it.
pub open spec fn claim_on(
    tree: Tree,
    rules: Seq<ArtifactRuleView>,
    node: u32,
    inside: Seq<String>,
) -> Option<ClaimView> {
    let i = node as int;
    match first_fit(rules, 0, tree.nodes@[i].name@, sibling_names(tree.nodes@, i), inside) {
        Some(rule) => Some(
            ClaimView { node, path: node_path(tree, i), rule: rules[rule] },
        ),
        None => None,
    }
}

/// What was found inside the `k`th candidate: nothing where nothing was reported.
pub open spec fn reported(inside: Seq<Vec<String>>, k: int) -> Seq<String> {
    if 0 <= k < inside.len() {
        inside[k]@
    } else {
        Seq::empty()
    }
}

/// The claims on the first `n` candidates, in their order.
pub open spec fn made(
    tree: Tree,
    rules: Seq<ArtifactRuleView>,
    inside: Seq<Vec<String>>,
    n: int,
) -> Seq<ClaimView>
    decreases n,
{
    if n <= 0 {
        Seq::empty()
    } else {
        let before = made(tree, rules, inside, n - 1);
        let node = candidates(tree, rules, tree.nodes@.len() as int)[n - 1];
        match claim_on(tree, rules, node, reported(inside, n - 1)) {
            Some(claim) => before.push(claim),
            None => before,
        }
    }
}

/// The claims of a list that wait for git's word (`gated`), or those that do not.
pub open spec fn by_gate(list: Seq<ClaimView>, gated: bool) -> Seq<ClaimView>
    decreases list.len(),
{
    if list.len() == 0 {
        Seq::empty()
    } else if list.last().rule.need_gitignored == gated {
        by_gate(list.drop_last(), gated).push(list.last())
    } else {
        by_gate(list.drop_last(), gated)
    }
}

proof fn lemma_by_gate(list: Seq<ClaimView>, gated: bool)
    ensures
        forall|k: int|
            0 <= k < by_gate(list, gated).len() ==> list.contains(
                #[trigger] by_gate(list, gated)[k],
            ) && by_gate(list, gated)[k].rule.need_gitignored == gated,
        forall|k: int|
            0 <= k < list.len() && (#[trigger] list[k]).rule.need_gitignored == gated ==> by_gate(
                list,
                gated,
            ).contains(list[k]),
    decreases list.len(),
{
    if list.len() > 0 {
        let front = list.drop_last();
        lemma_by_gate(front, gated);
        let before = by_gate(front, gated);
        let all = by_gate(list, gated);
        assert forall|k: int| 0 <= k < all.len() implies list.contains(#[trigger] all[k])
            && all[k].rule.need_gitignored == gated by {
            if k < before.len() {
                assert(all[k] == before[k]);
                let m = choose|m: int| 0 <= m < front.len() && front[m] == before[k];
                assert(list[m] == all[k]);
            } else {
                assert(list[list.len() - 1] == all[k]);
            }
        }
        assert forall|k: int|
            0 <= k < list.len() && (#[trigger] list[k]).rule.need_gitignored
                == gated implies all.contains(list[k]) by {
            if k < front.len() {
                assert(front[k] == list[k]);
                let m = choose|m: int| 0 <= m < before.len() && before[m] == front[k];
                assert(all[m] == list[k]);
            } else {
                assert(all[before.len() as int] == list[k]);
            }
        }
    }
}

/// The claims on the first `n` candidates that wait for git's word (`gated`), or
/// those that do not.
pub open spec fn claims(
    tree: Tree,
    rules: Seq<ArtifactRuleView>,
    inside: Seq<Vec<String>>,
    gated: bool,
    n: int,
) -> Seq<ClaimView> {
    by_gate(made(tree, rules, inside, n), gated)
}

/// All claims that wait for git's word (`gated`), or all that do not.
pub open spec fn all_claims(
    tree: Tree,
    rules: Seq<ArtifactRuleView>,
    inside: Seq<Vec<String>>,
    gated: bool,
) -> Seq<ClaimView> {
    claims(
        tree,
        rules,
        inside,
        gated,
        candidates(tree, rules, tree.nodes@.len() as int).len() as int,
    )
}

/// The claims on a tree.
#[derive(Debug)]
pub struct Claims {
    pub direct: Vec<Claim>,
    /// Claims that only count where git ignores the directory.
    pub deferred: Vec<Claim>,
}

/// The claims on a tree. `inside` holds, for each candidate in turn, the wanted
/// names that exist in it.
pub fn artifact_claims(tree: &Tree, matcher: &ArtifactMatcher, inside: &Vec<Vec<String>>) -> (r:
    Claims)
    requires
        arena(tree.nodes@),
        matcher.wf(),
    ensures
        claim_views(r.direct@) == all_claims(*tree, matcher@, inside@, false),
        claim_views(r.deferred@) == all_claims(*tree, matcher@, inside@, true),
{
    let found = artifact_candidates(tree, matcher);
    let nothing: Vec<String> = Vec::new();
    let ghost rules = matcher@;
    let mut direct: Vec<Claim> = Vec::new();
    let mut deferred: Vec<Claim> = Vec::new();
    let ghost mut taken: Seq<ClaimView> = Seq::empty();
    assert(claim_views(direct@) =~= by_gate(taken, false));
    assert(claim_views(deferred@) =~= by_gate(taken, true));
    proof {
        lemma_candidates(*tree, rules, tree.nodes@.len() as int);
    }
    let mut k: usize = 0;
    while k < found.len()
        invariant
            arena(tree.nodes@),
            matcher.wf(),
            rules == matcher@,
            nothing@.len() == 0,
            found@ == candidates(*tree, rules, tree.nodes@.len() as int),
            forall|m: int|
                0 <= m < found@.len() ==> (#[trigger] found@[m]) < tree.nodes@.len() && candidate(
                    *tree,
                    rules,
                    found@[m] as int,
                ),
            k <= found@.len(),
            taken == made(*tree, rules, inside@, k as int),
            claim_views(direct@) == by_gate(taken, false),
            claim_views(deferred@) == by_gate(taken, true),
        decreases found.len() - k,
    {
        let node: u32 = found[k];
        assert(candidate(*tree, rules, node as int));
        let siblings = siblings_of(&tree.nodes, node as usize);
        let names = if k < inside.len() {
            &inside[k]
        } else {
            &nothing
        };
        assert(names@ =~= reported(inside@, k as int));
        let path = tree.path_of(node);
        match matcher.find(tree.nodes[node as usize].name.as_str(), &siblings, names) {
            Some(rule) => {
                let claim = Claim { node, path, rule: matcher.rules[rule].clone() };
                assert(matcher@[rule as int] == matcher.rules@[rule as int]@);
                assert(claim_on(*tree, rules, node, reported(inside@, k as int)) == Some(claim@));
                proof {
                    assert(taken.push(claim@).drop_last() =~= taken);
                    taken = taken.push(claim@);
                }
                if claim.rule.need_gitignored {
                    let ghost before = deferred@;
                    deferred.push(claim);
                    assert(claim_views(deferred@) =~= claim_views(before).push(claim@));
                } else {
                    let ghost before = direct@;
                    direct.push(claim);
                    assert(claim_views(direct@) =~= claim_views(before).push(claim@));
                }
            },
            None => {},
        }
        k += 1;
    }
    Claims { direct, deferred }
}

/// Whether a claim is on a candidate, by a rule about directories of its name.
pub open spec fn claims_candidate(
    tree: Tree,
    rules: Seq<ArtifactRuleView>,
    claim: ClaimView,
) -> bool {
    &&& candidate(tree, rules, claim.node as int)
    &&& claim.path == node_path(tree, claim.node as int)
    &&& claim.rule.dir_name == tree.nodes@[claim.node as int].name@
}

proof fn lemma_made_on_candidates(
    tree: Tree,
    rules: Seq<ArtifactRuleView>,
    inside: Seq<Vec<String>>,
    n: int,
)
    requires
        arena(tree.nodes@),
        0 <= n <= candidates(tree, rules, tree.nodes@.len() as int).len(),
    ensures
        forall|k: int|
            0 <= k < made(tree, rules, inside, n).len() ==> claims_candidate(
                tree,
                rules,
                #[trigger] made(tree, rules, inside, n)[k],
            ),
    decreases n,
{
    if n > 0 {
        lemma_made_on_candidates(tree, rules, inside, n - 1);
        lemma_candidates(tree, rules, tree.nodes@.len() as int);
        let node = candidates(tree, rules, tree.nodes@.len() as int)[n - 1];
        assert(candidate(tree, rules, node as int));
        crate::rules::law_markers_are_required(
            rules,
            0,
            tree.nodes@[node as int].name@,
            sibling_names(tree.nodes@, node as int),
            reported(inside, n - 1),
        );
        let before = made(tree, rules, inside, n - 1);
        let all = made(tree, rules, inside, n);
        assert forall|k: int| 0 <= k < all.len() implies claims_candidate(
            tree,
            rules,
            #[trigger] all[k],
        ) by {
            if k < before.len() {
                assert(all[k] == before[k]);
            }
        }
    }
}

/// Nothing in a directory that is not searched is claimed: a claim's directory
/// and every directory above it have names that may be searched.
pub proof fn law_claims_are_searched(
    tree: Tree,
    rules: Seq<ArtifactRuleView>,
    inside: Seq<Vec<String>>,
    gated: bool,
    n: int,
)
    requires
        arena(tree.nodes@),
        0 <= n <= candidates(tree, rules, tree.nodes@.len() as int).len(),
    ensures
        forall|k: int|
            0 <= k < claims(tree, rules, inside, gated, n).len() ==> claims_candidate(
                tree,
                rules,
                #[trigger] claims(tree, rules, inside, gated, n)[k],
            ) && claims(tree, rules, inside, gated, n)[k].rule.need_gitignored == gated,
{
    let list = made(tree, rules, inside, n);
    lemma_made_on_candidates(tree, rules, inside, n);
    lemma_by_gate(list, gated);
    let all = claims(tree, rules, inside, gated, n);
    assert forall|k: int| 0 <= k < all.len() implies claims_candidate(
        tree,
        rules,
        #[trigger] all[k],
    ) && all[k].rule.need_gitignored == gated by {
        let m = choose|m: int| 0 <= m < list.len() && list[m] == all[k];
        assert(claims_candidate(tree, rules, list[m]));
    }
}

// ---------------------------------------------------------------------------
// What claiming promises
// ---------------------------------------------------------------------------

/// Whether a directory may be searched for what its name and place are: it is not
/// hidden, or it is itself an artifact's name, and at the top level it is none of
/// those left alone.
pub open spec fn open_name(rules: Seq<ArtifactRuleView>, node: Node) -> bool {
    &&& node.name@.len() == 0 || node.name@[0] != '.' || exists|r: int|
        0 <= r < rules.len() && (#[trigger] rules[r]).dir_name == node.name@
    &&& node.depth == 1 ==> !seq![
        "Library"@,
        "Applications"@,
        "Movies"@,
        "Music"@,
        "Pictures"@,
        "Public"@,
        ".Trash"@,
        "Virtual Machines.localized"@,
        "AppData"@,
    ].contains(node.name@)
}

proof fn lemma_open_name(rules: Seq<ArtifactRuleView>, node: Node)
    ensures
        searched(node, rules) == open_name(rules, node),
{
    law_names_are_known_by_their_rules(rules, node.name@);
    law_top_level_names_left_alone(node.name@);
}

proof fn lemma_eligible(nodes: Seq<Node>, rules: Seq<ArtifactRuleView>, i: int)
    requires
        arena(nodes),
        0 <= i < nodes.len(),
    ensures
        eligible(nodes, rules, i) <==> forall|j: int|
            0 < j <= i && #[trigger] hangs_under(parent_indices(nodes), j, i) ==> open_name(
                rules,
                nodes[j],
            ),
    decreases i,
{
    if i > 0 {
        assert(parent_first(nodes, i));
        let parents = parent_indices(nodes);
        let up = nodes[i].parent as int;
        lemma_eligible(nodes, rules, up);
        lemma_open_name(rules, nodes[i]);
        assert(parents[i] == up);
        if eligible(nodes, rules, i) {
            assert forall|j: int| 0 < j <= i && #[trigger] hangs_under(parents, j, i) implies open_name(
                rules,
                nodes[j],
            ) by {
                if j != i {
                    assert(hangs_under(parents, j, up));
                    lemma_hangs_no_earlier(parents, j, up);
                }
            }
        }
        if forall|j: int|
            0 < j <= i && #[trigger] hangs_under(parents, j, i) ==> open_name(rules, nodes[j]) {
            assert(hangs_under(parents, i, i));
            assert forall|j: int| 0 < j <= up && #[trigger] hangs_under(
                parents,
                j,
                up,
            ) implies open_name(rules, nodes[j]) by {
                assert(hangs_under(parents, j, i));
            }
        }
    }
}

proof fn lemma_hangs_no_earlier(parents: Seq<int>, top: int, i: int)
    requires
        hangs_under(parents, top, i),
    ensures
        top <= i,
{
}

proof fn lemma_candidates_complete(tree: Tree, rules: Seq<ArtifactRuleView>, n: int, i: int)
    requires
        0 <= n <= tree.nodes@.len() <= u32::MAX,
        0 <= i < n,
        candidate(tree, rules, i),
    ensures
        candidates(tree, rules, n).contains(i as u32),
    decreases n,
{
    let before = candidates(tree, rules, n - 1);
    let all = candidates(tree, rules, n);
    if i < n - 1 {
        lemma_candidates_complete(tree, rules, n - 1, i);
        let k = choose|k: int| 0 <= k < before.len() && before[k] == i as u32;
        assert(all[k] == i as u32);
    } else {
        assert(all[before.len() as int] == i as u32);
    }
}

/// A directory may turn out to be an artifact exactly when some rule carries its
/// name, it was not left out, and it and every directory above it up to the root may
/// be searched.
pub proof fn law_candidates_are_what_may_be_searched(
    tree: Tree,
    rules: Seq<ArtifactRuleView>,
    i: int,
)
    requires
        arena(tree.nodes@),
        0 <= i < tree.nodes@.len(),
    ensures
        candidates(tree, rules, tree.nodes@.len() as int).contains(i as u32) <==> {
            &&& i > 0
            &&& exists|r: int|
                0 <= r < rules.len() && (#[trigger] rules[r]).dir_name == tree.nodes@[i].name@
            &&& forall|e: int|
                0 <= e < tree.stats.excluded_paths@.len() ==> !within(
                    node_path(tree, i),
                    (#[trigger] tree.stats.excluded_paths@[e])@,
                )
            &&& forall|j: int|
                0 < j <= i && #[trigger] hangs_under(parent_indices(tree.nodes@), j, i)
                    ==> open_name(rules, tree.nodes@[j])
        },
{
    let n = tree.nodes@.len() as int;
    lemma_candidates(tree, rules, n);
    lemma_eligible(tree.nodes@, rules, i);
    if candidate(tree, rules, i) {
        lemma_candidates_complete(tree, rules, n, i);
    }
    if candidates(tree, rules, n).contains(i as u32) {
        let k = choose|k: int|
            0 <= k < candidates(tree, rules, n).len() && candidates(tree, rules, n)[k] == i as u32;
        assert(candidate(tree, rules, candidates(tree, rules, n)[k] as int));
    }
}

/// What lies beside a directory are the directories in its parent, itself among
/// them, and the marker files there.
pub proof fn law_siblings_are_what_the_parent_holds(nodes: Seq<Node>, i: int, text: Seq<char>)
    requires
        arena(nodes),
        0 < i < nodes.len(),
    ensures
        occurs(text, sibling_names(nodes, i)) <==> {
            ||| exists|j: int|
                0 < j < nodes.len() && (#[trigger] nodes[j]).parent == nodes[i].parent
                    && nodes[j].name@ == text
            ||| exists|m: int|
                0 <= m < nodes[nodes[i].parent as int].markers@.len()
                    && #[trigger] nodes[nodes[i].parent as int].markers@[m]@ == text
        },
{
    assert(parent_first(nodes, i));
    let p = nodes[i].parent as int;
    let children = nodes[p].children@;
    let all = sibling_names(nodes, i);
    if occurs(text, all) {
        let k = choose|k: int| 0 <= k < all.len() && text == (#[trigger] all[k])@;
        if k < children.len() {
            assert(child_agrees(nodes, p, k));
            let j = children[k] as int;
            assert(nodes[j].parent == p && nodes[j].name@ == text);
        } else {
            assert(nodes[p].markers@[k - children.len()]@ == text);
        }
    }
    if exists|j: int|
        0 < j < nodes.len() && (#[trigger] nodes[j]).parent == nodes[i].parent && nodes[j].name@
            == text {
        let j = choose|j: int|
            0 < j < nodes.len() && (#[trigger] nodes[j]).parent == nodes[i].parent && nodes[j].name@
                == text;
        assert(listed_by_parent(nodes, j));
        let k = choose|k: int| 0 <= k < children.len() && children[k] == j as u32;
        assert(text == all[k]@);
    }
    if exists|m: int|
        0 <= m < nodes[p].markers@.len() && #[trigger] nodes[p].markers@[m]@ == text {
        let m = choose|m: int|
            0 <= m < nodes[p].markers@.len() && #[trigger] nodes[p].markers@[m]@ == text;
        assert(text == all[children.len() + m]@);
    }
}

/// Whether a claim is on the `c`th candidate, by the `r`th rule, which is the first
/// whose markers and contents prove the directory to be what it claims.
pub open spec fn claimed_by(
    tree: Tree,
    rules: Seq<ArtifactRuleView>,
    inside: Seq<Vec<String>>,
    claim: ClaimView,
    c: int,
    r: int,
) -> bool {
    let node = candidates(tree, rules, tree.nodes@.len() as int)[c];
    &&& claim.node == node
    &&& claim.path == node_path(tree, node as int)
    &&& 0 <= r < rules.len()
    &&& claim.rule == rules[r]
    &&& first_fit(
        rules,
        0,
        tree.nodes@[node as int].name@,
        sibling_names(tree.nodes@, node as int),
        if c < inside.len() {
            inside[c]@
        } else {
            Seq::empty()
        },
    ) == Some(r)
}

/// Every claim is on a candidate that a rule of the table proves.
pub proof fn law_claims_come_from_the_table(
    tree: Tree,
    rules: Seq<ArtifactRuleView>,
    inside: Seq<Vec<String>>,
    n: int,
    k: int,
) -> (at: (int, int))
    requires
        arena(tree.nodes@),
        0 <= n <= candidates(tree, rules, tree.nodes@.len() as int).len(),
        0 <= k < made(tree, rules, inside, n).len(),
    ensures
        0 <= at.0 < n,
        claimed_by(tree, rules, inside, made(tree, rules, inside, n)[k], at.0, at.1),
    decreases n,
{
    let before = made(tree, rules, inside, n - 1);
    if k < before.len() {
        law_claims_come_from_the_table(tree, rules, inside, n - 1, k)
    } else {
        let node = candidates(tree, rules, tree.nodes@.len() as int)[n - 1];
        let name = tree.nodes@[node as int].name@;
        let siblings = sibling_names(tree.nodes@, node as int);
        law_markers_are_required(rules, 0, name, siblings, reported(inside, n - 1));
        (n - 1, first_fit(rules, 0, name, siblings, reported(inside, n - 1))->0)
    }
}

/// Every candidate that a rule of the table proves is claimed by that rule.
pub proof fn law_every_proof_is_claimed(
    tree: Tree,
    rules: Seq<ArtifactRuleView>,
    inside: Seq<Vec<String>>,
    n: int,
    c: int,
    r: int,
)
    requires
        0 <= c < n <= candidates(tree, rules, tree.nodes@.len() as int).len(),
        first_fit(
            rules,
            0,
            tree.nodes@[candidates(tree, rules, tree.nodes@.len() as int)[c] as int].name@,
            sibling_names(
                tree.nodes@,
                candidates(tree, rules, tree.nodes@.len() as int)[c] as int,
            ),
            if c < inside.len() {
                inside[c]@
            } else {
                Seq::empty()
            },
        ) == Some(r),
    ensures
        exists|k: int|
            0 <= k < claims(tree, rules, inside, rules[r].need_gitignored, n).len() && (
            #[trigger] claims(tree, rules, inside, rules[r].need_gitignored, n)[k]).node
                == candidates(tree, rules, tree.nodes@.len() as int)[c] && claims(
                tree,
                rules,
                inside,
                rules[r].need_gitignored,
                n,
            )[k].rule == rules[r],
    decreases n,
{
    let list = made(tree, rules, inside, n);
    let gated = rules[r].need_gitignored;
    let m = lemma_made_holds(tree, rules, inside, n, c, r);
    lemma_by_gate(list, gated);
    let mine = by_gate(list, gated);
    assert(mine.contains(list[m]));
    let k = choose|k: int| 0 <= k < mine.len() && mine[k] == list[m];
    assert(claims(tree, rules, inside, gated, n)[k] == list[m]);
}

proof fn lemma_made_holds(
    tree: Tree,
    rules: Seq<ArtifactRuleView>,
    inside: Seq<Vec<String>>,
    n: int,
    c: int,
    r: int,
) -> (m: int)
    requires
        0 <= c < n <= candidates(tree, rules, tree.nodes@.len() as int).len(),
        first_fit(
            rules,
            0,
            tree.nodes@[candidates(tree, rules, tree.nodes@.len() as int)[c] as int].name@,
            sibling_names(
                tree.nodes@,
                candidates(tree, rules, tree.nodes@.len() as int)[c] as int,
            ),
            reported(inside, c),
        ) == Some(r),
    ensures
        0 <= m < made(tree, rules, inside, n).len(),
        made(tree, rules, inside, n)[m].node == candidates(
            tree,
            rules,
            tree.nodes@.len() as int,
        )[c],
        made(tree, rules, inside, n)[m].rule == rules[r],
    decreases n,
{
    let before = made(tree, rules, inside, n - 1);
    if c < n - 1 {
        lemma_made_holds(tree, rules, inside, n - 1, c, r)
    } else {
        before.len() as int
    }
}

/// A claim waits for git's word exactly when its rule says so, and no claim is lost
/// between those that do and those that do not.
pub proof fn law_gates_sort_claims(list: Seq<ClaimView>, claim: ClaimView)
    ensures
        by_gate(list, true).contains(claim) <==> list.contains(claim)
            && claim.rule.need_gitignored,
        by_gate(list, false).contains(claim) <==> list.contains(claim)
            && !claim.rule.need_gitignored,
        by_gate(list, true).len() + by_gate(list, false).len() == list.len(),
{
    lemma_by_gate(list, true);
    lemma_by_gate(list, false);
    lemma_gates_count(list);
}

proof fn lemma_gates_count(list: Seq<ClaimView>)
    ensures
        by_gate(list, true).len() + by_gate(list, false).len() == list.len(),
    decreases list.len(),
{
    if list.len() > 0 {
        lemma_gates_count(list.drop_last());
    }
}

} // verus!
