//! The rule table: which directories count as caches or build output.
//!
//! A static rule names a place on the disk. An artifact rule names a kind of
//! directory found anywhere, which has to prove what it is: its markers must lie
//! beside it and its required contents inside it.
use vstd::prelude::*;

use crate::path::Platform;
use crate::text::{contains_text, listed, starts_with, texts};

verus! {

/// Top-level directories that are not searched for project artifacts.
pub open spec fn skip_top_level(name: Seq<char>) -> bool {
    ||| name == "Library"@
    ||| name == "Applications"@
    ||| name == "Movies"@
    ||| name == "Music"@
    ||| name == "Pictures"@
    ||| name == "Public"@
    ||| name == ".Trash"@
    ||| name == "Virtual Machines.localized"@
    ||| name == "AppData"@
}

/// Whether a top-level directory of this name is not searched for project
/// artifacts.
pub fn is_skipped_top_level(name: &str) -> (r: bool)
    ensures
        r == skip_top_level(name@),
{
    *name == *"Library" || *name == *"Applications" || *name == *"Movies" || *name == *"Music"
        || *name == *"Pictures" || *name == *"Public" || *name == *".Trash" || *name
        == *"Virtual Machines.localized" || *name == *"AppData"
}

/// How the rule table calls an operating system.
pub open spec fn platform_name(platform: Platform) -> Seq<char> {
    match platform {
        Platform::MacOs => "macos"@,
        Platform::Windows => "windows"@,
        Platform::Linux => "linux"@,
    }
}

/// How the rule table calls an operating system.
pub fn name_of_platform(platform: Platform) -> (r: String)
    ensures
        r@ == platform_name(platform),
{
    match platform {
        Platform::MacOs => "macos".to_string(),
        Platform::Windows => "windows".to_string(),
        Platform::Linux => "linux".to_string(),
    }
}

/// A rule about one place on the disk.
#[derive(Debug)]
pub struct StaticRule {
    pub id: String,
    pub tier: String,
    pub glob: String,
    pub label: String,
    pub regen: String,
    /// Whether what lies inside the place is meant, and not the place itself.
    pub children: bool,
    pub warn: String,
    pub system: bool,
    /// `any`, or the one operating system this path exists on.
    pub os: String,
}

impl StaticRule {
    pub open spec fn applies(&self, platform: Platform) -> bool {
        self.os@ == "any"@ || self.os@ == platform_name(platform)
    }

    /// Whether the rule's path can exist on this operating system.
    pub fn applies_here(&self, platform: Platform) -> (r: bool)
        ensures
            r == self.applies(platform),
    {
        let name = name_of_platform(platform);
        *self.os.as_str() == *"any" || *self.os.as_str() == *name.as_str()
    }
}

/// A rule about a kind of directory.
#[derive(Debug)]
pub struct ArtifactRule {
    pub dir_name: String,
    pub id: String,
    pub tier: String,
    pub label: String,
    pub regen: String,
    /// Names of which one must lie beside the directory. Any will do.
    pub markers: Vec<String>,
    /// Names that must all lie inside the directory.
    pub contains: Vec<String>,
    /// Whether git must ignore the directory as well.
    pub need_gitignored: bool,
}

/// What an [`ArtifactRule`] says.
pub struct ArtifactRuleView {
    pub dir_name: Seq<char>,
    pub id: Seq<char>,
    pub tier: Seq<char>,
    pub label: Seq<char>,
    pub regen: Seq<char>,
    pub markers: Seq<Seq<char>>,
    pub contains: Seq<Seq<char>>,
    pub need_gitignored: bool,
}

impl View for ArtifactRule {
    type V = ArtifactRuleView;

    open spec fn view(&self) -> ArtifactRuleView {
        ArtifactRuleView {
            dir_name: self.dir_name@,
            id: self.id@,
            tier: self.tier@,
            label: self.label@,
            regen: self.regen@,
            markers: texts(self.markers@),
            contains: texts(self.contains@),
            need_gitignored: self.need_gitignored,
        }
    }
}

impl Clone for ArtifactRule {
    fn clone(&self) -> (r: Self)
        ensures
            r@ == self@,
    {
        ArtifactRule {
            dir_name: self.dir_name.clone(),
            id: self.id.clone(),
            tier: self.tier.clone(),
            label: self.label.clone(),
            regen: self.regen.clone(),
            markers: self.markers.clone(),
            contains: self.contains.clone(),
            need_gitignored: self.need_gitignored,
        }
    }
}

/// What a list of artifact rules says.
pub open spec fn rule_views(rules: Seq<ArtifactRule>) -> Seq<ArtifactRuleView> {
    rules.map_values(|rule: ArtifactRule| rule@)
}

/// The whole table. Order matters: specific rules stand before generic ones.
#[derive(Debug)]
pub struct Rules {
    pub schema: u32,
    pub version: String,
    pub statics: Vec<StaticRule>,
    pub artifacts: Vec<ArtifactRule>,
}

// ---------------------------------------------------------------------------
// Grouping by directory name
// ---------------------------------------------------------------------------

/// The directory names of the rules, each once, in the order in which they first
/// appear.
pub open spec fn distinct_names(rules: Seq<ArtifactRuleView>) -> Seq<Seq<char>>
    decreases rules.len(),
{
    if rules.len() == 0 {
        Seq::empty()
    } else {
        let before = distinct_names(rules.drop_last());
        if before.contains(rules.last().dir_name) {
            before
        } else {
            before.push(rules.last().dir_name)
        }
    }
}

/// The indices of the rules for a directory name, in table order.
pub open spec fn named(rules: Seq<ArtifactRuleView>, name: Seq<char>) -> Seq<int>
    decreases rules.len(),
{
    if rules.len() == 0 {
        Seq::empty()
    } else if rules.last().dir_name == name {
        named(rules.drop_last(), name).push(rules.len() - 1)
    } else {
        named(rules.drop_last(), name)
    }
}

/// The rules for one directory name, by index.
#[derive(Debug)]
pub struct NameGroup {
    pub name: String,
    pub rules: Vec<usize>,
}

/// A list of indices as integers.
pub open spec fn indices(list: Seq<usize>) -> Seq<int> {
    list.map_values(|i: usize| i as int)
}

/// Whether the groups are the rules bucketed by directory name.
pub open spec fn bucketed(rules: Seq<ArtifactRuleView>, groups: Seq<NameGroup>) -> bool {
    &&& groups.len() == distinct_names(rules).len()
    &&& forall|g: int|
        0 <= g < groups.len() ==> (#[trigger] groups[g]).name@ == distinct_names(rules)[g]
            && indices(groups[g].rules@) == named(rules, groups[g].name@)
}

proof fn lemma_distinct_names(rules: Seq<ArtifactRuleView>)
    ensures
        forall|i: int|
            0 <= i < rules.len() ==> distinct_names(rules).contains(#[trigger] rules[i].dir_name),
        distinct_names(rules).no_duplicates(),
        forall|g: int|
            0 <= g < distinct_names(rules).len() ==> exists|i: int|
                0 <= i < rules.len() && (#[trigger] rules[i]).dir_name
                    == #[trigger] distinct_names(rules)[g],
    decreases rules.len(),
{
    if rules.len() > 0 {
        let front = rules.drop_last();
        lemma_distinct_names(front);
        let before = distinct_names(front);
        let all = distinct_names(rules);
        assert forall|i: int| 0 <= i < rules.len() implies all.contains(
            #[trigger] rules[i].dir_name,
        ) by {
            if i < front.len() {
                assert(front[i] == rules[i]);
                let g = choose|g: int| 0 <= g < before.len() && before[g] == rules[i].dir_name;
                assert(all[g] == before[g]);
            } else if !before.contains(rules.last().dir_name) {
                assert(all[before.len() as int] == rules[i].dir_name);
            }
        }
        assert forall|g: int| 0 <= g < all.len() implies exists|i: int|
            0 <= i < rules.len() && (#[trigger] rules[i]).dir_name == #[trigger] all[g] by {
            if g < before.len() {
                assert(all[g] == before[g]);
                let i = choose|i: int|
                    0 <= i < front.len() && (#[trigger] front[i]).dir_name == before[g];
                assert(rules[i].dir_name == all[g]);
            } else {
                assert(rules[rules.len() - 1].dir_name == all[g]);
            }
        }
    }
}

proof fn lemma_named(rules: Seq<ArtifactRuleView>, name: Seq<char>)
    ensures
        forall|k: int|
            0 <= k < named(rules, name).len() ==> 0 <= #[trigger] named(rules, name)[k]
                < rules.len() && rules[named(rules, name)[k]].dir_name == name,
        forall|k: int, m: int|
            0 <= k < m < named(rules, name).len() ==> #[trigger] named(rules, name)[k]
                < #[trigger] named(rules, name)[m],
        forall|i: int|
            0 <= i < rules.len() && rules[i].dir_name == name ==> named(
                rules,
                name,
            ).contains(i),
    decreases rules.len(),
{
    if rules.len() > 0 {
        let front = rules.drop_last();
        lemma_named(front, name);
        let before = named(front, name);
        let all = named(rules, name);
        assert forall|i: int| 0 <= i < rules.len() && rules[i].dir_name == name implies all.contains(
            i,
        ) by {
            if i < front.len() {
                assert(front[i] == rules[i]);
                assert(before.contains(i));
                let k = choose|k: int| 0 <= k < before.len() && before[k] == i;
                assert(all[k] == i);
            } else {
                assert(all[before.len() as int] == i);
            }
        }
        assert forall|k: int| 0 <= k < all.len() implies 0 <= #[trigger] all[k] < rules.len()
            && rules[all[k]].dir_name == name by {
            if k < before.len() {
                assert(all[k] == before[k]);
                assert(front[before[k]] == rules[all[k]]);
            }
        }
        assert forall|k: int, m: int| 0 <= k < m < all.len() implies #[trigger] all[k]
            < #[trigger] all[m] by {
            assert(all[k] == before[k]);
            if m < before.len() {
                assert(all[m] == before[m]);
            }
        }
    }
}

/// Bucket rules by the directory name they apply to.
fn bucket(rules: &Vec<ArtifactRule>) -> (r: Vec<NameGroup>)
    ensures
        bucketed(rule_views(rules@), r@),
{
    let ghost all = rule_views(rules@);
    let mut groups: Vec<NameGroup> = Vec::new();
    let mut i: usize = 0;
    while i < rules.len()
        invariant
            i <= rules.len(),
            all == rule_views(rules@),
            bucketed(all.take(i as int), groups@),
        decreases rules.len() - i,
    {
        let ghost before = all.take(i as int);
        let ghost now = all.take(i + 1);
        let ghost name = rules@[i as int].dir_name@;
        proof {
            assert(now.drop_last() =~= before);
            assert(now.last() == rules@[i as int]@);
            lemma_distinct_names(before);
        }
        let mut g: usize = 0;
        while g < groups.len() && *groups[g].name.as_str() != *rules[i].dir_name.as_str()
            invariant
                i < rules.len(),
                g <= groups.len(),
                name == rules@[i as int].dir_name@,
                forall|k: int| 0 <= k < g ==> (#[trigger] groups@[k]).name@ != name,
            decreases groups.len() - g,
        {
            g += 1;
        }
        if g < groups.len() {
            let ghost old_groups = groups@;
            groups[g].rules.push(i);
            proof {
                assert(distinct_names(before)[g as int] == name);
                assert(distinct_names(now) == distinct_names(before));
                assert forall|k: int| 0 <= k < groups@.len() implies (#[trigger] groups@[k]).name@
                    == distinct_names(now)[k] && indices(groups@[k].rules@) == named(
                    now,
                    groups@[k].name@,
                ) by {
                    assert(groups@[k].name == old_groups[k].name);
                    if k == g {
                        assert(indices(groups@[k].rules@) =~= indices(old_groups[k].rules@).push(
                            i as int,
                        ));
                    } else {
                        assert(groups@[k] == old_groups[k]);
                        assert(distinct_names(before)[k] != distinct_names(before)[g as int]);
                    }
                }
            }
        } else {
            let ghost old_groups = groups@;
            let mut members: Vec<usize> = Vec::new();
            members.push(i);
            groups.push(NameGroup { name: rules[i].dir_name.clone(), rules: members });
            proof {
                if distinct_names(before).contains(name) {
                    let k = choose|k: int|
                        0 <= k < distinct_names(before).len() && distinct_names(before)[k] == name;
                    assert(old_groups[k].name@ == name);
                }
                assert(distinct_names(now) == distinct_names(before).push(name));
                lemma_named(before, name);
                if named(before, name).len() > 0 {
                    let j = named(before, name)[0];
                    assert(distinct_names(before).contains(before[j].dir_name));
                }
                assert(named(now, name) =~= seq![i as int]);
                assert forall|k: int| 0 <= k < groups@.len() implies (#[trigger] groups@[k]).name@
                    == distinct_names(now)[k] && indices(groups@[k].rules@) == named(
                    now,
                    groups@[k].name@,
                ) by {
                    if k == old_groups.len() {
                        assert(indices(groups@[k].rules@) =~= seq![i as int]);
                    } else {
                        assert(groups@[k] == old_groups[k]);
                        assert(old_groups[k].name@ != name);
                    }
                }
            }
        }
        i += 1;
    }
    assert(all.take(all.len() as int) =~= all);
    groups
}

impl Rules {
    /// Artifact rules bucketed by the directory name they apply to.
    pub fn by_dir_name(&self) -> (r: Vec<NameGroup>)
        ensures
            bucketed(rule_views(self.artifacts@), r@),
    {
        bucket(&self.artifacts)
    }
}

/// Whether any rule asks about a marker of this name.
pub open spec fn asked_for(rules: Seq<ArtifactRule>, name: Seq<char>) -> bool {
    exists|i: int| 0 <= i < rules.len() && listed((#[trigger] rules[i]).markers@, name)
}

/// Every marker name any artifact rule asks about, each once. Handed to the
/// scanner so that it records just these names and not every file.
pub fn marker_vocabulary(rules: &Rules) -> (r: Vec<String>)
    ensures
        forall|name: Seq<char>|
            #[trigger] listed(r@, name) <==> asked_for(rules.artifacts@, name),
        texts(r@).no_duplicates(),
{
    let mut out: Vec<String> = Vec::new();
    let mut i: usize = 0;
    while i < rules.artifacts.len()
        invariant
            i <= rules.artifacts.len(),
            forall|name: Seq<char>|
                #[trigger] listed(out@, name) <==> asked_for(
                    rules.artifacts@.take(i as int),
                    name,
                ),
            texts(out@).no_duplicates(),
        decreases rules.artifacts.len() - i,
    {
        let ghost sofar = rules.artifacts@.take(i as int);
        let ghost now = rules.artifacts@.take(i + 1);
        let ghost markers = rules.artifacts@[i as int].markers@;
        let mut k: usize = 0;
        while k < rules.artifacts[i as usize].markers.len()
            invariant
                i < rules.artifacts.len(),
                markers == rules.artifacts@[i as int].markers@,
                k <= markers.len(),
                forall|name: Seq<char>|
                    #[trigger] listed(out@, name) <==> asked_for(sofar, name) || listed(
                        markers.take(k as int),
                        name,
                    ),
                texts(out@).no_duplicates(),
            decreases markers.len() - k,
        {
            let marker = &rules.artifacts[i].markers[k];
            let ghost before = out@;
            let known = contains_text(&out, marker.as_str());
            if !known {
                out.push(marker.clone());
            }
            proof {
                let next = markers.take(k + 1);
                assert(next[k as int] == *marker);
                if !known {
                    assert(out@[before.len() as int]@ == marker@);
                    assert forall|a: int, b: int|
                        0 <= a < b < out@.len() implies texts(out@)[a] != texts(out@)[b] by {
                        assert(texts(out@)[a] == texts(before)[a]);
                        assert(before[a]@ == texts(out@)[a]);
                        if b < before.len() {
                            assert(texts(out@)[b] == texts(before)[b]);
                        }
                    }
                }
                assert forall|name: Seq<char>|
                    #[trigger] listed(out@, name) <==> asked_for(sofar, name) || listed(
                        next,
                        name,
                    ) by {
                    if listed(out@, name) && name != marker@ {
                        let a = choose|a: int| 0 <= a < out@.len() && (#[trigger] out@[a])@ == name;
                        assert(before[a]@ == name);
                        assert(listed(before, name));
                        if listed(markers.take(k as int), name) {
                            let m = choose|m: int|
                                0 <= m < k && (#[trigger] markers.take(k as int)[m])@ == name;
                            assert(next[m]@ == name);
                        }
                    }
                    if listed(next, name) && name != marker@ {
                        let m = choose|m: int| 0 <= m < next.len() && (#[trigger] next[m])@ == name;
                        assert(markers.take(k as int)[m]@ == name);
                        assert(listed(before, name));
                    }
                    if asked_for(sofar, name) {
                        assert(listed(before, name));
                    }
                    if listed(before, name) {
                        let a = choose|a: int|
                            0 <= a < before.len() && (#[trigger] before[a])@ == name;
                        assert(out@[a]@ == name);
                    }
                }
            }
            k += 1;
        }
        proof {
            assert(markers.take(markers.len() as int) =~= markers);
            assert forall|name: Seq<char>|
                #[trigger] listed(out@, name) <==> asked_for(now, name) by {
                if asked_for(sofar, name) {
                    let a = choose|a: int|
                        0 <= a < sofar.len() && listed((#[trigger] sofar[a]).markers@, name);
                    assert(now[a] == sofar[a]);
                }
                if listed(markers, name) {
                    assert(now[i as int].markers@ == markers);
                }
                if asked_for(now, name) {
                    let a = choose|a: int|
                        0 <= a < now.len() && listed((#[trigger] now[a]).markers@, name);
                    if a < i {
                        assert(sofar[a] == now[a]);
                    }
                }
            }
        }
        i += 1;
    }
    assert(rules.artifacts@.take(rules.artifacts@.len() as int) =~= rules.artifacts@);
    out
}

// ---------------------------------------------------------------------------
// Matching
// ---------------------------------------------------------------------------

/// Whether a rule claims a directory of this name, with these names beside it
/// and these inside it.
pub open spec fn rule_fits(
    rule: ArtifactRuleView,
    name: Seq<char>,
    siblings: Seq<String>,
    inside: Seq<String>,
) -> bool {
    &&& rule.dir_name == name
    &&& rule.markers.len() == 0 || exists|k: int|
        0 <= k < rule.markers.len() && listed(siblings, #[trigger] rule.markers[k])
    &&& forall|k: int|
        0 <= k < rule.contains.len() ==> listed(inside, #[trigger] rule.contains[k])
}

/// The first rule, from `from` on, that claims the directory.
pub open spec fn first_fit(
    rules: Seq<ArtifactRuleView>,
    from: int,
    name: Seq<char>,
    siblings: Seq<String>,
    inside: Seq<String>,
) -> Option<int>
    decreases rules.len() - from,
{
    if from >= rules.len() {
        None
    } else if rule_fits(rules[from], name, siblings, inside) {
        Some(from)
    } else {
        first_fit(rules, from + 1, name, siblings, inside)
    }
}

proof fn lemma_first_fit_is(
    rules: Seq<ArtifactRuleView>,
    from: int,
    name: Seq<char>,
    siblings: Seq<String>,
    inside: Seq<String>,
    i: int,
)
    requires
        0 <= from <= i <= rules.len(),
        forall|j: int|
            from <= j < i ==> !rule_fits(#[trigger] rules[j], name, siblings, inside),
        i < rules.len() ==> rule_fits(rules[i], name, siblings, inside),
    ensures
        first_fit(rules, from, name, siblings, inside) == (if i < rules.len() {
            Some(i)
        } else {
            None
        }),
    decreases i - from,
{
    if from < i {
        lemma_first_fit_is(rules, from + 1, name, siblings, inside, i);
    }
}

/// Whether one of a rule's markers is among the names beside the directory.
fn marked(rule: &ArtifactRule, siblings: &Vec<String>) -> (r: bool)
    ensures
        r == (rule@.markers.len() == 0 || exists|k: int|
            0 <= k < rule@.markers.len() && listed(siblings@, #[trigger] rule@.markers[k])),
{
    if rule.markers.len() == 0 {
        return true;
    }
    let mut k: usize = 0;
    while k < rule.markers.len()
        invariant
            k <= rule.markers.len(),
            forall|m: int| 0 <= m < k ==> !listed(siblings@, #[trigger] rule@.markers[m]),
        decreases rule.markers.len() - k,
    {
        if contains_text(siblings, rule.markers[k].as_str()) {
            assert(rule@.markers[k as int] == rule.markers@[k as int]@);
            return true;
        }
        k += 1;
    }
    false
}

/// Whether everything a rule wants inside the directory is there.
fn furnished(rule: &ArtifactRule, inside: &Vec<String>) -> (r: bool)
    ensures
        r == forall|k: int|
            0 <= k < rule@.contains.len() ==> listed(inside@, #[trigger] rule@.contains[k]),
{
    let mut k: usize = 0;
    while k < rule.contains.len()
        invariant
            k <= rule.contains.len(),
            forall|m: int| 0 <= m < k ==> listed(inside@, #[trigger] rule@.contains[m]),
        decreases rule.contains.len() - k,
    {
        if !contains_text(inside, rule.contains[k].as_str()) {
            assert(rule@.contains[k as int] == rule.contains@[k as int]@);
            return false;
        }
        k += 1;
    }
    true
}

/// Decides whether a directory met during the walk is a build artifact.
///
/// A rule only claims a directory when its markers sit alongside it and its
/// required contents are present.
#[derive(Debug)]
pub struct ArtifactMatcher {
    pub rules: Vec<ArtifactRule>,
    pub by_name: Vec<NameGroup>,
}

impl View for ArtifactMatcher {
    type V = Seq<ArtifactRuleView>;

    open spec fn view(&self) -> Seq<ArtifactRuleView> {
        rule_views(self.rules@)
    }
}

/// A copy of a list of rules.
fn copy_rules(rules: &Vec<ArtifactRule>) -> (r: Vec<ArtifactRule>)
    ensures
        rule_views(r@) == rule_views(rules@),
{
    let mut out: Vec<ArtifactRule> = Vec::new();
    let mut i: usize = 0;
    while i < rules.len()
        invariant
            i <= rules.len(),
            rule_views(out@) == rule_views(rules@).take(i as int),
        decreases rules.len() - i,
    {
        let ghost before = out@;
        out.push(rules[i].clone());
        assert(rule_views(out@) =~= rule_views(before).push(rules@[i as int]@));
        assert(rule_views(rules@).take(i + 1) =~= rule_views(rules@).take(i as int).push(
            rules@[i as int]@,
        ));
        i += 1;
    }
    assert(rule_views(out@) =~= rule_views(rules@));
    out
}

impl ArtifactMatcher {
    pub open spec fn wf(&self) -> bool {
        bucketed(self@, self.by_name@)
    }

    /// A matcher for a table.
    pub fn new(rules: &Rules) -> (r: ArtifactMatcher)
        ensures
            r.wf(),
            r@ == rule_views(rules.artifacts@),
    {
        let copies = copy_rules(&rules.artifacts);
        let by_name = bucket(&copies);
        ArtifactMatcher { rules: copies, by_name }
    }

    /// The place of the group for a directory name, if some rule has the name.
    fn group_of(&self, name: &str) -> (r: Option<usize>)
        requires
            self.wf(),
        ensures
            r matches Some(g) ==> g < self.by_name@.len() && self.by_name@[g as int].name@ == name@,
            r is None ==> named(self@, name@).len() == 0,
            r is None <==> !knows(self@, name@),
    {
        proof {
            lemma_distinct_names(self@);
            lemma_named(self@, name@);
        }
        let mut g: usize = 0;
        while g < self.by_name.len()
            invariant
                g <= self.by_name.len(),
                self.wf(),
                forall|i: int|
                    0 <= i < self@.len() ==> distinct_names(self@).contains(
                        #[trigger] self@[i].dir_name,
                    ),
                forall|k: int|
                    0 <= k < distinct_names(self@).len() ==> exists|i: int|
                        0 <= i < self@.len() && (#[trigger] self@[i]).dir_name
                            == #[trigger] distinct_names(self@)[k],
                forall|k: int| 0 <= k < g ==> (#[trigger] self.by_name@[k]).name@ != name@,
            decreases self.by_name.len() - g,
        {
            if *self.by_name[g].name.as_str() == *name {
                assert(distinct_names(self@)[g as int] == name@);
                return Some(g);
            }
            g += 1;
        }
        proof {
            if knows(self@, name@) {
                let i = choose|i: int| 0 <= i < self@.len() && (#[trigger] self@[i]).dir_name == name@;
                assert(distinct_names(self@).contains(self@[i].dir_name));
                let k = choose|k: int|
                    0 <= k < distinct_names(self@).len() && distinct_names(self@)[k] == name@;
                assert(self.by_name@[k].name@ == name@);
            }
            if named(self@, name@).len() > 0 {
                let i = named(self@, name@)[0];
                assert(self@[i].dir_name == name@);
            }
        }
        None
    }

    /// Whether some rule is about directories of this name.
    pub fn has_rule_for(&self, name: &str) -> (r: bool)
        requires
            self.wf(),
        ensures
            r == knows(self@, name@),
    {
        self.group_of(name).is_some()
    }

    /// The index of the rule that claims a directory.
    pub fn find(&self, name: &str, siblings: &Vec<String>, inside: &Vec<String>) -> (r: Option<
        usize,
    >)
        requires
            self.wf(),
        ensures
            (match r {
                Some(i) => first_fit(self@, 0, name@, siblings@, inside@) == Some(i as int) && i
                    < self.rules@.len(),
                None => first_fit(self@, 0, name@, siblings@, inside@) is None,
            }),
    {
        let g = match self.group_of(name) {
            Some(g) => g,
            None => {
                proof {
                    assert(forall|i: int|
                        0 <= i < self@.len() ==> (#[trigger] self@[i]).dir_name != name@);
                    lemma_first_fit_is(self@, 0, name@, siblings@, inside@, self@.len() as int);
                }
                return None;
            },
        };
        let ghost members = named(self@, name@);
        proof {
            lemma_named(self@, name@);
            assert(indices(self.by_name@[g as int].rules@) == members);
        }
        let mut k: usize = 0;
        while k < self.by_name[g].rules.len()
            invariant
                self.wf(),
                g < self.by_name@.len(),
                self.by_name@[g as int].name@ == name@,
                members == named(self@, name@),
                indices(self.by_name@[g as int].rules@) == members,
                k <= members.len(),
                forall|m: int|
                    0 <= m < members.len() ==> 0 <= #[trigger] members[m] < self@.len()
                        && self@[members[m]].dir_name == name@,
                forall|m: int, n: int|
                    0 <= m < n < members.len() ==> #[trigger] members[m] < #[trigger] members[n],
                forall|i: int|
                    0 <= i < self@.len() && self@[i].dir_name == name@ ==> members.contains(i),
                forall|m: int|
                    0 <= m < k ==> !rule_fits(
                        self@[#[trigger] members[m]],
                        name@,
                        siblings@,
                        inside@,
                    ),
            decreases members.len() - k,
        {
            assert(self.by_name@[g as int].rules@.len() == indices(
                self.by_name@[g as int].rules@,
            ).len());
            let i: usize = self.by_name[g].rules[k];
            assert(members[k as int] == i);
            assert(self@[i as int] == self.rules@[i as int]@);
            if marked(&self.rules[i], siblings) && furnished(&self.rules[i], inside) {
                proof {
                    assert forall|j: int| 0 <= j < i implies !rule_fits(
                        #[trigger] self@[j],
                        name@,
                        siblings@,
                        inside@,
                    ) by {
                        if self@[j].dir_name == name@ {
                            assert(members.contains(j));
                            let m = choose|m: int| 0 <= m < members.len() && members[m] == j;
                            assert(m < k);
                        }
                    }
                    lemma_first_fit_is(self@, 0, name@, siblings@, inside@, i as int);
                }
                return Some(i);
            }
            k += 1;
        }
        proof {
            assert(self.by_name@[g as int].rules@.len() == indices(
                self.by_name@[g as int].rules@,
            ).len());
            assert forall|j: int| 0 <= j < self@.len() implies !rule_fits(
                #[trigger] self@[j],
                name@,
                siblings@,
                inside@,
            ) by {
                if self@[j].dir_name == name@ {
                    assert(members.contains(j));
                    let m = choose|m: int| 0 <= m < members.len() && members[m] == j;
                    assert(!rule_fits(self@[members[m]], name@, siblings@, inside@));
                }
            }
            lemma_first_fit_is(self@, 0, name@, siblings@, inside@, self@.len() as int);
        }
        None
    }

    /// The rule that claims a directory. `siblings` are the entry names in the
    /// *parent* directory, which is where markers like Cargo.toml live; `inside`
    /// are names that exist in the directory itself.
    pub fn match_dir(&self, name: &str, siblings: &Vec<String>, inside: &Vec<String>) -> (r: Option<
        &ArtifactRule,
    >)
        requires
            self.wf(),
        ensures
            (match r {
                Some(rule) => first_fit(self@, 0, name@, siblings@, inside@) matches Some(i)
                    && rule@ == self@[i],
                None => first_fit(self@, 0, name@, siblings@, inside@) is None,
            }),
    {
        match self.find(name, siblings, inside) {
            Some(i) => Some(&self.rules[i]),
            None => None,
        }
    }

    /// The names whose presence inside a directory of this name some rule asks
    /// about.
    pub fn wanted(&self, name: &str) -> (r: Vec<String>)
        requires
            self.wf(),
        ensures
            forall|what: Seq<char>| #[trigger] listed(r@, what) <==> wants(self@, name@, what),
    {
        let mut out: Vec<String> = Vec::new();
        let mut i: usize = 0;
        while i < self.rules.len()
            invariant
                i <= self.rules.len(),
                forall|what: Seq<char>| #[trigger]
                    listed(out@, what) <==> wants(self@.take(i as int), name@, what),
            decreases self.rules.len() - i,
        {
            let ghost sofar = self@.take(i as int);
            let ghost now = self@.take(i + 1);
            let ghost rule = self.rules@[i as int]@;
            let ghost before = out@;
            assert(now =~= sofar.push(rule));
            if *self.rules[i].dir_name.as_str() == *name {
                let mut k: usize = 0;
                while k < self.rules[i].contains.len()
                    invariant
                        i < self.rules.len(),
                        rule == self.rules@[i as int]@,
                        k <= rule.contains.len(),
                        out@.len() == before.len() + k,
                        forall|a: int| 0 <= a < before.len() ==> #[trigger] out@[a] == before[a],
                        forall|a: int|
                            0 <= a < k ==> out@[before.len() + a]@ == #[trigger] rule.contains[a],
                    decreases rule.contains.len() - k,
                {
                    out.push(self.rules[i].contains[k].clone());
                    k += 1;
                }
            }
            proof {
                assert forall|what: Seq<char>| #[trigger]
                    listed(out@, what) <==> wants(now, name@, what) by {
                    if listed(out@, what) {
                        let a = choose|a: int| 0 <= a < out@.len() && (#[trigger] out@[a])@ == what;
                        if a < before.len() {
                            assert(before[a]@ == what);
                            assert(listed(before, what));
                            let (j, m) = choose|j: int, m: int| #[trigger]
                                wants_at(sofar, name@, what, j, m);
                            assert(wants_at(now, name@, what, j, m));
                        } else {
                            assert(rule.contains[a - before.len()] == what);
                            assert(wants_at(now, name@, what, i as int, a - before.len()));
                        }
                    }
                    if wants(now, name@, what) {
                        let (j, m) = choose|j: int, m: int| #[trigger]
                            wants_at(now, name@, what, j, m);
                        if j < i {
                            assert(wants_at(sofar, name@, what, j, m));
                            assert(listed(before, what));
                            let a = choose|a: int|
                                0 <= a < before.len() && (#[trigger] before[a])@ == what;
                            assert(out@[a]@ == what);
                        } else {
                            assert(out@[before.len() + m]@ == rule.contains[m]);
                        }
                    }
                }
            }
            i += 1;
        }
        assert(self@.take(self@.len() as int) =~= self@);
        out
    }
}

/// Whether some rule is about directories of this name.
pub open spec fn knows(rules: Seq<ArtifactRuleView>, name: Seq<char>) -> bool {
    exists|i: int| 0 <= i < rules.len() && (#[trigger] rules[i]).dir_name == name
}

/// Whether rule `j` is about directories of this name and wants `what` inside,
/// as its `m`th name.
pub open spec fn wants_at(
    rules: Seq<ArtifactRuleView>,
    name: Seq<char>,
    what: Seq<char>,
    j: int,
    m: int,
) -> bool {
    &&& 0 <= j < rules.len()
    &&& rules[j].dir_name == name
    &&& 0 <= m < rules[j].contains.len()
    &&& rules[j].contains[m] == what
}

/// Whether some rule about directories of this name wants `what` inside.
pub open spec fn wants(rules: Seq<ArtifactRuleView>, name: Seq<char>, what: Seq<char>) -> bool {
    exists|j: int, m: int| #[trigger] wants_at(rules, name, what, j, m)
}

/// It is enough to look for the wanted names: what else lies inside a directory
/// does not change which rule claims it.
pub proof fn law_only_wanted_names_matter(
    rules: Seq<ArtifactRuleView>,
    from: int,
    name: Seq<char>,
    siblings: Seq<String>,
    inside: Seq<String>,
    more: Seq<String>,
)
    requires
        0 <= from,
        forall|what: Seq<char>|
            wants(rules, name, what) ==> (#[trigger] listed(inside, what) <==> listed(more, what)),
    ensures
        first_fit(rules, from, name, siblings, inside) == first_fit(
            rules,
            from,
            name,
            siblings,
            more,
        ),
    decreases rules.len() - from,
{
    if from < rules.len() {
        law_only_wanted_names_matter(rules, from + 1, name, siblings, inside, more);
        if rules[from].dir_name == name {
            assert forall|k: int| 0 <= k < rules[from].contains.len() implies listed(
                inside,
                #[trigger] rules[from].contains[k],
            ) == listed(more, rules[from].contains[k]) by {
                assert(wants_at(rules, name, rules[from].contains[k], from, k));
            }
        }
    }
}

/// A directory is never claimed by a rule whose markers are missing, and when no
/// rule claims it, every rule for its name lacks a marker or a required name.
pub proof fn law_markers_are_required(
    rules: Seq<ArtifactRuleView>,
    from: int,
    name: Seq<char>,
    siblings: Seq<String>,
    inside: Seq<String>,
)
    requires
        0 <= from,
    ensures
        first_fit(rules, from, name, siblings, inside) matches Some(i) ==> from <= i < rules.len()
            && rule_fits(rules[i], name, siblings, inside) && forall|j: int|
            from <= j < i ==> !rule_fits(#[trigger] rules[j], name, siblings, inside),
        first_fit(rules, from, name, siblings, inside) is None ==> forall|j: int|
            from <= j < rules.len() ==> !rule_fits(#[trigger] rules[j], name, siblings, inside),
    decreases rules.len() - from,
{
    if from < rules.len() {
        law_markers_are_required(rules, from + 1, name, siblings, inside);
    }
}

/// Whether a hidden directory name belongs to some rule.
pub open spec fn hidden_allowed(rules: Seq<ArtifactRuleView>, name: Seq<char>) -> bool {
    !"."@.is_prefix_of(name) || knows(rules, name)
}

/// Whether a directory name is searched: it is not hidden, or it is itself the
/// name of an artifact.
pub fn is_hidden_allowed(matcher: &ArtifactMatcher, name: &str) -> (r: bool)
    requires
        matcher.wf(),
    ensures
        r == hidden_allowed(matcher@, name@),
{
    !starts_with(name, ".") || matcher.has_rule_for(name)
}

// ---------------------------------------------------------------------------
// What matching promises
// ---------------------------------------------------------------------------

/// Whether a text stands somewhere in a list.
pub open spec fn occurs(text: Seq<char>, list: Seq<String>) -> bool {
    exists|k: int| 0 <= k < list.len() && text == (#[trigger] list[k])@
}

/// Whether a rule's proof is there: one of its markers beside the directory, if it
/// has any, and everything it wants inside.
pub open spec fn proved(
    markers: Seq<Seq<char>>,
    contains: Seq<Seq<char>>,
    siblings: Seq<String>,
    inside: Seq<String>,
) -> bool {
    &&& markers.len() == 0 || exists|m: int|
        0 <= m < markers.len() && occurs(#[trigger] markers[m], siblings)
    &&& forall|c: int| 0 <= c < contains.len() ==> occurs(#[trigger] contains[c], inside)
}

proof fn lemma_proved_fits(
    rule: ArtifactRuleView,
    name: Seq<char>,
    siblings: Seq<String>,
    inside: Seq<String>,
)
    ensures
        rule_fits(rule, name, siblings, inside) <==> rule.dir_name == name && proved(
            rule.markers,
            rule.contains,
            siblings,
            inside,
        ),
{
    assert forall|list: Seq<String>, text: Seq<char>| #[trigger] listed(list, text) == occurs(
        text,
        list,
    ) by {
        if listed(list, text) {
            let k = choose|k: int| 0 <= k < list.len() && (#[trigger] list[k])@ == text;
            assert(text == list[k]@);
        }
        if occurs(text, list) {
            let k = choose|k: int| 0 <= k < list.len() && text == (#[trigger] list[k])@;
            assert(list[k]@ == text);
        }
    }
    if rule_fits(rule, name, siblings, inside) {
        assert forall|c: int| 0 <= c < rule.contains.len() implies occurs(
            #[trigger] rule.contains[c],
            inside,
        ) by {
            assert(listed(inside, rule.contains[c]));
        }
        if rule.markers.len() > 0 {
            let m = choose|m: int|
                0 <= m < rule.markers.len() && listed(siblings, #[trigger] rule.markers[m]);
            assert(occurs(rule.markers[m], siblings));
        }
    }
    if proved(rule.markers, rule.contains, siblings, inside) {
        assert forall|c: int| 0 <= c < rule.contains.len() implies listed(
            inside,
            #[trigger] rule.contains[c],
        ) by {
            assert(occurs(rule.contains[c], inside));
        }
        if rule.markers.len() > 0 {
            let m = choose|m: int|
                0 <= m < rule.markers.len() && occurs(#[trigger] rule.markers[m], siblings);
            assert(listed(siblings, rule.markers[m]));
        }
    }
}

/// One marker is enough: a rule about directories of this name that has no markers,
/// or any one of them beside the directory, and that finds everything it wants
/// inside, sees to it that the directory is claimed, by it or by one before it.
pub proof fn law_one_marker_is_enough(
    rules: Seq<ArtifactRuleView>,
    name: Seq<char>,
    siblings: Seq<String>,
    inside: Seq<String>,
    j: int,
    m: int,
)
    requires
        0 <= j < rules.len(),
        rules[j].dir_name == name,
        rules[j].markers.len() == 0 || (0 <= m < rules[j].markers.len() && occurs(
            rules[j].markers[m],
            siblings,
        )),
        forall|c: int|
            0 <= c < rules[j].contains.len() ==> occurs(#[trigger] rules[j].contains[c], inside),
    ensures
        first_fit(rules, 0, name, siblings, inside) matches Some(i) && 0 <= i <= j,
{
    lemma_proved_fits(rules[j], name, siblings, inside);
    law_markers_are_required(rules, 0, name, siblings, inside);
}

/// A directory is claimed only by a rule about its name, with one of the rule's
/// markers beside it, if the rule has any, and everything the rule wants inside;
/// and by the first such rule.
pub proof fn law_claims_are_proved(
    rules: Seq<ArtifactRuleView>,
    name: Seq<char>,
    siblings: Seq<String>,
    inside: Seq<String>,
)
    ensures
        first_fit(rules, 0, name, siblings, inside) matches Some(i) ==> {
            &&& 0 <= i < rules.len()
            &&& rules[i].dir_name == name
            &&& rules[i].markers.len() > 0 ==> exists|m: int|
                0 <= m < rules[i].markers.len() && occurs(
                    #[trigger] rules[i].markers[m],
                    siblings,
                )
            &&& forall|c: int|
                0 <= c < rules[i].contains.len() ==> occurs(
                    #[trigger] rules[i].contains[c],
                    inside,
                )
            &&& forall|j: int|
                0 <= j < i ==> (#[trigger] rules[j]).dir_name != name || !proved(
                    rules[j].markers,
                    rules[j].contains,
                    siblings,
                    inside,
                )
        },
        first_fit(rules, 0, name, siblings, inside) is None ==> forall|j: int|
            0 <= j < rules.len() ==> (#[trigger] rules[j]).dir_name != name || !proved(
                rules[j].markers,
                rules[j].contains,
                siblings,
                inside,
            ),
{
    law_markers_are_required(rules, 0, name, siblings, inside);
    assert forall|j: int| 0 <= j < rules.len() implies (rule_fits(
        #[trigger] rules[j],
        name,
        siblings,
        inside,
    ) <==> rules[j].dir_name == name && proved(
        rules[j].markers,
        rules[j].contains,
        siblings,
        inside,
    )) by {
        lemma_proved_fits(rules[j], name, siblings, inside);
    }
}

/// A further marker never takes a claim away: a rule that has markers and claims a
/// directory still claims it with one more to choose from.
pub proof fn law_further_markers_take_nothing_away(
    rules: Seq<ArtifactRuleView>,
    name: Seq<char>,
    siblings: Seq<String>,
    inside: Seq<String>,
    i: int,
    marker: Seq<char>,
)
    requires
        first_fit(rules, 0, name, siblings, inside) == Some(i),
        rules[i].markers.len() > 0,
    ensures
        ({
            let wider = ArtifactRuleView { markers: rules[i].markers.push(marker), ..rules[i] };
            first_fit(rules.update(i, wider), 0, name, siblings, inside) == Some(i)
        }),
{
    law_claims_are_proved(rules, name, siblings, inside);
    law_markers_are_required(rules, 0, name, siblings, inside);
    let wider = ArtifactRuleView { markers: rules[i].markers.push(marker), ..rules[i] };
    let table = rules.update(i, wider);
    let m = choose|m: int|
        0 <= m < rules[i].markers.len() && occurs(#[trigger] rules[i].markers[m], siblings);
    assert(occurs(wider.markers[m], siblings));
    lemma_proved_fits(wider, name, siblings, inside);
    assert forall|j: int| 0 <= j < i implies !rule_fits(
        #[trigger] table[j],
        name,
        siblings,
        inside,
    ) by {
        assert(table[j] == rules[j]);
    }
    lemma_first_fit_is(table, 0, name, siblings, inside, i);
}

/// More names beside a directory or inside it never take its claim away.
pub proof fn law_more_evidence_takes_nothing_away(
    rules: Seq<ArtifactRuleView>,
    name: Seq<char>,
    siblings: Seq<String>,
    inside: Seq<String>,
    more_siblings: Seq<String>,
    more_inside: Seq<String>,
)
    requires
        first_fit(rules, 0, name, siblings, inside) is Some,
    ensures
        first_fit(rules, 0, name, siblings + more_siblings, inside + more_inside) is Some,
{
    law_claims_are_proved(rules, name, siblings, inside);
    let i = first_fit(rules, 0, name, siblings, inside)->0;
    let beside = siblings + more_siblings;
    let within = inside + more_inside;
    assert forall|text: Seq<char>| occurs(text, siblings) implies #[trigger] occurs(text, beside) by {
        let k = choose|k: int| 0 <= k < siblings.len() && text == (#[trigger] siblings[k])@;
        assert(text == beside[k]@);
    }
    assert forall|text: Seq<char>| occurs(text, inside) implies #[trigger] occurs(text, within) by {
        let k = choose|k: int| 0 <= k < inside.len() && text == (#[trigger] inside[k])@;
        assert(text == within[k]@);
    }
    let m = choose|m: int|
        0 <= m < rules[i].markers.len() && occurs(#[trigger] rules[i].markers[m], siblings);
    law_one_marker_is_enough(rules, name, beside, within, i, m);
}

/// The scanner is asked for every marker of every rule, and for nothing else.
pub proof fn law_every_marker_is_asked_for(rules: Seq<ArtifactRule>, name: Seq<char>)
    ensures
        asked_for(rules, name) <==> exists|i: int, k: int|
            0 <= i < rules.len() && 0 <= k < rules[i].markers@.len()
                && #[trigger] rules[i].markers@[k]@ == name,
{
    if asked_for(rules, name) {
        let i = choose|i: int| 0 <= i < rules.len() && listed((#[trigger] rules[i]).markers@, name);
        let k = choose|k: int|
            0 <= k < rules[i].markers@.len() && (#[trigger] rules[i].markers@[k])@ == name;
        assert(rules[i].markers@[k]@ == name);
    }
    if exists|i: int, k: int|
        0 <= i < rules.len() && 0 <= k < rules[i].markers@.len()
            && #[trigger] rules[i].markers@[k]@ == name {
        let (i, k) = choose|i: int, k: int|
            0 <= i < rules.len() && 0 <= k < rules[i].markers@.len()
                && #[trigger] rules[i].markers@[k]@ == name;
        assert(listed(rules[i].markers@, name));
    }
}

/// A directory has a rule for it exactly when some rule carries its name.
pub proof fn law_names_are_known_by_their_rules(rules: Seq<ArtifactRuleView>, name: Seq<char>)
    ensures
        knows(rules, name) <==> exists|i: int|
            0 <= i < rules.len() && (#[trigger] rules[i]).dir_name == name,
        hidden_allowed(rules, name) <==> name.len() == 0 || name[0] != '.' || exists|i: int|
            0 <= i < rules.len() && (#[trigger] rules[i]).dir_name == name,
{
    reveal_strlit(".");
    if name.len() > 0 && name[0] == '.' {
        assert("."@ =~= name.subrange(0, 1));
    }
    if "."@.is_prefix_of(name) {
        assert(name.subrange(0, 1)[0] == name[0]);
    }
}

/// These top-level directories are not searched for project artifacts, and no
/// others.
pub proof fn law_top_level_names_left_alone(name: Seq<char>)
    ensures
        skip_top_level(name) <==> seq![
            "Library"@,
            "Applications"@,
            "Movies"@,
            "Music"@,
            "Pictures"@,
            "Public"@,
            ".Trash"@,
            "Virtual Machines.localized"@,
            "AppData"@,
        ].contains(name),
{
    let all = seq![
        "Library"@,
        "Applications"@,
        "Movies"@,
        "Music"@,
        "Pictures"@,
        "Public"@,
        ".Trash"@,
        "Virtual Machines.localized"@,
        "AppData"@,
    ];
    assert(all[0] == "Library"@ && all[1] == "Applications"@ && all[2] == "Movies"@ && all[3]
        == "Music"@ && all[4] == "Pictures"@ && all[5] == "Public"@ && all[6] == ".Trash"@ && all[7]
        == "Virtual Machines.localized"@ && all[8] == "AppData"@);
}

/// A static rule is for every system, or for the one it names.
pub proof fn law_rules_apply_where_they_say(rule: StaticRule)
    ensures
        rule.os@ == "any"@ ==> rule.applies(Platform::MacOs) && rule.applies(Platform::Windows)
            && rule.applies(Platform::Linux),
        rule.os@ == "macos"@ ==> rule.applies(Platform::MacOs) && !rule.applies(Platform::Windows)
            && !rule.applies(Platform::Linux),
        rule.os@ == "windows"@ ==> !rule.applies(Platform::MacOs) && rule.applies(Platform::Windows)
            && !rule.applies(Platform::Linux),
        rule.os@ == "linux"@ ==> !rule.applies(Platform::MacOs) && !rule.applies(Platform::Windows)
            && rule.applies(Platform::Linux),
        rule.os@ != "any"@ && rule.os@ != "macos"@ && rule.os@ != "windows"@ && rule.os@ != "linux"@
            ==> !rule.applies(Platform::MacOs) && !rule.applies(Platform::Windows)
            && !rule.applies(Platform::Linux),
{
    reveal_strlit("any");
    reveal_strlit("macos");
    reveal_strlit("windows");
    reveal_strlit("linux");
    assert("any"@.len() == 3 && "macos"@.len() == 5 && "windows"@.len() == 7 && "linux"@.len() == 5);
    assert("macos"@[0] == 'm' && "linux"@[0] == 'l');
}

/// The rules of a name are all rules that carry it, in the order of the table.
pub proof fn law_rules_are_bucketed_by_name(
    rules: Seq<ArtifactRuleView>,
    rule: ArtifactRuleView,
    name: Seq<char>,
)
    ensures
        named(Seq::empty(), name).len() == 0,
        rule.dir_name == name ==> named(rules.push(rule), name) == named(rules, name).push(
            rules.len() as int,
        ),
        rule.dir_name != name ==> named(rules.push(rule), name) == named(rules, name),
{
    assert(rules.push(rule).drop_last() =~= rules);
}

/// Every rule is in the bucket of its name, and each name has one bucket.
pub proof fn law_every_rule_has_its_bucket(
    rules: Seq<ArtifactRuleView>,
    groups: Seq<NameGroup>,
    i: int,
)
    requires
        bucketed(rules, groups),
        0 <= i < rules.len(),
    ensures
        exists|g: int, k: int|
            0 <= g < groups.len() && 0 <= k < (#[trigger] groups[g]).rules@.len()
                && groups[g].name@ == rules[i].dir_name && #[trigger] groups[g].rules@[k] == i,
        forall|a: int, b: int|
            0 <= a < b < groups.len() ==> (#[trigger] groups[a]).name@ != (
            #[trigger] groups[b]).name@,
{
    let names = distinct_names(rules);
    lemma_distinct_names(rules);
    lemma_named(rules, rules[i].dir_name);
    assert(names.contains(rules[i].dir_name));
    let g = choose|g: int| 0 <= g < names.len() && names[g] == rules[i].dir_name;
    assert(groups[g].name@ == names[g]);
    let mine = named(rules, rules[i].dir_name);
    assert(mine.contains(i));
    let k = choose|k: int| 0 <= k < mine.len() && mine[k] == i;
    assert(indices(groups[g].rules@)[k] == groups[g].rules@[k] as int);
    assert(groups[g].rules@[k] == i);
    assert forall|a: int, b: int| 0 <= a < b < groups.len() implies (#[trigger] groups[a]).name@ != (
    #[trigger] groups[b]).name@ by {
        assert(names[a] != names[b]);
    }
}

/// What a candidate is looked into for is what the rules of its name want inside,
/// each of them.
pub proof fn law_everything_wanted_is_looked_for(
    rules: Seq<ArtifactRuleView>,
    name: Seq<char>,
    what: Seq<char>,
)
    ensures
        wants(rules, name, what) <==> exists|j: int|
            0 <= j < rules.len() && (#[trigger] rules[j]).dir_name == name
                && rules[j].contains.contains(what),
{
    if wants(rules, name, what) {
        let (j, m) = choose|j: int, m: int| #[trigger] wants_at(rules, name, what, j, m);
        assert(rules[j].dir_name == name && rules[j].contains[m] == what);
    }
    if exists|j: int|
        0 <= j < rules.len() && (#[trigger] rules[j]).dir_name == name
            && rules[j].contains.contains(what) {
        let j = choose|j: int|
            0 <= j < rules.len() && (#[trigger] rules[j]).dir_name == name
                && rules[j].contains.contains(what);
        let m = choose|m: int| 0 <= m < rules[j].contains.len() && rules[j].contains[m] == what;
        assert(wants_at(rules, name, what, j, m));
    }
}

/// The matcher claims a directory whenever a rule of its name finds one of its
/// markers beside it, if it has any, and everything it wants inside.
pub proof fn law_matchers_need_one_marker(
    matcher: &ArtifactMatcher,
    name: &str,
    siblings: &Vec<String>,
    inside: &Vec<String>,
    r: Option<usize>,
    j: int,
    m: int,
)
    requires
        call_ensures(ArtifactMatcher::find, (matcher, name, siblings, inside), r),
        0 <= j < matcher@.len(),
        matcher@[j].dir_name == name@,
        matcher@[j].markers.len() == 0 || (0 <= m < matcher@[j].markers.len() && occurs(
            matcher@[j].markers[m],
            siblings@,
        )),
        forall|c: int|
            0 <= c < matcher@[j].contains.len() ==> occurs(
                #[trigger] matcher@[j].contains[c],
                inside@,
            ),
    ensures
        r is Some,
        r->0 <= j,
        matcher@[r->0 as int].dir_name == name@,
{
    law_one_marker_is_enough(matcher@, name@, siblings@, inside@, j, m);
    law_claims_are_proved(matcher@, name@, siblings@, inside@);
}

} // verus!
