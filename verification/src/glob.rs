//! Finding the places that a static rule points at.
//!
//! A rule's glob is a list of names, in which only `*` has a meaning, and always
//! as a whole name. It is expanded one name at a time, and the disk is asked in
//! between: which entries a directory has, or whether a path exists.
use vstd::prelude::*;

use crate::claims::{is_user_excluded, user_excluded};
use crate::path::{child_path, paths, root_only, within, FsPath, Part, PartView};
use crate::rules::StaticRule;
use crate::scan::Tree;
use crate::text::{chars_of, text_between, texts};

verus! {

// ---------------------------------------------------------------------------
// The names of a glob
// ---------------------------------------------------------------------------

/// How many leading characters come before the first slash, or all of them.
pub open spec fn name_length(text: Seq<char>) -> nat
    decreases text.len(),
{
    if text.len() == 0 || text[0] == '/' {
        0
    } else {
        1 + name_length(text.drop_first())
    }
}

proof fn lemma_name_length(text: Seq<char>, n: int)
    requires
        0 <= n <= text.len(),
        forall|i: int| 0 <= i < n ==> text[i] != '/',
        n < text.len() ==> text[n] == '/',
    ensures
        name_length(text) == n,
    decreases n,
{
    if n > 0 {
        assert(text.drop_first().len() == text.len() - 1);
        lemma_name_length(text.drop_first(), n - 1);
    }
}

proof fn lemma_name_fits(text: Seq<char>)
    ensures
        name_length(text) <= text.len(),
        text.len() > 0 && text[0] != '/' ==> name_length(text) > 0,
    decreases text.len(),
{
    if text.len() > 0 && text[0] != '/' {
        lemma_name_fits(text.drop_first());
    }
}

/// The names between the slashes of a text. Empty ones do not count.
pub open spec fn names_between(text: Seq<char>) -> Seq<Seq<char>>
    decreases text.len(),
    via names_shrink
{
    if text.len() == 0 {
        Seq::empty()
    } else if text[0] == '/' {
        names_between(text.drop_first())
    } else {
        let n = name_length(text) as int;
        seq![text.subrange(0, n)] + names_between(text.subrange(n, text.len() as int))
    }
}

#[via_fn]
proof fn names_shrink(text: Seq<char>) {
    lemma_name_fits(text);
}

/// The names between the slashes of a text.
fn split_names(text: &str) -> (r: Vec<String>)
    ensures
        texts(r@) == names_between(text@),
{
    let chars = chars_of(text);
    let ghost all = text@;
    let mut out: Vec<String> = Vec::new();
    let mut i: usize = 0;
    assert(all.subrange(0, all.len() as int) =~= all);
    assert(texts(out@) + names_between(all) =~= names_between(all));
    while i < chars.len()
        invariant
            i <= chars.len(),
            chars@ == all,
            all == text@,
            texts(out@) + names_between(all.subrange(i as int, all.len() as int)) == names_between(
                all,
            ),
        decreases chars.len() - i,
    {
        let ghost rest = all.subrange(i as int, all.len() as int);
        if chars[i] == '/' {
            assert(rest[0] == '/');
            assert(rest.drop_first() =~= all.subrange(i + 1, all.len() as int));
            i += 1;
        } else {
            let from: usize = i;
            assert(rest[0] == all[i as int]);
            while i < chars.len() && chars[i] != '/'
                invariant
                    from <= i <= chars.len(),
                    chars@ == all,
                    forall|k: int| from <= k < i ==> all[k] != '/',
                decreases chars.len() - i,
            {
                i += 1;
            }
            let ghost before = out@;
            let name = text_between(&chars, from, i);
            let ghost shown = name@;
            out.push(name);
            proof {
                assert forall|k: int| 0 <= k < i - from implies rest[k] != '/' by {
                    assert(rest[k] == all[from + k]);
                }
                if i < chars@.len() {
                    assert(rest[i - from] == all[i as int]);
                }
                lemma_name_length(rest, i - from);
                assert(rest.subrange(0, i - from) =~= shown);
                assert(rest.subrange(i - from, rest.len() as int) =~= all.subrange(
                    i as int,
                    all.len() as int,
                ));
                assert(texts(out@) =~= texts(before).push(shown));
                assert(texts(out@) + names_between(all.subrange(i as int, all.len() as int))
                    =~= texts(before) + names_between(rest));
            }
        }
    }
    assert(texts(out@) =~= names_between(all));
    out
}

// ---------------------------------------------------------------------------
// One name at a time
// ---------------------------------------------------------------------------

/// A path followed by one more name of a glob.
pub open spec fn followed(path: Seq<PartView>, name: Seq<char>) -> Seq<PartView> {
    if name == "."@ {
        path
    } else if name == ".."@ {
        path.push(PartView::Parent)
    } else {
        child_path(path, name)
    }
}

/// A path followed by one more name of a glob.
fn follow(path: &FsPath, name: &str) -> (r: FsPath)
    ensures
        r@ == followed(path@, name@),
{
    if *name == *"." {
        path.clone()
    } else if *name == *".." {
        let mut r = path.clone();
        let ghost before = r@;
        r.parts.push(Part::Parent);
        assert(r@ =~= before.push(PartView::Parent));
        r
    } else {
        path.child(name)
    }
}

/// Lists of paths, one after the other.
pub open spec fn flat(lists: Seq<Seq<Seq<PartView>>>) -> Seq<Seq<PartView>>
    decreases lists.len(),
{
    if lists.len() == 0 {
        Seq::empty()
    } else {
        flat(lists.drop_last()) + lists.last()
    }
}

/// What a list of lists of paths says.
pub open spec fn path_lists(lists: Seq<Vec<FsPath>>) -> Seq<Seq<Seq<PartView>>> {
    lists.map_values(|list: Vec<FsPath>| paths(list@))
}

/// Put lists of paths one after the other.
fn flatten(lists: Vec<Vec<FsPath>>) -> (r: Vec<FsPath>)
    ensures
        paths(r@) == flat(path_lists(lists@)),
{
    let ghost all = path_lists(lists@);
    let mut out: Vec<FsPath> = Vec::new();
    let mut i: usize = 0;
    assert(paths(out@) =~= flat(all.take(0)));
    while i < lists.len()
        invariant
            i <= lists.len(),
            all == path_lists(lists@),
            paths(out@) == flat(all.take(i as int)),
        decreases lists.len() - i,
    {
        let mut copy = crate::path::copy_paths(&lists[i]);
        let ghost before = out@;
        let ghost added = copy@;
        out.append(&mut copy);
        assert(paths(out@) =~= paths(before) + paths(added));
        assert(all.take(i + 1).drop_last() =~= all.take(i as int));
        assert(all.take(i + 1).last() == paths(lists@[i as int]@));
        i += 1;
    }
    assert(all.take(all.len() as int) =~= all);
    out
}

/// The paths that were not left out of the scan.
pub open spec fn not_excluded(tree: Tree, dirs: Seq<Seq<PartView>>) -> Seq<Seq<PartView>>
    decreases dirs.len(),
{
    if dirs.len() == 0 {
        Seq::empty()
    } else if user_excluded(tree, dirs.last()) {
        not_excluded(tree, dirs.drop_last())
    } else {
        not_excluded(tree, dirs.drop_last()).push(dirs.last())
    }
}

/// The paths that were not left out of the scan.
pub fn without_excluded(tree: &Tree, dirs: &Vec<FsPath>) -> (r: Vec<FsPath>)
    ensures
        paths(r@) == not_excluded(*tree, paths(dirs@)),
{
    let ghost all = paths(dirs@);
    let mut out: Vec<FsPath> = Vec::new();
    let mut i: usize = 0;
    assert(paths(out@) =~= not_excluded(*tree, all.take(0)));
    while i < dirs.len()
        invariant
            i <= dirs.len(),
            all == paths(dirs@),
            paths(out@) == not_excluded(*tree, all.take(i as int)),
        decreases dirs.len() - i,
    {
        let ghost before = out@;
        assert(all.take(i + 1).drop_last() =~= all.take(i as int));
        assert(all.take(i + 1).last() == dirs@[i as int]@);
        if !is_user_excluded(tree, &dirs[i]) {
            out.push(dirs[i].clone());
            assert(paths(out@) =~= paths(before).push(dirs@[i as int]@));
        }
        i += 1;
    }
    assert(all.take(all.len() as int) =~= all);
    out
}

/// The paths that a name leads to from each of `dirs`.
pub open spec fn all_followed(dirs: Seq<Seq<PartView>>, name: Seq<char>) -> Seq<Seq<PartView>> {
    dirs.map_values(|dir: Seq<PartView>| followed(dir, name))
}

/// The paths that were found to exist. A path without an answer was not.
pub open spec fn existing(candidates: Seq<Seq<PartView>>, exists_at: Seq<bool>) -> Seq<
    Seq<PartView>,
>
    decreases candidates.len(),
{
    if candidates.len() == 0 {
        Seq::empty()
    } else {
        let n = candidates.len() - 1;
        let before = existing(candidates.drop_last(), exists_at);
        if n < exists_at.len() && exists_at[n] {
            before.push(candidates.last())
        } else {
            before
        }
    }
}

/// An expansion under way.
#[derive(Debug)]
pub struct Expansion {
    pub current: Vec<FsPath>,
    pub names: Vec<String>,
    /// How many of the names have been followed.
    pub at: usize,
}

/// What an expansion wants to know next.
#[derive(Debug)]
pub enum Inquiry {
    /// The entries of each of these directories.
    Entries(Vec<FsPath>),
    /// Whether each of these paths exists.
    Existence(Vec<FsPath>),
    /// Nothing: these are the places.
    Done(Vec<FsPath>),
}

/// Where a glob starts: at the root if it begins with a slash, else at home.
pub open spec fn glob_base(glob: Seq<char>, home: Seq<PartView>) -> Seq<PartView> {
    if glob.len() > 0 && glob[0] == '/' {
        root_only()
    } else {
        home
    }
}

impl Expansion {
    pub open spec fn wf(&self) -> bool {
        self.at <= self.names@.len()
    }

    /// The names that are still to be followed.
    pub open spec fn remaining(&self) -> Seq<Seq<char>> {
        texts(self.names@).subrange(self.at as int, self.names@.len() as int)
    }

    /// The expansion of a rule's glob, before anything is followed.
    pub fn start(rule: &StaticRule, home: &FsPath) -> (r: Expansion)
        ensures
            r.wf(),
            paths(r.current@) == seq![glob_base(rule.glob@, home@)],
            r.remaining() == names_between(rule.glob@),
    {
        let chars = chars_of(rule.glob.as_str());
        let base = if chars.len() > 0 && chars[0] == '/' {
            FsPath::root()
        } else {
            home.clone()
        };
        let mut current: Vec<FsPath> = Vec::new();
        let ghost shown = base@;
        current.push(base);
        assert(paths(current@) =~= seq![shown]);
        let names = split_names(rule.glob.as_str());
        assert(texts(names@).subrange(0, names@.len() as int) =~= texts(names@));
        Expansion { current, names, at: 0 }
    }

    /// What the expansion wants to know next.
    pub fn inquire(&self, tree: &Tree) -> (r: Inquiry)
        requires
            self.wf(),
        ensures
            (match r {
                Inquiry::Done(places) => paths(places@) == paths(self.current@) && (
                self.remaining().len() == 0 || self.current@.len() == 0),
                Inquiry::Entries(dirs) => self.remaining().len() > 0 && self.remaining()[0] == "*"@
                    && self.current@.len() > 0 && paths(dirs@) == not_excluded(
                    *tree,
                    paths(self.current@),
                ),
                Inquiry::Existence(candidates) => self.remaining().len() > 0 && self.remaining()[0]
                    != "*"@ && self.current@.len() > 0 && paths(candidates@) == all_followed(
                    paths(self.current@),
                    self.remaining()[0],
                ),
            }),
    {
        if self.at == self.names.len() || self.current.len() == 0 {
            return Inquiry::Done(crate::path::copy_paths(&self.current));
        }
        let name = &self.names[self.at];
        assert(self.remaining()[0] == name@);
        if *name.as_str() == *"*" {
            Inquiry::Entries(without_excluded(tree, &self.current))
        } else {
            let ghost all = all_followed(paths(self.current@), name@);
            let mut out: Vec<FsPath> = Vec::new();
            let mut i: usize = 0;
            while i < self.current.len()
                invariant
                    i <= self.current.len(),
                    all == all_followed(paths(self.current@), name@),
                    paths(out@) == all.take(i as int),
                decreases self.current.len() - i,
            {
                let ghost before = out@;
                out.push(follow(&self.current[i], name.as_str()));
                assert(all[i as int] == followed(self.current@[i as int]@, name@));
                assert(paths(out@) =~= paths(before).push(all[i as int]));
                assert(all.take(i + 1) =~= all.take(i as int).push(all[i as int]));
                i += 1;
            }
            assert(all.take(all.len() as int) =~= all);
            Inquiry::Existence(out)
        }
    }

    /// Go on with the entries of the directories that were asked about, one list
    /// for each; an unreadable directory has none.
    pub fn entries(&mut self, lists: Vec<Vec<FsPath>>)
        requires
            old(self).wf(),
            old(self).remaining().len() > 0,
        ensures
            final(self).wf(),
            final(self).names@ == old(self).names@,
            final(self).remaining() == old(self).remaining().drop_first(),
            paths(final(self).current@) == flat(path_lists(lists@)),
    {
        assert(self.at < self.names.len());
        self.current = flatten(lists);
        self.at = self.at + 1;
        assert(self.remaining() =~= old(self).remaining().drop_first());
    }

    /// Go on with the paths that exist, of those that were asked about.
    pub fn existence(&mut self, exists_at: Vec<bool>)
        requires
            old(self).wf(),
            old(self).remaining().len() > 0,
        ensures
            final(self).wf(),
            final(self).names@ == old(self).names@,
            final(self).remaining() == old(self).remaining().drop_first(),
            paths(final(self).current@) == existing(
                all_followed(paths(old(self).current@), old(self).remaining()[0]),
                exists_at@,
            ),
    {
        assert(self.at < self.names.len());
        let name = self.names[self.at].clone();
        assert(self.remaining()[0] == name@);
        let ghost all = all_followed(paths(self.current@), name@);
        let ghost before_all = *self;
        let mut out: Vec<FsPath> = Vec::new();
        let mut i: usize = 0;
        assert(paths(out@) =~= existing(all.take(0), exists_at@));
        while i < self.current.len()
            invariant
                *self == before_all,
                i <= self.current.len(),
                all == all_followed(paths(self.current@), name@),
                paths(out@) == existing(all.take(i as int), exists_at@),
            decreases self.current.len() - i,
        {
            let ghost before = out@;
            assert(all[i as int] == followed(self.current@[i as int]@, name@));
            assert(all.take(i + 1).drop_last() =~= all.take(i as int));
            assert(all.take(i + 1).last() == all[i as int]);
            if i < exists_at.len() && exists_at[i] {
                out.push(follow(&self.current[i], name.as_str()));
                assert(paths(out@) =~= paths(before).push(all[i as int]));
            }
            i += 1;
        }
        assert(all.take(all.len() as int) =~= all);
        self.current = out;
        self.at = self.at + 1;
        assert(self.remaining() =~= old(self).remaining().drop_first());
    }
}

/// What a rule points at: the places that were not left out, or what lies inside
/// them where the rule is about children. `lists` are then the entries of those
/// places, one list for each.
pub fn rule_targets(rule: &StaticRule, places: Vec<FsPath>, lists: Vec<Vec<FsPath>>) -> (r: Vec<
    FsPath,
>)
    ensures
        paths(r@) == (if rule.children {
            flat(path_lists(lists@))
        } else {
            paths(places@)
        }),
{
    if rule.children {
        flatten(lists)
    } else {
        places
    }
}

// ---------------------------------------------------------------------------
// What an expansion promises
// ---------------------------------------------------------------------------

/// What is on the disk, as far as a glob can tell.
pub struct Layout {
    /// The paths of a directory's entries.
    pub entries: spec_fn(Seq<PartView>) -> Seq<Seq<PartView>>,
    pub exists_at: spec_fn(Seq<PartView>) -> bool,
}

/// The entries of several directories.
pub open spec fn entries_of(layout: Layout, dirs: Seq<Seq<PartView>>) -> Seq<
    Seq<Seq<PartView>>,
> {
    dirs.map_values(|dir: Seq<PartView>| (layout.entries)(dir))
}

/// Which of several paths exist.
pub open spec fn presence(layout: Layout, candidates: Seq<Seq<PartView>>) -> Seq<bool> {
    candidates.map_values(|path: Seq<PartView>| (layout.exists_at)(path))
}

/// The places one name further.
pub open spec fn one_further(
    tree: Tree,
    layout: Layout,
    current: Seq<Seq<PartView>>,
    name: Seq<char>,
) -> Seq<Seq<PartView>> {
    if name == "*"@ {
        flat(entries_of(layout, not_excluded(tree, current)))
    } else {
        let candidates = all_followed(current, name);
        existing(candidates, presence(layout, candidates))
    }
}

/// The places that a list of names leads to.
pub open spec fn expanded(
    tree: Tree,
    layout: Layout,
    current: Seq<Seq<PartView>>,
    names: Seq<Seq<char>>,
) -> Seq<Seq<PartView>>
    decreases names.len(),
{
    if names.len() == 0 {
        current
    } else {
        expanded(tree, layout, one_further(tree, layout, current, names[0]), names.drop_first())
    }
}

/// From nowhere, no name leads anywhere: an expansion may stop as soon as
/// nothing is left.
pub proof fn law_nothing_expands_to_nothing(tree: Tree, layout: Layout, names: Seq<Seq<char>>)
    ensures
        expanded(tree, layout, Seq::empty(), names) == Seq::<Seq<PartView>>::empty(),
    decreases names.len(),
{
    if names.len() > 0 {
        let nothing = Seq::<Seq<PartView>>::empty();
        assert(entries_of(layout, not_excluded(tree, nothing)) =~= Seq::empty());
        assert(all_followed(nothing, names[0]) =~= nothing);
        assert(one_further(tree, layout, nothing, names[0]) =~= nothing);
        law_nothing_expands_to_nothing(tree, layout, names.drop_first());
    }
}

/// An expansion that is told the truth about the directories it asks about stays
/// on course: what it will end in does not change.
pub proof fn law_entries_stay_on_course(
    tree: Tree,
    layout: Layout,
    before: Expansion,
    after: Expansion,
    lists: Seq<Seq<Seq<PartView>>>,
)
    requires
        before.remaining().len() > 0,
        before.remaining()[0] == "*"@,
        lists == entries_of(layout, not_excluded(tree, paths(before.current@))),
        paths(after.current@) == flat(lists),
        after.remaining() == before.remaining().drop_first(),
    ensures
        expanded(tree, layout, paths(after.current@), after.remaining()) == expanded(
            tree,
            layout,
            paths(before.current@),
            before.remaining(),
        ),
{
}

/// An expansion that is told the truth about the paths it asks about stays on
/// course: what it will end in does not change.
pub proof fn law_existence_stays_on_course(
    tree: Tree,
    layout: Layout,
    before: Expansion,
    after: Expansion,
    exists_at: Seq<bool>,
)
    requires
        before.remaining().len() > 0,
        before.remaining()[0] != "*"@,
        exists_at == presence(
            layout,
            all_followed(paths(before.current@), before.remaining()[0]),
        ),
        paths(after.current@) == existing(
            all_followed(paths(before.current@), before.remaining()[0]),
            exists_at,
        ),
        after.remaining() == before.remaining().drop_first(),
    ensures
        expanded(tree, layout, paths(after.current@), after.remaining()) == expanded(
            tree,
            layout,
            paths(before.current@),
            before.remaining(),
        ),
{
}

/// Where an expansion stops, it has arrived: its places are what its glob leads
/// to.
pub proof fn law_done_has_arrived(tree: Tree, layout: Layout, expansion: Expansion)
    requires
        expansion.remaining().len() == 0 || expansion.current@.len() == 0,
    ensures
        paths(expansion.current@) == expanded(
            tree,
            layout,
            paths(expansion.current@),
            expansion.remaining(),
        ),
{
    if expansion.current@.len() == 0 {
        assert(paths(expansion.current@) =~= Seq::empty());
        law_nothing_expands_to_nothing(tree, layout, expansion.remaining());
    }
}

/// The names of a glob are what stands between its slashes, without the empty ones.
pub proof fn law_names_end_at_slashes(name: Seq<char>, rest: Seq<char>)
    requires
        name.len() > 0,
        !name.contains('/'),
    ensures
        names_between(Seq::empty()).len() == 0,
        names_between(seq!['/'] + rest) == names_between(rest),
        names_between(name) == seq![name],
        names_between(name + seq!['/'] + rest) == seq![name] + names_between(rest),
{
    let n = name.len() as int;
    let nothing = Seq::<char>::empty();
    assert(names_between(nothing) =~= Seq::<Seq<char>>::empty());
    let slashed = seq!['/'] + rest;
    assert(slashed.drop_first() =~= rest);
    assert(names_between(slashed) == names_between(rest));
    assert forall|i: int| 0 <= i < n implies name[i] != '/' by {
        assert(name.contains(name[i]));
    }
    lemma_name_length(name, n);
    assert(name[0] != '/');
    assert(name.subrange(0, n) =~= name);
    assert(name.subrange(n, name.len() as int) =~= nothing);
    assert(names_between(name) =~= seq![name]);
    let all = name + seq!['/'] + rest;
    assert(all[n] == '/');
    assert forall|i: int| 0 <= i < n implies all[i] != '/' by {
        assert(all[i] == name[i]);
    }
    lemma_name_length(all, n);
    assert(all[0] != '/');
    assert(all.subrange(0, n) =~= name);
    assert(all.subrange(n, all.len() as int) =~= slashed);
}

/// A name of a glob leads down to the entry that is called so; `.` stays, and `..`
/// leads up.
pub proof fn law_names_lead_down(path: Seq<PartView>, name: Seq<char>)
    ensures
        followed(path, "."@) == path,
        followed(path, ".."@) == path.push(PartView::Parent),
        name != "."@ && name != ".."@ ==> followed(path, name) == path.push(
            PartView::Normal(name),
        ),
{
    reveal_strlit(".");
    reveal_strlit("..");
    assert("."@.len() == 1 && ".."@.len() == 2);
}

/// A glob starts at the root of the disk if it begins with a slash, and at home
/// otherwise.
pub proof fn law_globs_start_at_home(glob: Seq<char>, home: Seq<PartView>)
    ensures
        glob_base(seq!['/'] + glob, home) == seq![PartView::Root],
        glob.len() == 0 || glob[0] != '/' ==> glob_base(glob, home) == home,
{
    assert((seq!['/'] + glob)[0] == '/');
}

/// Of the places reached, those that were left out of the scan are passed over, each
/// by itself.
pub proof fn law_left_out_places_are_passed_over(
    tree: Tree,
    dirs: Seq<Seq<PartView>>,
    dir: Seq<PartView>,
)
    ensures
        not_excluded(tree, Seq::empty()).len() == 0,
        (forall|e: int|
            0 <= e < tree.stats.excluded_paths@.len() ==> !within(
                dir,
                (#[trigger] tree.stats.excluded_paths@[e])@,
            )) ==> not_excluded(tree, dirs.push(dir)) == not_excluded(tree, dirs).push(dir),
        (exists|e: int|
            0 <= e < tree.stats.excluded_paths@.len() && within(
                dir,
                (#[trigger] tree.stats.excluded_paths@[e])@,
            )) ==> not_excluded(tree, dirs.push(dir)) == not_excluded(tree, dirs),
{
    let more = dirs.push(dir);
    assert(more.drop_last() =~= dirs);
    assert(more.last() == dir);
}

/// A path is gone on with exactly if it was found to exist.
pub proof fn law_only_what_exists_is_followed(
    candidates: Seq<Seq<PartView>>,
    exists_at: Seq<bool>,
    path: Seq<PartView>,
    there: bool,
)
    requires
        exists_at.len() == candidates.len(),
    ensures
        existing(Seq::empty(), exists_at).len() == 0,
        there ==> existing(candidates.push(path), exists_at.push(there)) == existing(
            candidates,
            exists_at,
        ).push(path),
        !there ==> existing(candidates.push(path), exists_at.push(there)) == existing(
            candidates,
            exists_at,
        ),
{
    let more = candidates.push(path);
    let told = exists_at.push(there);
    assert(more.drop_last() =~= candidates);
    assert(more.last() == path);
    assert(told[candidates.len() as int] == there);
    lemma_later_answers(candidates, exists_at, there);
}

proof fn lemma_later_answers(candidates: Seq<Seq<PartView>>, exists_at: Seq<bool>, there: bool)
    requires
        candidates.len() <= exists_at.len(),
    ensures
        existing(candidates, exists_at.push(there)) == existing(candidates, exists_at),
    decreases candidates.len(),
{
    if candidates.len() > 0 {
        lemma_later_answers(candidates.drop_last(), exists_at, there);
        let n = candidates.len() - 1;
        assert(exists_at.push(there)[n] == exists_at[n]);
    }
}

/// Whether a place is one name further than the `d`th of those reached: an entry of
/// it for a star, if it was not left out, and otherwise the path that the name leads
/// to, if it exists.
pub open spec fn leads_to(
    tree: Tree,
    layout: Layout,
    current: Seq<Seq<PartView>>,
    name: Seq<char>,
    d: int,
    place: Seq<PartView>,
) -> bool {
    &&& 0 <= d < current.len()
    &&& name == seq!['*'] ==> (layout.entries)(current[d]).contains(place) && forall|e: int|
        0 <= e < tree.stats.excluded_paths@.len() ==> !within(
            current[d],
            (#[trigger] tree.stats.excluded_paths@[e])@,
        )
    &&& name != seq!['*'] ==> (layout.exists_at)(place) && place == followed(current[d], name)
}

/// A star leads to every entry of a place, any other name to the one path that it
/// leads down to, if it is there.
pub proof fn law_one_name_further(
    tree: Tree,
    layout: Layout,
    current: Seq<Seq<PartView>>,
    name: Seq<char>,
    place: Seq<PartView>,
)
    ensures
        one_further(tree, layout, current, name).contains(place) <==> exists|d: int| #[trigger]
            leads_to(tree, layout, current, name, d, place),
    decreases current.len(),
{
    reveal_strlit("*");
    assert("*"@ =~= seq!['*']);
    let all = one_further(tree, layout, current, name);
    if current.len() == 0 {
        let nothing = Seq::<Seq<PartView>>::empty();
        assert(entries_of(layout, not_excluded(tree, current)) =~= Seq::empty());
        assert(all_followed(current, name) =~= nothing);
        assert(all =~= nothing);
    } else {
        let front = current.drop_last();
        let last = current.last();
        let n = current.len() - 1;
        let before = one_further(tree, layout, front, name);
        law_one_name_further(tree, layout, front, name, place);
        let added = if name == "*"@ {
            if user_excluded(tree, last) {
                Seq::empty()
            } else {
                (layout.entries)(last)
            }
        } else if (layout.exists_at)(followed(last, name)) {
            seq![followed(last, name)]
        } else {
            Seq::empty()
        };
        assert(all =~= before + added) by {
            if name == "*"@ {
                if !user_excluded(tree, last) {
                    let open = entries_of(layout, not_excluded(tree, current));
                    assert(open.drop_last() =~= entries_of(layout, not_excluded(tree, front)));
                    assert(open.last() == (layout.entries)(last));
                }
            } else {
                let candidates = all_followed(current, name);
                let there = presence(layout, candidates);
                let fewer = all_followed(front, name);
                assert(candidates.drop_last() =~= fewer);
                assert(candidates =~= fewer.push(followed(last, name)));
                assert(there =~= presence(layout, fewer).push(
                    (layout.exists_at)(followed(last, name)),
                ));
                law_only_what_exists_is_followed(
                    fewer,
                    presence(layout, fewer),
                    followed(last, name),
                    (layout.exists_at)(followed(last, name)),
                );
            }
        }
        if all.contains(place) {
            let k = choose|k: int| 0 <= k < all.len() && all[k] == place;
            if k < before.len() {
                assert(before[k] == place);
                let d = choose|d: int| #[trigger] leads_to(tree, layout, front, name, d, place);
                assert(leads_to(tree, layout, current, name, d, place));
            } else {
                assert(added[k - before.len()] == place);
                assert(leads_to(tree, layout, current, name, n, place));
            }
        }
        if exists|d: int| #[trigger] leads_to(tree, layout, current, name, d, place) {
            let d = choose|d: int| #[trigger] leads_to(tree, layout, current, name, d, place);
            if d < n {
                assert(leads_to(tree, layout, front, name, d, place));
                let k = choose|k: int| 0 <= k < before.len() && before[k] == place;
                assert(all[k] == place);
            } else {
                assert(added.contains(place)) by {
                    if name != "*"@ {
                        assert(added[0] == place);
                    }
                }
                let k = choose|k: int| 0 <= k < added.len() && added[k] == place;
                assert(all[before.len() + k] == place);
            }
        }
    }
}

/// A glob is followed name by name, from the first to the last.
pub proof fn law_globs_are_followed_in_turn(
    tree: Tree,
    layout: Layout,
    current: Seq<Seq<PartView>>,
    name: Seq<char>,
    names: Seq<Seq<char>>,
)
    ensures
        expanded(tree, layout, current, Seq::empty()) == current,
        expanded(tree, layout, current, seq![name] + names) == expanded(
            tree,
            layout,
            one_further(tree, layout, current, name),
            names,
        ),
{
    let all = seq![name] + names;
    assert(all[0] == name);
    assert(all.drop_first() =~= names);
}

/// A rule points at the places its glob leads to, or, if it is about children, at
/// what lies in them.
pub proof fn law_rules_point_at_places_or_children(
    rule: &StaticRule,
    places: Vec<FsPath>,
    lists: Vec<Vec<FsPath>>,
    r: Vec<FsPath>,
    path: Seq<PartView>,
)
    requires
        call_ensures(rule_targets, (rule, places, lists), r),
    ensures
        !rule.children ==> paths(r@) == paths(places@),
        rule.children ==> (paths(r@).contains(path) <==> exists|d: int|
            0 <= d < lists@.len() && paths((#[trigger] lists@[d])@).contains(path)),
{
    if rule.children {
        let all = path_lists(lists@);
        lemma_flat(all, path);
        if paths(r@).contains(path) {
            let d = choose|d: int| 0 <= d < all.len() && (#[trigger] all[d]).contains(path);
            assert(all[d] == paths(lists@[d]@));
        }
        if exists|d: int| 0 <= d < lists@.len() && paths((#[trigger] lists@[d])@).contains(path) {
            let d = choose|d: int|
                0 <= d < lists@.len() && paths((#[trigger] lists@[d])@).contains(path);
            assert(all[d] == paths(lists@[d]@));
        }
    }
}

proof fn lemma_flat(lists: Seq<Seq<Seq<PartView>>>, path: Seq<PartView>)
    ensures
        flat(lists).contains(path) <==> exists|d: int|
            0 <= d < lists.len() && (#[trigger] lists[d]).contains(path),
    decreases lists.len(),
{
    if lists.len() > 0 {
        let front = lists.drop_last();
        let last = lists.last();
        let before = flat(front);
        let all = flat(lists);
        lemma_flat(front, path);
        if all.contains(path) {
            let k = choose|k: int| 0 <= k < all.len() && all[k] == path;
            if k < before.len() {
                assert(before[k] == path);
                let d = choose|d: int| 0 <= d < front.len() && (#[trigger] front[d]).contains(path);
                assert(lists[d] == front[d]);
            } else {
                assert(last[k - before.len()] == path);
                assert(lists[lists.len() - 1].contains(path));
            }
        }
        if before.contains(path) {
            let k = choose|k: int| 0 <= k < before.len() && before[k] == path;
            assert(all[k] == path);
        }
        if exists|d: int| 0 <= d < lists.len() && (#[trigger] lists[d]).contains(path) {
            let d = choose|d: int| 0 <= d < lists.len() && (#[trigger] lists[d]).contains(path);
            if d < front.len() {
                assert(front[d] == lists[d]);
            } else {
                let k = choose|k: int| 0 <= k < last.len() && last[k] == path;
                assert(all[before.len() + k] == path);
            }
        }
    }
}

} // verus!
