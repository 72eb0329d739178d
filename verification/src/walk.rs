//! The decisions of a parallel directory walk.
//!
//! Workers share one [`Walk`]. Each claims a directory, is told whether to open
//! it, reads it if so, and publishes what it found; publishing allocates the
//! subdirectories and puts them up for claiming. Who reads what, on how many
//! threads and in which order, is left to the caller.
use vstd::prelude::*;

use crate::entry::{nothing_listed, Listing, Volume};
use crate::path::{
    child_path, contains_path, copy_paths, listed_path, path_below, path_name, paths, spelled,
    within, within_any, FsPath, PartView, Platform, separator,
};
use crate::rollup::{subtree_max, subtree_sum, sum_from};
use crate::scan::{
    arena, child_agrees, children_ordered, deeper, depths_fit, file_weights, law_totals_roll_up,
    lemma_arena_topological, listed_by_parent, mtimes, node_names, one_deeper, own_counts,
    own_sizes, parent_first, parent_indices, path_below_root, propagate, same_besides_totals,
    size_weights, totals_fit, Node, NodeState, ScanStats, Tree, NONE,
};
use crate::text::texts;

verus! {

/// What a scan is to remember and to stay out of.
#[derive(Debug)]
pub struct ScanOptions {
    /// file names worth remembering, supplied by the rule table
    pub markers: Vec<String>,
    /// Directories to record without opening. Reading one of these would raise a
    /// consent dialog, which is the one thing a scan must never do.
    pub security_skips: Vec<FsPath>,
    /// Directories the user asked to leave out. Recorded, never opened.
    pub excluded_paths: Vec<FsPath>,
}

impl Default for ScanOptions {
    fn default() -> (r: Self)
        ensures
            r.markers@.len() == 0,
            r.security_skips@.len() == 0,
            r.excluded_paths@.len() == 0,
    {
        ScanOptions {
            markers: Vec::new(),
            security_skips: Vec::new(),
            excluded_paths: Vec::new(),
        }
    }
}

/// A directory waiting to be read, or being read.
#[derive(Debug)]
pub struct Task {
    pub idx: u32,
    pub path: FsPath,
}

/// A directory handed to a worker. `shut` says what to publish instead of opening
/// it.
#[derive(Debug)]
pub struct Assignment {
    pub idx: u32,
    pub path: FsPath,
    pub shut: Option<NodeState>,
}

/// The answer to a worker asking for something to do.
#[derive(Debug)]
pub enum Claim {
    Work(Assignment),
    /// nothing right now, but another worker may still add to the queue
    Wait,
    /// queue empty and nobody can add to it
    Finished,
}

/// The state of a walk.
#[derive(Debug)]
pub struct Walk {
    nodes: Vec<Node>,
    root_path: FsPath,
    root_volume: Volume,
    markers: Vec<String>,
    skip: Vec<FsPath>,
    excluded: Vec<FsPath>,
    queue: Vec<Task>,
    active: Vec<Task>,
    done: usize,
    files: u64,
    bytes: u64,
}

/// What a [`Walk`] knows.
pub struct WalkView {
    pub nodes: Seq<Node>,
    pub root_path: Seq<PartView>,
    pub root_volume: Volume,
    /// file names worth remembering
    pub markers: Seq<String>,
    /// directories that are refused
    pub skip: Seq<FsPath>,
    /// directories that were left out
    pub excluded: Seq<FsPath>,
    /// directories nobody has claimed yet
    pub queue: Seq<Task>,
    /// directories somebody holds
    pub active: Seq<Task>,
    /// directories published so far
    pub done: nat,
    /// files seen so far
    pub files: nat,
    /// bytes seen so far
    pub bytes: nat,
}

impl View for Walk {
    type V = WalkView;

    closed spec fn view(&self) -> WalkView {
        WalkView {
            nodes: self.nodes@,
            root_path: self.root_path@,
            root_volume: self.root_volume,
            markers: self.markers@,
            skip: self.skip@,
            excluded: self.excluded@,
            queue: self.queue@,
            active: self.active@,
            done: self.done as nat,
            files: self.files as nat,
            bytes: self.bytes as nat,
        }
    }
}

/// What to publish instead of opening a directory, if it is not to be opened.
pub open spec fn kept_shut(
    path: Seq<PartView>,
    excluded: Seq<FsPath>,
    skip: Seq<FsPath>,
) -> Option<NodeState> {
    if within_any(path, excluded) {
        Some(NodeState::Excluded)
    } else if listed_path(skip, path) {
        Some(NodeState::Unreadable)
    } else {
        None
    }
}

/// Whether nothing is known about a node but its place in the tree.
pub open spec fn unread(node: Node) -> bool {
    &&& node.children@.len() == 0
    &&& node.own_size == 0
    &&& node.own_files == 0
    &&& node.newest_mtime == 0
    &&& !node.unreadable
    &&& node.state is Readable
    &&& node.markers@.len() == 0
}

/// Whether a node that was not read says so and holds nothing.
pub open spec fn honest(node: Node) -> bool {
    &&& node.total_size == 0
    &&& node.total_files == 0
    &&& node.unreadable == (node.state is Unreadable)
    &&& !(node.state is Readable) ==> {
        &&& node.children@.len() == 0
        &&& node.own_size == 0
        &&& node.own_files == 0
    }
}

/// Whether a task is an unread node and carries that node's path.
pub open spec fn task_fits(task: Task, nodes: Seq<Node>, root: Seq<PartView>) -> bool {
    &&& task.idx < nodes.len()
    &&& task.path@ == path_below(root, node_names(nodes, task.idx as int))
    &&& unread(nodes[task.idx as int])
}

/// The directories that are waiting to be read or being read.
pub open spec fn pending(walk: WalkView) -> Seq<Task> {
    walk.queue + walk.active
}

/// Whether a node is still waiting to be read, or being read.
pub open spec fn is_pending(walk: WalkView, i: int) -> bool {
    exists|k: int| 0 <= k < pending(walk).len() && (#[trigger] pending(walk)[k]).idx == i
}

/// Whether a node at a path that was to be kept shut says so and holds nothing.
pub open spec fn heeds(
    nodes: Seq<Node>,
    root: Seq<PartView>,
    excluded: Seq<FsPath>,
    skip: Seq<FsPath>,
    i: int,
) -> bool {
    kept_shut(path_below(root, node_names(nodes, i)), excluded, skip) matches Some(state) ==> {
        &&& nodes[i].state == state
        &&& nodes[i].children@.len() == 0
        &&& nodes[i].own_size == 0
        &&& nodes[i].own_files == 0
        &&& nodes[i].newest_mtime == 0
        &&& nodes[i].markers@.len() == 0
    }
}

/// Whether two places of a list hold different directories.
pub open spec fn different(tasks: Seq<Task>, k: int, m: int) -> bool {
    tasks[k].idx != tasks[m].idx
}

impl WalkView {
    /// What holds of a walk at every moment: its nodes form a tree with its depths
    /// counted, every directory that is not pending was published once and left
    /// shut if it was to be, and the running counts are those of what was
    /// published.
    pub open spec fn wf(self) -> bool {
        &&& arena(self.nodes)
        &&& depths_fit(self.nodes)
        &&& forall|i: int| 0 <= i < self.nodes.len() ==> honest(#[trigger] self.nodes[i])
        &&& forall|k: int|
            0 <= k < pending(self).len() ==> task_fits(
                #[trigger] pending(self)[k],
                self.nodes,
                self.root_path,
            )
        &&& forall|k: int, m: int|
            0 <= k < m < pending(self).len() ==> #[trigger] different(pending(self), k, m)
        &&& self.nodes.len() == self.queue.len() + self.active.len() + self.done
        &&& forall|i: int|
            0 <= i < self.nodes.len() && !is_pending(self, i) ==> #[trigger] heeds(
                self.nodes,
                self.root_path,
                self.excluded,
                self.skip,
                i,
            )
        &&& self.files == sum_from(file_weights(self.nodes), 0)
        &&& self.bytes == sum_from(size_weights(self.nodes), 0)
    }

    /// Whether everything but the progress of the walk is the same.
    pub open spec fn same_setup(self, other: WalkView) -> bool {
        &&& self.root_path == other.root_path
        &&& self.root_volume == other.root_volume
        &&& self.markers == other.markers
        &&& self.skip == other.skip
        &&& self.excluded == other.excluded
    }
}

/// What the root is called: its name, or the whole path where it has none.
pub open spec fn root_name(path: Seq<PartView>, platform: Platform) -> Seq<char> {
    match path_name(path) {
        Some(name) => name,
        None => spelled(path, separator(platform)),
    }
}

impl Walk {
    /// Start a walk at `root`. `never_walk` names the directories that are refused
    /// unconditionally, on top of the ones in `options`.
    pub fn start(
        root: &FsPath,
        is_dir: bool,
        volume: Volume,
        never_walk: &Vec<FsPath>,
        options: &ScanOptions,
        platform: Platform,
    ) -> (r: Result<Walk, String>)
        ensures
            r is Ok <==> is_dir,
            r matches Err(why) ==> why@ == "scan root is not a directory"@,
            r matches Ok(walk) ==> {
                &&& walk@.wf()
                &&& walk@.nodes.len() == 1
                &&& walk@.nodes[0].name@ == root_name(root@, platform)
                &&& walk@.nodes[0].depth == 0
                &&& walk@.root_path == root@
                &&& walk@.root_volume == volume
                &&& texts(walk@.markers) == texts(options.markers@)
                &&& paths(walk@.skip) == paths(never_walk@) + paths(options.security_skips@)
                &&& paths(walk@.excluded) == paths(options.excluded_paths@)
                &&& walk@.queue.len() == 1
                &&& walk@.queue[0].idx == 0
                &&& walk@.queue[0].path@ == root@
                &&& walk@.active.len() == 0
                &&& walk@.done == 0
                &&& walk@.files == 0
                &&& walk@.bytes == 0
            },
    {
        if !is_dir {
            return Err("scan root is not a directory".to_string());
        }
        let name = match root.file_name() {
            Some(name) => name,
            None => root.display(platform),
        };
        let mut nodes: Vec<Node> = Vec::new();
        nodes.push(Node::new(name, NONE, 0));
        let mut queue: Vec<Task> = Vec::new();
        queue.push(Task { idx: 0, path: root.clone() });
        let mut skip = copy_paths(never_walk);
        let mut more = copy_paths(&options.security_skips);
        let ghost first = skip@;
        let ghost second = more@;
        skip.append(&mut more);
        assert(paths(skip@) =~= paths(first) + paths(second));
        let walk = Walk {
            nodes,
            root_path: root.clone(),
            root_volume: volume,
            markers: options.markers.clone(),
            skip,
            excluded: copy_paths(&options.excluded_paths),
            queue,
            active: Vec::new(),
            done: 0,
            files: 0,
            bytes: 0,
        };
        proof {
            assert(pending(walk@)[0] == walk.queue@[0]);
            assert(is_pending(walk@, 0));
            assert(sum_from(file_weights(walk.nodes@), 1) == 0);
            assert(sum_from(size_weights(walk.nodes@), 1) == 0);
            assert(path_below(root@, node_names(walk.nodes@, 0)) =~= root@);
            assert(pending(walk@) =~= walk.queue@);
        }
        Ok(walk)
    }

    /// The volume the walk stays on.
    pub fn volume(&self) -> (r: Volume)
        ensures
            r == self@.root_volume,
    {
        self.root_volume
    }

    /// The file names worth remembering.
    pub fn markers(&self) -> (r: &Vec<String>)
        ensures
            r@ == self@.markers,
    {
        &self.markers
    }

    /// Claim a directory, or discover that there is none.
    pub fn claim(&mut self) -> (r: Claim)
        requires
            old(self)@.wf(),
        ensures
            final(self)@.wf(),
            final(self)@.same_setup(old(self)@),
            final(self)@.nodes == old(self)@.nodes,
            final(self)@.done == old(self)@.done,
            final(self)@.files == old(self)@.files,
            final(self)@.bytes == old(self)@.bytes,
            old(self)@.queue.len() == 0 ==> {
                &&& final(self)@.queue == old(self)@.queue
                &&& final(self)@.active == old(self)@.active
                &&& old(self)@.active.len() == 0 ==> r is Finished
                &&& old(self)@.active.len() > 0 ==> r is Wait
            },
            old(self)@.queue.len() > 0 ==> {
                let task = old(self)@.queue.last();
                &&& final(self)@.queue == old(self)@.queue.drop_last()
                &&& final(self)@.active == old(self)@.active.push(task)
                &&& r matches Claim::Work(work)
                &&& work.idx == task.idx
                &&& work.path@ == task.path@
                &&& work.shut == kept_shut(
                    task.path@,
                    old(self)@.excluded,
                    old(self)@.skip,
                )
            },
    {
        let ghost before = self@;
        match self.queue.pop() {
            Some(task) => {
                let shut = if task.path.starts_with_any(&self.excluded) {
                    Some(NodeState::Excluded)
                } else if contains_path(&self.skip, &task.path) {
                    Some(NodeState::Unreadable)
                } else {
                    None
                };
                let work = Assignment { idx: task.idx, path: task.path.clone(), shut };
                self.active.push(task);
                proof {
                    let was = pending(before);
                    let now = pending(self@);
                    let n = before.queue.len() as int;
                    // the claimed task moves from the end of the queue to the end of
                    // the active list
                    assert(now.len() == was.len());
                    assert forall|k: int| 0 <= k < now.len() implies now[k] == was[moved(
                        n,
                        was.len() as int,
                        k,
                    )] by {}
                    assert forall|k: int| 0 <= k < now.len() implies task_fits(
                        #[trigger] now[k],
                        self.nodes@,
                        self.root_path@,
                    ) by {
                        assert(now[k] == was[moved(n, was.len() as int, k)]);
                    }
                    assert forall|k: int, m: int| 0 <= k < m < now.len() implies #[trigger] different(
                        now,
                        k,
                        m,
                    ) by {
                        let k0 = moved(n, was.len() as int, k);
                        let m0 = moved(n, was.len() as int, m);
                        assert(now[k] == was[k0] && now[m] == was[m0]);
                        if k0 < m0 {
                            assert(different(was, k0, m0));
                        } else {
                            assert(different(was, m0, k0));
                        }
                    }
                    assert forall|i: int|
                        0 <= i < self.nodes@.len() && !is_pending(self@, i) implies #[trigger] heeds(
                        self.nodes@,
                        self.root_path@,
                        self.excluded@,
                        self.skip@,
                        i,
                    ) by {
                        lemma_claim_keeps_pending(before, self@, i);
                        assert(heeds(
                            before.nodes,
                            before.root_path,
                            before.excluded,
                            before.skip,
                            i,
                        ));
                    }
                    assert(self@.wf());
                }
                Claim::Work(work)
            },
            None => {
                assert(pending(self@) =~= pending(before));
                assert forall|i: int|
                    0 <= i < self.nodes@.len() && !is_pending(self@, i) implies #[trigger] heeds(
                    self.nodes@,
                    self.root_path@,
                    self.excluded@,
                    self.skip@,
                    i,
                ) by {
                    assert(!is_pending(before, i));
                    assert(heeds(
                        before.nodes,
                        before.root_path,
                        before.excluded,
                        before.skip,
                        i,
                    ));
                }
                assert(self@.wf());
                if self.active.len() == 0 {
                    Claim::Finished
                } else {
                    Claim::Wait
                }
            },
        }
    }
}

/// Where the task at `k` stood before the last of `n` queued tasks moved behind
/// all others.
spec fn moved(n: int, len: int, k: int) -> int {
    if k < n - 1 {
        k
    } else if k < len - 1 {
        k + 1
    } else {
        n - 1
    }
}

/// What was pending before a claim is pending after it.
pub proof fn lemma_claim_keeps_pending(before: WalkView, after: WalkView, i: int)
    requires
        before.queue.len() > 0,
        after.queue == before.queue.drop_last(),
        after.active == before.active.push(before.queue.last()),
    ensures
        is_pending(before, i) ==> is_pending(after, i),
{
    if is_pending(before, i) {
        let k = choose|k: int|
            0 <= k < pending(before).len() && (#[trigger] pending(before)[k]).idx == i;
        let n = before.queue.len();
        let m = if k < n - 1 {
            k
        } else if k == n - 1 {
            pending(after).len() - 1
        } else {
            k - 1
        };
        assert(pending(after)[m] == pending(before)[k]);
    }
}

// ---------------------------------------------------------------------------
// Publishing
// ---------------------------------------------------------------------------

/// Whether a node has taken over what was found in it, with its children numbered
/// from `first` on.
pub open spec fn published(was: Node, now: Node, listing: Listing, first: nat) -> bool {
    &&& now.name == was.name
    &&& now.parent == was.parent
    &&& now.depth == was.depth
    &&& now.total_size == was.total_size
    &&& now.total_files == was.total_files
    &&& now.own_size == listing.own_size
    &&& now.own_files == listing.own_files
    &&& now.newest_mtime == listing.newest
    &&& now.state == listing.state
    &&& now.unreadable == (listing.state is Unreadable)
    &&& now.markers == listing.markers
    &&& now.children@ == Seq::new(listing.subdirs@.len(), |k: int| (first + k) as u32)
}

/// Whether a node is a new, unread directory called `name` in node `parent`.
pub open spec fn born(node: Node, name: Seq<char>, parent: int, depth: u16) -> bool {
    &&& node.name@ == name
    &&& node.parent == parent
    &&& node.depth == depth
    &&& unread(node)
    &&& honest(node)
}

/// Whether the arena `now` is `base` after node `idx` was published: that node
/// filled in, its subdirectories allocated at the end, nothing else touched.
pub open spec fn grown(base: Seq<Node>, now: Seq<Node>, idx: int, listing: Listing) -> bool {
    &&& now.len() == base.len() + listing.subdirs@.len()
    &&& forall|i: int| 0 <= i < base.len() && i != idx ==> #[trigger] now[i] == base[i]
    &&& published(base[idx], now[idx], listing, base.len())
    &&& forall|k: int|
        base.len() <= k < now.len() ==> born(
            #[trigger] now[k],
            listing.subdirs@[k - base.len()]@,
            idx,
            deeper(base[idx].depth),
        )
}

/// Whether a listing of a directory that was not read holds nothing.
pub open spec fn honest_listing(listing: Listing) -> bool {
    !(listing.state is Readable) ==> {
        &&& listing.subdirs@.len() == 0
        &&& listing.own_size == 0
        &&& listing.own_files == 0
    }
}

/// Whether a listing is what the walk said to publish for a directory that is to
/// be kept shut.
pub open spec fn heedful(walk: WalkView, idx: u32, listing: Listing) -> bool {
    kept_shut(
        path_below(walk.root_path, node_names(walk.nodes, idx as int)),
        walk.excluded,
        walk.skip,
    ) matches Some(state) ==> nothing_listed(listing, state)
}

/// What a publication brought about.
#[derive(Debug, Clone, Copy, PartialEq, Eq, Structural)]
pub struct Published {
    /// whether waiting workers have to look again
    pub wake: bool,
    /// files seen so far
    pub files: u64,
    /// bytes seen so far
    pub bytes: u64,
}

/// Whether a worker holds the directory `idx`.
pub open spec fn being_read(walk: WalkView, idx: u32) -> bool {
    exists|k: int| 0 <= k < walk.active.len() && (#[trigger] walk.active[k]).idx == idx
}

pub proof fn lemma_names_kept(base: Seq<Node>, now: Seq<Node>, idx: int, listing: Listing, i: int)
    requires
        arena(base),
        0 <= idx < base.len(),
        grown(base, now, idx, listing),
        0 <= i < base.len(),
    ensures
        node_names(now, i) == node_names(base, i),
    decreases i,
{
    if i > 0 {
        assert(parent_first(base, i));
        assert(i != idx ==> now[i] == base[i]);
        lemma_names_kept(base, now, idx, listing, base[i].parent as int);
    }
}

proof fn lemma_grown_arena(base: Seq<Node>, now: Seq<Node>, idx: int, listing: Listing)
    requires
        arena(base),
        0 <= idx < base.len(),
        grown(base, now, idx, listing),
        now.len() <= NONE,
        unread(base[idx]),
    ensures
        arena(now),
        depths_fit(base) ==> depths_fit(now),
{
    let first = base.len();
    if depths_fit(base) {
        assert(0 != idx ==> now[0] == base[0]);
        assert forall|i: int| 0 < i < now.len() implies #[trigger] one_deeper(now, i) by {
            if i < first {
                assert(parent_first(base, i));
                assert(one_deeper(base, i));
                assert(i != idx ==> now[i] == base[i]);
                let up = base[i].parent as int;
                assert(up != idx ==> now[up] == base[up]);
            } else {
                assert(born(now[i], listing.subdirs@[i - first]@, idx, deeper(base[idx].depth)));
            }
        }
    }
    assert(now[0].parent == NONE) by {
        assert(0 != idx ==> now[0] == base[0]);
    }
    assert forall|i: int| 0 < i < now.len() implies #[trigger] parent_first(now, i) by {
        if i < first {
            assert(parent_first(base, i));
            assert(i != idx ==> now[i] == base[i]);
        } else {
            assert(born(now[i], listing.subdirs@[i - first]@, idx, deeper(base[idx].depth)));
        }
    }
    assert forall|i: int| 0 < i < now.len() implies #[trigger] listed_by_parent(now, i) by {
        if i < first {
            assert(parent_first(base, i));
            assert(listed_by_parent(base, i));
            assert(i != idx ==> now[i] == base[i]);
            let up = base[i].parent as int;
            assert(up != idx ==> now[up] == base[up]);
            if up == idx {
                assert(base[idx].children@.len() == 0);
            }
        } else {
            assert(born(now[i], listing.subdirs@[i - first]@, idx, deeper(base[idx].depth)));
            assert(now[idx].children@[i - first] == i as u32);
        }
    }
    assert forall|i: int, k: int|
        0 <= i < now.len() && 0 <= k < now[i].children@.len() implies #[trigger] child_agrees(
        now,
        i,
        k,
    ) by {
        if i >= first {
            assert(born(now[i], listing.subdirs@[i - first]@, idx, deeper(base[idx].depth)));
        } else if i == idx {
            let c = first + k;
            assert(now[idx].children@[k] == c as u32);
            assert(born(now[c], listing.subdirs@[c - first]@, idx, deeper(base[idx].depth)));
        } else {
            assert(now[i] == base[i]);
            assert(child_agrees(base, i, k));
            let c = base[i].children@[k] as int;
            assert(c != idx ==> now[c] == base[c]);
        }
    }
    assert forall|i: int, k: int, m: int|
        0 <= i < now.len() && 0 <= k < m
            < now[i].children@.len() implies #[trigger] children_ordered(now, i, k, m) by {
        if i >= first {
            assert(born(now[i], listing.subdirs@[i - first]@, idx, deeper(base[idx].depth)));
        } else if i != idx {
            assert(now[i] == base[i]);
            assert(children_ordered(base, i, k, m));
        }
    }
}

/// What a publication adds to the sums is what was found in the directory.
proof fn lemma_sums_grow(base: Seq<Node>, now: Seq<Node>, idx: int, listing: Listing, from: int)
    requires
        0 <= idx < base.len(),
        grown(base, now, idx, listing),
        unread(base[idx]),
        honest(base[idx]),
        0 <= from <= now.len(),
    ensures
        sum_from(size_weights(now), from) == sum_from(size_weights(base), from) + (if from <= idx {
            listing.own_size as int
        } else {
            0
        }),
        sum_from(file_weights(now), from) == sum_from(file_weights(base), from) + (if from <= idx {
            listing.own_files as int
        } else {
            0
        }),
    decreases now.len() - from,
{
    if from < now.len() {
        lemma_sums_grow(base, now, idx, listing, from + 1);
        if from >= base.len() {
            assert(born(
                now[from],
                listing.subdirs@[from - base.len()]@,
                idx,
                deeper(base[idx].depth),
            ));
        } else if from != idx {
            assert(now[from] == base[from]);
        }
    }
}

/// The files of a tree can always be counted.
proof fn lemma_files_bounded(nodes: Seq<Node>, from: int)
    requires
        forall|i: int| 0 <= i < nodes.len() ==> honest(#[trigger] nodes[i]),
        0 <= from <= nodes.len(),
    ensures
        0 <= sum_from(file_weights(nodes), from) <= (nodes.len() - from) * 0xffff_ffff,
    decreases nodes.len() - from,
{
    if from < nodes.len() {
        lemma_files_bounded(nodes, from + 1);
        assert(honest(nodes[from]));
    }
}

/// The task of a new subdirectory.
pub open spec fn child_task(task: Task, idx: int, parent: Seq<PartView>, name: Seq<char>) -> bool {
    &&& task.idx == idx
    &&& task.path@ == child_path(parent, name)
}

/// After a publication the pending directories are the old ones without the
/// published one, and the new subdirectories.
proof fn lemma_pending_after(before: WalkView, now: WalkView, idx: u32, at: int, listing: Listing)
    requires
        before.wf(),
        0 <= at < before.active.len(),
        before.active[at].idx == idx,
        idx < before.nodes.len(),
        honest_listing(listing),
        before.nodes.len() + listing.subdirs@.len() <= NONE,
        grown(before.nodes, now.nodes, idx as int, listing),
        now.same_setup(before),
        now.active == before.active.remove(at),
        now.queue.len() == before.queue.len() + listing.subdirs@.len(),
        forall|i: int|
            0 <= i < before.queue.len() ==> #[trigger] now.queue[i] == before.queue[i],
        forall|i: int|
            before.queue.len() <= i < now.queue.len() ==> child_task(
                #[trigger] now.queue[i],
                before.nodes.len() + i - before.queue.len(),
                path_below(before.root_path, node_names(before.nodes, idx as int)),
                listing.subdirs@[i - before.queue.len()]@,
            ),
    ensures
        forall|i: int| 0 <= i < now.nodes.len() ==> honest(#[trigger] now.nodes[i]),
        forall|k: int|
            0 <= k < pending(now).len() ==> task_fits(
                #[trigger] pending(now)[k],
                now.nodes,
                now.root_path,
            ),
        forall|k: int, m: int|
            0 <= k < m < pending(now).len() ==> #[trigger] different(pending(now), k, m),
        !being_read(now, idx),
        forall|other: u32| other != idx ==> being_read(now, other) == being_read(before, other),
        forall|i: int|
            0 <= i < before.nodes.len() && i != idx && #[trigger] is_pending(before, i)
                ==> is_pending(now, i),
        forall|i: int| before.nodes.len() <= i < now.nodes.len() ==> #[trigger] is_pending(now, i),
{
    let base = before.nodes;
    let first = base.len();
    let was = pending(before);
    let is = pending(now);
    let q0 = before.queue.len() as int;
    let q1 = now.queue.len() as int;
    let here = q0 + at;
    assert(was[here].idx == idx);
    assert forall|i: int| 0 <= i < now.nodes.len() implies honest(#[trigger] now.nodes[i]) by {
        if i >= first {
            assert(born(
                now.nodes[i],
                listing.subdirs@[i - first]@,
                idx as int,
                deeper(base[idx as int].depth),
            ));
        } else {
            assert(honest(base[i]));
            assert(i != idx ==> now.nodes[i] == base[i]);
        }
    }
    // where a task that is pending now stood before, unless it is new
    let origin = |k: int| if k < q0 {
        k
    } else if k - q1 < at {
        q0 + (k - q1)
    } else {
        q0 + (k - q1) + 1
    };
    assert forall|k: int| 0 <= k < is.len() && !(q0 <= k < q1) implies #[trigger] is[k]
        == was[origin(k)] && origin(k) != here && 0 <= origin(k) < was.len() by {}
    assert forall|k: int| 0 <= k < is.len() implies task_fits(
        #[trigger] is[k],
        now.nodes,
        now.root_path,
    ) by {
        if q0 <= k < q1 {
            let c = first + k - q0;
            assert(is[k] == now.queue[k]);
            assert(child_task(
                now.queue[k],
                c,
                path_below(before.root_path, node_names(base, idx as int)),
                listing.subdirs@[k - q0]@,
            ));
            assert(born(
                now.nodes[c],
                listing.subdirs@[c - first]@,
                idx as int,
                deeper(base[idx as int].depth),
            ));
            lemma_names_kept(base, now.nodes, idx as int, listing, idx as int);
            assert(node_names(now.nodes, c) == node_names(base, idx as int).push(
                now.nodes[c].name@,
            ));
            assert(path_below(before.root_path, node_names(now.nodes, c)) =~= child_path(
                path_below(before.root_path, node_names(base, idx as int)),
                listing.subdirs@[k - q0]@,
            ));
        } else {
            let o = origin(k);
            assert(is[k] == was[o]);
            assert(task_fits(was[o], base, before.root_path));
            if o < here {
                assert(different(was, o, here));
            } else {
                assert(different(was, here, o));
            }
            let j = was[o].idx as int;
            assert(now.nodes[j] == base[j]);
            lemma_names_kept(base, now.nodes, idx as int, listing, j);
        }
    }
    assert forall|k: int, m: int| 0 <= k < m < is.len() implies #[trigger] different(is, k, m) by {
        assert(task_fits(is[k], now.nodes, now.root_path));
        if q0 <= k < q1 {
            assert(is[k] == now.queue[k]);
            assert(is[k].idx == first + k - q0);
            if m < q1 {
                assert(is[m] == now.queue[m]);
                assert(is[m].idx == first + m - q0);
            } else {
                assert(is[m] == was[origin(m)]);
                assert(task_fits(was[origin(m)], base, before.root_path));
            }
        } else {
            assert(is[k] == was[origin(k)]);
            assert(task_fits(was[origin(k)], base, before.root_path));
            if q0 <= m < q1 {
                assert(is[m] == now.queue[m]);
                assert(is[m].idx == first + m - q0);
            } else {
                assert(is[m] == was[origin(m)]);
                assert(origin(k) < origin(m));
                assert(different(was, origin(k), origin(m)));
            }
        }
    }
    assert forall|i: int|
        0 <= i < base.len() && i != idx && #[trigger] is_pending(before, i) implies is_pending(
        now,
        i,
    ) by {
        let o = choose|o: int| 0 <= o < was.len() && (#[trigger] was[o]).idx == i;
        let k = if o < q0 {
            o
        } else if o < here {
            o - q0 + q1
        } else {
            o - q0 + q1 - 1
        };
        assert(is[k] == was[o]);
    }
    assert forall|i: int| base.len() <= i < now.nodes.len() implies #[trigger] is_pending(now, i) by {
        let k = q0 + i - base.len();
        assert(is[k] == now.queue[k]);
        assert(child_task(
            now.queue[k],
            i,
            path_below(before.root_path, node_names(base, idx as int)),
            listing.subdirs@[k - q0]@,
        ));
    }
    assert(!being_read(now, idx)) by {
        assert forall|k: int| 0 <= k < now.active.len() implies (#[trigger] now.active[k]).idx
            != idx by {
            let o = origin(q1 + k);
            assert(is[q1 + k] == now.active[k]);
            assert(is[q1 + k] == was[o]);
            if o < here {
                assert(different(was, o, here));
            } else {
                assert(different(was, here, o));
            }
        }
    }
    assert forall|other: u32| other != idx implies being_read(now, other) == being_read(
        before,
        other,
    ) by {
        if being_read(before, other) {
            let k = choose|k: int|
                0 <= k < before.active.len() && (#[trigger] before.active[k]).idx == other;
            let k1 = if k < at {
                k
            } else {
                k - 1
            };
            assert(now.active[k1] == before.active[k]);
        }
        if being_read(now, other) {
            let k = choose|k: int|
                0 <= k < now.active.len() && (#[trigger] now.active[k]).idx == other;
            let k0 = if k < at {
                k
            } else {
                k + 1
            };
            assert(before.active[k0] == now.active[k]);
        }
    }
}

impl Walk {
    /// Publish what was found in a directory and put its subdirectories up for
    /// claiming. A directory that was handed out shut is published as
    /// [`Walk::claim`] said. The answer says whether waiting workers have to look
    /// again, and how much has been seen so far.
    pub fn publish(&mut self, idx: u32, listing: Listing) -> (r: Published)
        requires
            old(self)@.wf(),
            being_read(old(self)@, idx),
            honest_listing(listing),
            heedful(old(self)@, idx, listing),
            old(self)@.nodes.len() + listing.subdirs@.len() <= NONE,
            old(self)@.bytes + listing.own_size <= u64::MAX,
        ensures
            final(self)@.wf(),
            final(self)@.same_setup(old(self)@),
            grown(old(self)@.nodes, final(self)@.nodes, idx as int, listing),
            !being_read(final(self)@, idx),
            forall|other: u32|
                other != idx ==> being_read(final(self)@, other) == being_read(old(self)@, other),
            final(self)@.active.len() == old(self)@.active.len() - 1,
            final(self)@.queue.len() == old(self)@.queue.len() + listing.subdirs@.len(),
            forall|k: int|
                0 <= k < old(self)@.queue.len() ==> #[trigger] final(self)@.queue[k] == old(self)@.queue[k],
            forall|k: int|
                old(self)@.queue.len() <= k < final(self)@.queue.len() ==> child_task(
                    #[trigger] final(self)@.queue[k],
                    old(self)@.nodes.len() + k - old(self)@.queue.len(),
                    path_below(
                        old(self)@.root_path,
                        node_names(old(self)@.nodes, idx as int),
                    ),
                    listing.subdirs@[k - old(self)@.queue.len()]@,
                ),
            final(self)@.done == old(self)@.done + 1,
            final(self)@.files == old(self)@.files + listing.own_files,
            final(self)@.bytes == old(self)@.bytes + listing.own_size,
            r.wake == (listing.subdirs@.len() > 0 || pending(final(self)@).len() == 0),
            r.files == final(self)@.files,
            r.bytes == final(self)@.bytes,
    {
        let ghost before = self@;
        let ghost base = self.nodes@;
        let mut at: usize = 0;
        while self.active[at].idx != idx
            invariant
                self@ == before,
                being_read(before, idx),
                at < self.active@.len(),
                forall|k: int| 0 <= k < at ==> (#[trigger] self.active@[k]).idx != idx,
            decreases self.active@.len() - at,
        {
            proof {
                if at + 1 >= self.active@.len() {
                    let k = choose|k: int|
                        0 <= k < before.active.len() && (#[trigger] before.active[k]).idx == idx;
                    assert(false);
                }
                assert(at + 1 < self.active.len());
            }
            at += 1;
        }
        let task = self.active.remove(at);
        let ghost here = before.queue.len() + at;
        proof {
            assert(pending(before)[here as int] == task);
            assert(task_fits(task, base, before.root_path));
        }
        let depth: u16 = self.nodes[idx as usize].depth;
        let below: u16 = depth.saturating_add(1);
        let added: usize = listing.subdirs.len();
        let mut children: Vec<u32> = Vec::new();
        let mut k: usize = 0;
        while k < added
            invariant
                self@.same_setup(before),
                self.done == before.done,
                self.files == before.files,
                self.bytes == before.bytes,
                self.active@ == before.active.remove(at as int),
                base == before.nodes,
                base.len() + listing.subdirs@.len() <= NONE,
                idx < base.len(),
                added == listing.subdirs@.len(),
                k <= added,
                below == deeper(base[idx as int].depth),
                task.path@ == path_below(before.root_path, node_names(base, idx as int)),
                self.nodes@.len() == base.len() + k,
                forall|i: int| 0 <= i < base.len() ==> #[trigger] self.nodes@[i] == base[i],
                forall|i: int|
                    base.len() <= i < base.len() + k ==> born(
                        #[trigger] self.nodes@[i],
                        listing.subdirs@[i - base.len()]@,
                        idx as int,
                        below,
                    ),
                children@.len() == k,
                forall|i: int| 0 <= i < k ==> #[trigger] children@[i] == (base.len() + i) as u32,
                self.queue@.len() == before.queue.len() + k,
                forall|i: int|
                    0 <= i < before.queue.len() ==> #[trigger] self.queue@[i] == before.queue[i],
                forall|i: int|
                    before.queue.len() <= i < self.queue@.len() ==> child_task(
                        #[trigger] self.queue@[i],
                        base.len() + i - before.queue.len(),
                        path_below(before.root_path, node_names(base, idx as int)),
                        listing.subdirs@[i - before.queue.len()]@,
                    ),
            decreases added - k,
        {
            let child: u32 = self.nodes.len() as u32;
            let name = &listing.subdirs[k];
            self.nodes.push(Node::new(name.clone(), idx, below));
            children.push(child);
            self.queue.push(Task { idx: child, path: task.path.child(name.as_str()) });
            k += 1;
        }
        let ghost listed = listing;
        let unreadable = match listing.state {
            NodeState::Unreadable => true,
            _ => false,
        };
        let i: usize = idx as usize;
        self.nodes[i].own_size = listing.own_size;
        self.nodes[i].own_files = listing.own_files;
        self.nodes[i].newest_mtime = listing.newest;
        self.nodes[i].unreadable = unreadable;
        self.nodes[i].state = listing.state;
        self.nodes[i].markers = listing.markers;
        self.nodes[i].children = children;
        self.done = self.done + 1;
        proof {
            lemma_files_bounded(base, 0);
        }
        self.files = self.files + listing.own_files as u64;
        self.bytes = self.bytes + listing.own_size;
        proof {
            let now = self.nodes@;
            assert(now[idx as int].children@ =~= Seq::new(
                listed.subdirs@.len(),
                |k: int| (base.len() + k) as u32,
            ));
            assert(grown(base, now, idx as int, listed));
            lemma_grown_arena(base, now, idx as int, listed);
            lemma_pending_after(before, self@, idx, at as int, listed);
            assert(honest(base[idx as int]));
            lemma_sums_grow(base, now, idx as int, listed, 0);
            assert forall|i: int|
                0 <= i < now.len() && !is_pending(self@, i) implies #[trigger] heeds(
                now,
                self.root_path@,
                self.excluded@,
                self.skip@,
                i,
            ) by {
                lemma_names_kept(base, now, idx as int, listed, i);
                if i != idx {
                    assert(!is_pending(before, i));
                    assert(heeds(base, self.root_path@, self.excluded@, self.skip@, i));
                    assert(now[i] == base[i]);
                }
            }
        }
        let wake = added > 0 || (self.queue.len() == 0 && self.active.len() == 0);
        Published { wake, files: self.files, bytes: self.bytes }
    }
}

// ---------------------------------------------------------------------------
// The finished tree
// ---------------------------------------------------------------------------

/// The nodes among the first `n` that are in a given state, in index order.
pub open spec fn in_state(nodes: Seq<Node>, state: NodeState, n: int) -> Seq<int>
    decreases n,
{
    if n <= 0 {
        Seq::empty()
    } else if nodes[n - 1].state == state {
        in_state(nodes, state, n - 1).push(n - 1)
    } else {
        in_state(nodes, state, n - 1)
    }
}

/// The paths of some nodes.
pub open spec fn paths_of(
    root: Seq<PartView>,
    nodes: Seq<Node>,
    indices: Seq<int>,
) -> Seq<Seq<PartView>> {
    indices.map_values(|i: int| path_below(root, node_names(nodes, i)))
}

/// Whether `now` is the arena `was` with its totals rolled up.
pub open spec fn rolled_up(was: Seq<Node>, now: Seq<Node>) -> bool {
    &&& now.len() == was.len()
    &&& forall|i: int|
        0 <= i < was.len() ==> {
            let node = #[trigger] now[i];
            let parents = parent_indices(was);
            &&& node.total_size == subtree_sum(parents, size_weights(was), i)
            &&& node.total_files == subtree_sum(parents, file_weights(was), i)
            &&& node.newest_mtime == subtree_max(parents, mtimes(was), i)
            &&& same_besides_totals(node, was[i])
        }
}

pub proof fn lemma_rolled_up_names(was: Seq<Node>, now: Seq<Node>, i: int)
    requires
        arena(was),
        rolled_up(was, now),
        0 <= i < was.len(),
    ensures
        node_names(now, i) == node_names(was, i),
    decreases i,
{
    assert(same_besides_totals(now[i], was[i]));
    if i > 0 {
        assert(parent_first(was, i));
        lemma_rolled_up_names(was, now, was[i].parent as int);
    }
}

proof fn lemma_rolled_up_arena(was: Seq<Node>, now: Seq<Node>)
    requires
        arena(was),
        rolled_up(was, now),
    ensures
        arena(now),
        forall|i: int| 0 <= i < was.len() ==> #[trigger] node_names(now, i) == node_names(was, i),
{
    assert(same_besides_totals(now[0], was[0]));
    assert forall|i: int| 0 < i < now.len() implies #[trigger] parent_first(now, i) by {
        assert(parent_first(was, i));
        assert(same_besides_totals(now[i], was[i]));
    }
    assert forall|i: int| 0 < i < now.len() implies #[trigger] listed_by_parent(now, i) by {
        assert(parent_first(was, i));
        assert(listed_by_parent(was, i));
        assert(same_besides_totals(now[i], was[i]));
        let up = was[i].parent as int;
        assert(same_besides_totals(now[up], was[up]));
    }
    assert forall|i: int, k: int|
        0 <= i < now.len() && 0 <= k < now[i].children@.len() implies #[trigger] child_agrees(
        now,
        i,
        k,
    ) by {
        assert(same_besides_totals(now[i], was[i]));
        assert(child_agrees(was, i, k));
        let c = was[i].children@[k] as int;
        assert(same_besides_totals(now[c], was[c]));
    }
    assert forall|i: int, k: int, m: int|
        0 <= i < now.len() && 0 <= k < m
            < now[i].children@.len() implies #[trigger] children_ordered(now, i, k, m) by {
        assert(same_besides_totals(now[i], was[i]));
        assert(children_ordered(was, i, k, m));
    }
    assert forall|i: int| 0 <= i < was.len() implies #[trigger] node_names(now, i) == node_names(
        was,
        i,
    ) by {
        lemma_rolled_up_names(was, now, i);
    }
}

proof fn lemma_rolled_up_fits(was: Seq<Node>, now: Seq<Node>)
    requires
        arena(was),
        depths_fit(was),
        forall|i: int| 0 <= i < was.len() ==> honest(#[trigger] was[i]),
        rolled_up(was, now),
    ensures
        depths_fit(now),
        totals_fit(now),
{
    assert(same_besides_totals(now[0], was[0]));
    assert forall|i: int| 0 < i < now.len() implies #[trigger] one_deeper(now, i) by {
        assert(one_deeper(was, i));
        assert(parent_first(was, i));
        assert(same_besides_totals(now[i], was[i]));
        assert(same_besides_totals(now[was[i].parent as int], was[was[i].parent as int]));
    }
    assert(parent_indices(now) =~= parent_indices(was)) by {
        assert forall|i: int| 0 <= i < was.len() implies parent_indices(now)[i] == parent_indices(
            was,
        )[i] by {
            assert(same_besides_totals(now[i], was[i]));
        }
    }
    assert(own_sizes(now) =~= size_weights(was)) by {
        assert forall|i: int| 0 <= i < was.len() implies own_sizes(now)[i] == size_weights(was)[i] by {
            assert(same_besides_totals(now[i], was[i]));
            assert(honest(was[i]));
        }
    }
    assert(own_counts(now) =~= file_weights(was)) by {
        assert forall|i: int| 0 <= i < was.len() implies own_counts(now)[i] == file_weights(
            was,
        )[i] by {
            assert(same_besides_totals(now[i], was[i]));
            assert(honest(was[i]));
        }
    }
}

/// The paths of the nodes in a given state.
fn state_paths(tree_nodes: &Vec<Node>, root: &FsPath, state: NodeState) -> (r: Vec<FsPath>)
    requires
        arena(tree_nodes@),
    ensures
        paths(r@) == paths_of(
            root@,
            tree_nodes@,
            in_state(tree_nodes@, state, tree_nodes@.len() as int),
        ),
{
    let mut out: Vec<FsPath> = Vec::new();
    let mut i: usize = 0;
    assert(paths(out@) =~= paths_of(root@, tree_nodes@, in_state(tree_nodes@, state, 0)));
    while i < tree_nodes.len()
        invariant
            arena(tree_nodes@),
            i <= tree_nodes@.len(),
            paths(out@) == paths_of(root@, tree_nodes@, in_state(tree_nodes@, state, i as int)),
        decreases tree_nodes.len() - i,
    {
        let ghost seen = in_state(tree_nodes@, state, i as int);
        let ghost before = paths(out@);
        if tree_nodes[i].state == state {
            out.push(path_below_root(root, tree_nodes, i as u32));
            assert(paths(out@) =~= before.push(
                path_below(root@, node_names(tree_nodes@, i as int)),
            ));
            assert(paths_of(root@, tree_nodes@, seen.push(i as int)) =~= before.push(
                path_below(root@, node_names(tree_nodes@, i as int)),
            ));
        }
        i += 1;
    }
    out
}

impl Walk {
    /// Whether the tree has room for what was found in one more directory, and its
    /// bytes can still be counted.
    pub fn has_room(&self, listing: &Listing) -> (r: bool)
        requires
            self@.wf(),
        ensures
            r == (self@.nodes.len() + listing.subdirs@.len() <= NONE && self@.bytes
                + listing.own_size <= u64::MAX),
    {
        assert(self.nodes.len() <= 0xffff_ffff);
        listing.subdirs.len() <= 0xffff_ffff - self.nodes.len() && listing.own_size
            <= 0xffff_ffff_ffff_ffff - self.bytes
    }

    /// Close the walk: roll the totals up and count.
    pub fn finish(self, elapsed_ms: u128) -> (tree: Tree)
        requires
            self@.wf(),
        ensures
            arena(tree.nodes@),
            depths_fit(tree.nodes@),
            totals_fit(tree.nodes@),
            rolled_up(self@.nodes, tree.nodes@),
            tree.root_path@ == self@.root_path,
            tree.stats.dirs == self@.nodes.len(),
            tree.stats.files == self@.files,
            tree.stats.bytes == self@.bytes,
            tree.stats.unreadable == in_state(
                self@.nodes,
                NodeState::Unreadable,
                self@.nodes.len() as int,
            ).len(),
            tree.stats.excluded == in_state(
                self@.nodes,
                NodeState::Excluded,
                self@.nodes.len() as int,
            ).len(),
            paths(tree.stats.unreadable_paths@) == paths_of(
                self@.root_path,
                self@.nodes,
                in_state(self@.nodes, NodeState::Unreadable, self@.nodes.len() as int),
            ),
            paths(tree.stats.excluded_paths@) == paths_of(
                self@.root_path,
                self@.nodes,
                in_state(self@.nodes, NodeState::Excluded, self@.nodes.len() as int),
            ),
            tree.stats.elapsed_ms == elapsed_ms,
    {
        let ghost was = self.nodes@;
        let unreadable_paths = state_paths(&self.nodes, &self.root_path, NodeState::Unreadable);
        let excluded_paths = state_paths(&self.nodes, &self.root_path, NodeState::Excluded);
        let root_path = self.root_path;
        let mut nodes = self.nodes;
        proof {
            lemma_arena_topological(was);
            law_totals_roll_up(was);
        }
        propagate(&mut nodes);
        proof {
            assert(rolled_up(was, nodes@));
            lemma_rolled_up_arena(was, nodes@);
            lemma_rolled_up_fits(was, nodes@);
            assert(unreadable_paths@.len() == paths(unreadable_paths@).len());
            assert(excluded_paths@.len() == paths(excluded_paths@).len());
        }
        let stats = ScanStats {
            dirs: nodes.len() as u64,
            files: nodes[0].total_files,
            bytes: nodes[0].total_size,
            unreadable: unreadable_paths.len() as u64,
            excluded: excluded_paths.len() as u64,
            unreadable_paths,
            excluded_paths,
            elapsed_ms,
        };
        Tree { nodes, root_path, stats }
    }
}

/// How many workers to start: as many as the machine runs at once, but at least
/// two and at most eight. The walk is bound by system calls, so oversubscribing
/// helps up to a point and then loses to contention.
pub fn default_threads(available: Option<usize>) -> (r: usize)
    ensures
        r == (match available {
            Some(n) => if n < 2 {
                2
            } else if n > 8 {
                8
            } else {
                n as int
            },
            None => 4,
        }),
{
    match available {
        Some(n) => if n < 2 {
            2
        } else if n > 8 {
            8
        } else {
            n
        },
        None => 4,
    }
}

/// How many workers to start when so many are asked for: at least one.
pub fn worker_count(asked: usize) -> (r: usize)
    ensures
        r == (if asked == 0 {
            1
        } else {
            asked as int
        }),
{
    if asked == 0 {
        1
    } else {
        asked
    }
}

/// When a walk is finished, every directory that entered the tree has been
/// published, once.
pub proof fn law_finished_means_everything_read(walk: WalkView)
    requires
        walk.wf(),
        walk.queue.len() == 0,
        walk.active.len() == 0,
    ensures
        walk.done == walk.nodes.len(),
{
}

/// A directory that was left out, or lies in one that was, is not opened; nor is one
/// that is refused. Everything else is.
pub proof fn law_what_stays_shut(
    path: Seq<PartView>,
    excluded: Seq<FsPath>,
    skip: Seq<FsPath>,
)
    ensures
        (exists|e: int| 0 <= e < excluded.len() && within(path, (#[trigger] excluded[e])@))
            ==> kept_shut(path, excluded, skip) == Some(NodeState::Excluded),
        (forall|e: int| 0 <= e < excluded.len() ==> !within(path, (#[trigger] excluded[e])@)) && (
        exists|s: int| 0 <= s < skip.len() && (#[trigger] skip[s])@ == path) ==> kept_shut(
            path,
            excluded,
            skip,
        ) == Some(NodeState::Unreadable),
        (forall|e: int| 0 <= e < excluded.len() ==> !within(path, (#[trigger] excluded[e])@)) && (
        forall|s: int| 0 <= s < skip.len() ==> (#[trigger] skip[s])@ != path) ==> kept_shut(
            path,
            excluded,
            skip,
        ) is None,
{
}

/// The root is called by the last name of its path, or by the whole path if that
/// ends in no name.
pub proof fn law_roots_are_called_by_their_name(
    path: Seq<PartView>,
    name: Seq<char>,
    platform: Platform,
)
    ensures
        root_name(path.push(PartView::Normal(name)), platform) == name,
        path.len() == 0 || !(path.last() is Normal) ==> root_name(path, platform) == spelled(
            path,
            separator(platform),
        ),
{
}

/// The directories in a state are all those that are in it, each once and in the
/// order of the nodes.
pub proof fn law_states_are_told(nodes: Seq<Node>, state: NodeState, n: int, i: int)
    requires
        0 <= n <= nodes.len(),
    ensures
        in_state(nodes, state, n).contains(i) <==> 0 <= i < n && nodes[i].state == state,
        forall|a: int, b: int|
            0 <= a < b < in_state(nodes, state, n).len() ==> #[trigger] in_state(
                nodes,
                state,
                n,
            )[a] < #[trigger] in_state(nodes, state, n)[b],
        forall|a: int|
            0 <= a < in_state(nodes, state, n).len() ==> 0 <= #[trigger] in_state(
                nodes,
                state,
                n,
            )[a] < n,
    decreases n,
{
    if n > 0 {
        law_states_are_told(nodes, state, n - 1, i);
        let before = in_state(nodes, state, n - 1);
        let all = in_state(nodes, state, n);
        if before.contains(i) {
            let k = choose|k: int| 0 <= k < before.len() && before[k] == i;
            assert(all[k] == i);
        }
        if i == n - 1 && nodes[i].state == state {
            assert(all[before.len() as int] == i);
        }
        if all.contains(i) && !before.contains(i) {
            let k = choose|k: int| 0 <= k < all.len() && all[k] == i;
            if k < before.len() {
                assert(before[k] == i);
            }
        }
    }
}

/// A directory that is published takes over everything that was found in it, and gets
/// a child for each subdirectory, called as that is called; nothing else changes.
pub proof fn law_publishing_fills_in(
    base: Seq<Node>,
    now: Seq<Node>,
    idx: int,
    listing: Listing,
    k: int,
)
    requires
        grown(base, now, idx, listing),
        0 <= idx < base.len(),
        now.len() <= u32::MAX,
    ensures
        now[idx].own_size == listing.own_size,
        now[idx].own_files == listing.own_files,
        now[idx].newest_mtime == listing.newest,
        now[idx].state == listing.state,
        now[idx].unreadable <==> listing.state is Unreadable,
        now[idx].markers@ == listing.markers@,
        now[idx].name@ == base[idx].name@,
        now[idx].children@.len() == listing.subdirs@.len(),
        0 <= k < listing.subdirs@.len() ==> {
            let child = now[idx].children@[k] as int;
            &&& base.len() <= child < now.len()
            &&& now[child].name@ == listing.subdirs@[k]@
            &&& now[child].parent == idx
            &&& now[child].own_size == 0 && now[child].own_files == 0 && now[child].newest_mtime
                == 0
            &&& now[child].children@.len() == 0 && now[child].markers@.len() == 0
            &&& base[idx].depth < 65535 ==> now[child].depth == base[idx].depth + 1
        },
        0 <= k < base.len() && k != idx ==> now[k] == base[k],
        now.len() == base.len() + listing.subdirs@.len(),
{
    if 0 <= k < listing.subdirs@.len() {
        let child = now[idx].children@[k] as int;
        assert(child == base.len() + k);
        assert(born(now[child], listing.subdirs@[child - base.len()]@, idx, deeper(base[idx].depth)));
    }
}

/// Rolling totals up adds what hangs below and changes nothing else.
pub proof fn law_rolling_up_keeps_the_rest(was: Seq<Node>, now: Seq<Node>, i: int)
    requires
        rolled_up(was, now),
        0 <= i < was.len(),
    ensures
        now[i].name == was[i].name,
        now[i].parent == was[i].parent,
        now[i].children == was[i].children,
        now[i].own_size == was[i].own_size,
        now[i].own_files == was[i].own_files,
        now[i].depth == was[i].depth,
        now[i].state == was[i].state,
        now[i].unreadable == was[i].unreadable,
        now[i].markers == was[i].markers,
        now[i].total_size == subtree_sum(parent_indices(was), size_weights(was), i),
        now[i].total_files == subtree_sum(parent_indices(was), file_weights(was), i),
        now[i].newest_mtime == subtree_max(parent_indices(was), mtimes(was), i),
        now.len() == was.len(),
{
    assert(same_besides_totals(now[i], was[i]));
}

/// A walk goes on as it was set up.
pub proof fn law_walks_keep_to_their_orders(before: WalkView, after: WalkView)
    requires
        after.same_setup(before),
    ensures
        after.root_path == before.root_path,
        after.root_volume == before.root_volume,
        after.markers == before.markers,
        after.skip == before.skip,
        after.excluded == before.excluded,
{
}

/// A directory that was not read holds nothing and says so, and what is still to be
/// read has nothing counted for it yet.
pub proof fn law_walks_are_honest(walk: WalkView, i: int)
    requires
        walk.wf(),
        0 <= i < walk.nodes.len(),
    ensures
        walk.nodes[i].unreadable <==> walk.nodes[i].state is Unreadable,
        !(walk.nodes[i].state is Readable) ==> walk.nodes[i].own_size == 0
            && walk.nodes[i].own_files == 0 && walk.nodes[i].children@.len() == 0,
        (exists|k: int| 0 <= k < walk.queue.len() && (#[trigger] walk.queue[k]).idx == i)
            ==> walk.nodes[i].own_size == 0 && walk.nodes[i].own_files == 0
            && walk.nodes[i].children@.len() == 0 && walk.nodes[i].state is Readable,
        (exists|k: int| 0 <= k < walk.active.len() && (#[trigger] walk.active[k]).idx == i)
            ==> walk.nodes[i].own_size == 0 && walk.nodes[i].own_files == 0
            && walk.nodes[i].children@.len() == 0 && walk.nodes[i].state is Readable,
        walk.files == sum_from(file_weights(walk.nodes), 0),
        walk.bytes == sum_from(size_weights(walk.nodes), 0),
{
    assert(honest(walk.nodes[i]));
    if exists|k: int| 0 <= k < walk.queue.len() && (#[trigger] walk.queue[k]).idx == i {
        let k = choose|k: int| 0 <= k < walk.queue.len() && (#[trigger] walk.queue[k]).idx == i;
        assert(pending(walk)[k] == walk.queue[k]);
        assert(task_fits(pending(walk)[k], walk.nodes, walk.root_path));
    }
    if exists|k: int| 0 <= k < walk.active.len() && (#[trigger] walk.active[k]).idx == i {
        let k = choose|k: int| 0 <= k < walk.active.len() && (#[trigger] walk.active[k]).idx == i;
        assert(pending(walk)[walk.queue.len() + k] == walk.active[k]);
        assert(task_fits(pending(walk)[walk.queue.len() + k], walk.nodes, walk.root_path));
    }
}

/// There are never fewer than two workers by default and never more than eight;
/// between the two there are as many as the machine runs at once, and four where that
/// is not known.
pub proof fn law_workers_stay_between_two_and_eight(available: Option<usize>, r: usize)
    requires
        call_ensures(default_threads, (available,), r),
    ensures
        2 <= r <= 8,
        available is Some && 2 <= available->0 <= 8 ==> r == available->0,
        available is Some && available->0 < 2 ==> r == 2,
        available is Some && available->0 > 8 ==> r == 8,
        available is None ==> r == 4,
{
}

/// As many workers are started as are asked for, and one where none is.
pub proof fn law_someone_always_works(asked: usize, r: usize)
    requires
        call_ensures(worker_count, (asked,), r),
    ensures
        r >= 1,
        asked >= 1 ==> r == asked,
        asked == 0 ==> r == 1,
{
}

} // verus!
