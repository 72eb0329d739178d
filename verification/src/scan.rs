//! The arena tree a walk produces.
//!
//! Only *directories* become nodes. The bytes held in files sitting directly in a
//! directory are aggregated into that directory's `own_size`. A child is always
//! allocated while its parent is being scanned, so a node's index is always
//! greater than its parent's.
use vstd::prelude::*;

use crate::path::{
    absolute, formed, part_text, path_below, within, FsPath, Part, PartView, Platform,
};
use crate::rollup::{
    child_max, child_sums, hangs_under, law_root_holds_everything,
    law_subtrees_weigh_what_hangs_there, lemma_subtree_bounded, subtree_max, subtree_sum, sum_from,
    topological,
};
use crate::text::texts;

verus! {

/// The parent of a node that has none.
pub const NONE: u32 = 0xffff_ffff;

/// What became of a directory during the walk.
#[derive(Debug, Clone, Copy, PartialEq, Eq, Structural)]
pub enum NodeState {
    Readable,
    /// could not be read, or was not to be opened
    Unreadable,
    /// left out on request
    Excluded,
}

#[derive(Debug)]
pub struct Node {
    pub name: String,
    pub parent: u32,
    pub children: Vec<u32>,
    /// bytes of files directly inside this directory
    pub own_size: u64,
    /// bytes of every file in this subtree (filled in by `propagate`)
    pub total_size: u64,
    pub own_files: u32,
    pub total_files: u64,
    pub newest_mtime: i64,
    pub depth: u16,
    /// true when the directory could not be read (permissions)
    pub unreadable: bool,
    pub state: NodeState,
    /// Names of *marker* files directly in this directory (Cargo.toml,
    /// package.json, ...). Only names the rules actually ask about are kept.
    pub markers: Vec<String>,
}

impl Node {
    /// A directory about which nothing is known yet.
    pub fn new(name: String, parent: u32, depth: u16) -> (r: Node)
        ensures
            r.name == name,
            r.parent == parent,
            r.depth == depth,
            r.children@.len() == 0,
            r.own_size == 0,
            r.total_size == 0,
            r.own_files == 0,
            r.total_files == 0,
            r.newest_mtime == 0,
            !r.unreadable,
            r.state is Readable,
            r.markers@.len() == 0,
    {
        Node {
            name,
            parent,
            children: Vec::new(),
            own_size: 0,
            total_size: 0,
            own_files: 0,
            total_files: 0,
            newest_mtime: 0,
            depth,
            unreadable: false,
            state: NodeState::Readable,
            markers: Vec::new(),
        }
    }
}

#[derive(Debug)]
pub struct ScanStats {
    pub dirs: u64,
    pub files: u64,
    pub bytes: u64,
    /// directories we could not read — surfaced rather than swallowed, because a
    /// disk tool that silently under-reports is worse than one that admits it
    pub unreadable: u64,
    pub excluded: u64,
    pub unreadable_paths: Vec<FsPath>,
    pub excluded_paths: Vec<FsPath>,
    pub elapsed_ms: u128,
}

#[derive(Debug)]
pub struct Tree {
    pub nodes: Vec<Node>,
    pub root_path: FsPath,
    pub stats: ScanStats,
}

// ---------------------------------------------------------------------------
// The shape of the arena
// ---------------------------------------------------------------------------

/// The index of a node's parent, or -1.
pub open spec fn parent_index(node: Node) -> int {
    if node.parent == NONE {
        -1
    } else {
        node.parent as int
    }
}

/// The parent of each node.
pub open spec fn parent_indices(nodes: Seq<Node>) -> Seq<int> {
    nodes.map_values(|n: Node| parent_index(n))
}

/// The bytes each node contributes.
pub open spec fn size_weights(nodes: Seq<Node>) -> Seq<int> {
    nodes.map_values(|n: Node| n.total_size + n.own_size)
}

/// The files each node contributes.
pub open spec fn file_weights(nodes: Seq<Node>) -> Seq<int> {
    nodes.map_values(|n: Node| n.total_files + n.own_files)
}

/// The newest modification seen directly in each node.
pub open spec fn mtimes(nodes: Seq<Node>) -> Seq<int> {
    nodes.map_values(|n: Node| n.newest_mtime as int)
}

/// The bytes of files directly inside each node.
pub open spec fn own_sizes(nodes: Seq<Node>) -> Seq<int> {
    nodes.map_values(|n: Node| n.own_size as int)
}

/// The files directly inside each node.
pub open spec fn own_counts(nodes: Seq<Node>) -> Seq<int> {
    nodes.map_values(|n: Node| n.own_files as int)
}

/// Whether every node's totals are those of its subtree.
pub open spec fn totals_fit(nodes: Seq<Node>) -> bool {
    forall|i: int|
        0 <= i < nodes.len() ==> (#[trigger] nodes[i]).total_size == subtree_sum(
            parent_indices(nodes),
            own_sizes(nodes),
            i,
        ) && nodes[i].total_files == subtree_sum(parent_indices(nodes), own_counts(nodes), i)
}

/// One level below a depth; the count stops at the largest it can hold.
pub open spec fn deeper(depth: u16) -> u16 {
    if depth == u16::MAX {
        depth
    } else {
        (depth + 1) as u16
    }
}

/// Whether a node stands one level below its parent.
pub open spec fn one_deeper(nodes: Seq<Node>, i: int) -> bool {
    nodes[i].depth == deeper(nodes[nodes[i].parent as int].depth)
}

/// Whether the depths count the levels from the root down.
pub open spec fn depths_fit(nodes: Seq<Node>) -> bool {
    &&& nodes.len() > 0 ==> nodes[0].depth == 0
    &&& forall|i: int| 0 < i < nodes.len() ==> #[trigger] one_deeper(nodes, i)
}

/// Whether a node's parent stands in front of it.
pub open spec fn parent_first(nodes: Seq<Node>, i: int) -> bool {
    nodes[i].parent < i
}

/// Whether the `k`th child that node `i` lists takes node `i` for its parent.
pub open spec fn child_agrees(nodes: Seq<Node>, i: int, k: int) -> bool {
    &&& i < nodes[i].children@[k] < nodes.len()
    &&& nodes[nodes[i].children@[k] as int].parent == i
}

/// Whether a node's parent lists it.
pub open spec fn listed_by_parent(nodes: Seq<Node>, i: int) -> bool {
    nodes[nodes[i].parent as int].children@.contains(i as u32)
}

/// Whether node `i` lists its `k`th child in front of its `m`th by index.
pub open spec fn children_ordered(nodes: Seq<Node>, i: int, k: int, m: int) -> bool {
    nodes[i].children@[k] < nodes[i].children@[m]
}

/// Whether the nodes form one tree: the first is the root, every other one has a
/// parent in front of it, and the child lists say the same as the parents.
pub open spec fn arena(nodes: Seq<Node>) -> bool {
    &&& 0 < nodes.len() <= NONE
    &&& nodes[0].parent == NONE
    &&& forall|i: int| 0 < i < nodes.len() ==> #[trigger] parent_first(nodes, i)
    &&& forall|i: int| 0 < i < nodes.len() ==> #[trigger] listed_by_parent(nodes, i)
    &&& forall|i: int, k: int|
        0 <= i < nodes.len() && 0 <= k < nodes[i].children@.len() ==> #[trigger] child_agrees(
            nodes,
            i,
            k,
        )
    &&& forall|i: int, k: int, m: int|
        0 <= i < nodes.len() && 0 <= k < m < nodes[i].children@.len()
            ==> #[trigger] children_ordered(nodes, i, k, m)
}

/// An arena's parents stand in front of their children.
pub proof fn lemma_arena_topological(nodes: Seq<Node>)
    requires
        arena(nodes),
    ensures
        topological(parent_indices(nodes)),
        parent_indices(nodes)[0] == -1,
        forall|i: int| 0 < i < nodes.len() ==> 0 <= #[trigger] parent_indices(nodes)[i],
{
    assert forall|i: int| 0 <= i < parent_indices(nodes).len() implies -1
        <= #[trigger] parent_indices(nodes)[i] < i by {
        if i > 0 {
            assert(parent_first(nodes, i));
        }
    }
    assert forall|i: int| 0 < i < nodes.len() implies 0 <= #[trigger] parent_indices(nodes)[i] by {
        assert(parent_first(nodes, i));
    }
}

// ---------------------------------------------------------------------------
// Rolling totals up
// ---------------------------------------------------------------------------

/// Whether two nodes differ at most in their totals and newest modification.
pub open spec fn same_besides_totals(a: Node, b: Node) -> bool {
    a == (Node {
        total_size: a.total_size,
        total_files: a.total_files,
        newest_mtime: a.newest_mtime,
        ..b
    })
}

/// Roll subtree totals up to the root.
///
/// Index order is a valid topological order and a single reverse pass suffices:
/// no recursion, no second traversal.
pub fn propagate(nodes: &mut Vec<Node>)
    requires
        topological(parent_indices(old(nodes)@)),
        sum_from(size_weights(old(nodes)@), 0) <= u64::MAX,
        sum_from(file_weights(old(nodes)@), 0) <= u64::MAX,
    ensures
        final(nodes)@.len() == old(nodes)@.len(),
        forall|i: int|
            0 <= i < old(nodes)@.len() ==> {
                let node = #[trigger] final(nodes)@[i];
                let parents = parent_indices(old(nodes)@);
                &&& node.total_size == subtree_sum(parents, size_weights(old(nodes)@), i)
                &&& node.total_files == subtree_sum(parents, file_weights(old(nodes)@), i)
                &&& node.newest_mtime == subtree_max(parents, mtimes(old(nodes)@), i)
                &&& same_besides_totals(node, old(nodes)@[i])
            },
{
    let ghost start = nodes@;
    let ghost parents = parent_indices(start);
    let ghost sizes = size_weights(start);
    let ghost files = file_weights(start);
    let ghost times = mtimes(start);
    let count: usize = nodes.len();
    let mut idx: usize = count;
    while idx > 0
        invariant
            idx <= count,
            count == start.len(),
            nodes@.len() == count,
            parents == parent_indices(start),
            sizes == size_weights(start),
            files == file_weights(start),
            times == mtimes(start),
            topological(parents),
            sum_from(sizes, 0) <= u64::MAX,
            sum_from(files, 0) <= u64::MAX,
            forall|i: int| 0 <= i < count ==> same_besides_totals(#[trigger] nodes@[i], start[i]),
            forall|i: int|
                idx <= i < count ==> {
                    let node = #[trigger] nodes@[i];
                    &&& node.total_size == subtree_sum(parents, sizes, i)
                    &&& node.total_files == subtree_sum(parents, files, i)
                    &&& node.newest_mtime == subtree_max(parents, times, i)
                },
            forall|i: int|
                0 <= i < idx ==> {
                    let node = #[trigger] nodes@[i];
                    &&& node.total_size == start[i].total_size + child_sums(
                        parents,
                        sizes,
                        i,
                        idx as int,
                    )
                    &&& node.total_files == start[i].total_files + child_sums(
                        parents,
                        files,
                        i,
                        idx as int,
                    )
                    &&& node.newest_mtime == child_max(
                        parents,
                        times,
                        i,
                        idx as int,
                        times[i],
                    )
                },
        decreases idx,
    {
        let ghost before = nodes@;
        idx -= 1;
        proof {
            assert forall|j: int| 0 <= j < sizes.len() implies 0 <= #[trigger] sizes[j] by {}
            assert forall|j: int| 0 <= j < files.len() implies 0 <= #[trigger] files[j] by {}
            lemma_subtree_bounded(parents, sizes, idx as int);
            lemma_subtree_bounded(parents, files, idx as int);
            assert(same_besides_totals(before[idx as int], start[idx as int]));
            assert(parents[idx as int] == parent_index(start[idx as int]));
            assert(sizes[idx as int] == start[idx as int].total_size + start[idx as int].own_size);
            assert(files[idx as int] == start[idx as int].total_files + start[idx as int].own_files);
        }
        let total_size: u64 = nodes[idx].total_size + nodes[idx].own_size;
        let total_files: u64 = nodes[idx].total_files + nodes[idx].own_files as u64;
        let newest: i64 = nodes[idx].newest_mtime;
        let parent: u32 = nodes[idx].parent;
        nodes[idx].total_size = total_size;
        nodes[idx].total_files = total_files;
        if parent != NONE {
            let up: usize = parent as usize;
            proof {
                assert(parents[idx as int] == up);
                lemma_subtree_bounded(parents, sizes, up as int);
                lemma_subtree_bounded(parents, files, up as int);
                assert(sizes[up as int] == start[up as int].total_size + start[up as int].own_size);
                assert(files[up as int] == start[up as int].total_files
                    + start[up as int].own_files);
                assert(sizes[up as int] + child_sums(parents, sizes, up as int, idx as int)
                    <= subtree_sum(parents, sizes, up as int));
                assert(files[up as int] + child_sums(parents, files, up as int, idx as int)
                    <= subtree_sum(parents, files, up as int));
            }
            let up_size: u64 = nodes[up].total_size + total_size;
            let up_files: u64 = nodes[up].total_files + total_files;
            nodes[up].total_size = up_size;
            nodes[up].total_files = up_files;
            if newest > nodes[up].newest_mtime {
                nodes[up].newest_mtime = newest;
            }
        }
        assert forall|i: int| 0 <= i < idx implies {
            let node = #[trigger] nodes@[i];
            &&& node.total_size == start[i].total_size + child_sums(parents, sizes, i, idx as int)
            &&& node.total_files == start[i].total_files + child_sums(
                parents,
                files,
                i,
                idx as int,
            )
            &&& node.newest_mtime == child_max(parents, times, i, idx as int, times[i])
        } by {
            assert(same_besides_totals(before[i], start[i]));
            assert(total_size == subtree_sum(parents, sizes, idx as int));
            assert(total_files == subtree_sum(parents, files, idx as int));
            assert(newest == subtree_max(parents, times, idx as int));
            assert(before[i].total_size == start[i].total_size + child_sums(parents, sizes, i, idx + 1));
            assert(parents[idx as int] == i ==> parent == i);
            assert(parents[idx as int] != i ==> nodes@[i] == before[i]);
            assert(nodes@[i].total_size == start[i].total_size + child_sums(parents, sizes, i, idx as int));
            assert(nodes@[i].total_files == start[i].total_files + child_sums(parents, files, i, idx as int));
        }
        assert forall|i: int| 0 <= i < count implies same_besides_totals(
            #[trigger] nodes@[i],
            start[i],
        ) by {
            assert(same_besides_totals(before[i], start[i]));
        }
    }
}

// ---------------------------------------------------------------------------
// Paths of nodes
// ---------------------------------------------------------------------------

/// The names on the way from the root down to a node.
pub open spec fn node_names(nodes: Seq<Node>, i: int) -> Seq<Seq<char>>
    decreases i,
{
    if 0 < i < nodes.len() && nodes[i].parent < i {
        node_names(nodes, nodes[i].parent as int).push(nodes[i].name@)
    } else {
        Seq::empty()
    }
}

/// The path of a node.
pub open spec fn node_path(tree: Tree, i: int) -> Seq<PartView> {
    path_below(tree.root_path@, node_names(tree.nodes@, i))
}

impl Tree {
    pub fn root(&self) -> (r: &Node)
        requires
            self.nodes@.len() > 0,
        ensures
            *r == self.nodes@[0],
    {
        &self.nodes[0]
    }

    /// Reconstruct a node's absolute path by walking up the parent chain.
    pub fn path_of(&self, idx: u32) -> (r: FsPath)
        requires
            arena(self.nodes@),
            idx == NONE || idx < self.nodes@.len(),
        ensures
            r@ == (if idx == NONE {
                self.root_path@
            } else {
                node_path(*self, idx as int)
            }),
    {
        path_below_root(&self.root_path, &self.nodes, idx)
    }
}

/// The path of a node in an arena that hangs below `root`.
pub fn path_below_root(root: &FsPath, nodes: &Vec<Node>, idx: u32) -> (r: FsPath)
    requires
        arena(nodes@),
        idx == NONE || idx < nodes@.len(),
    ensures
        r@ == (if idx == NONE {
            root@
        } else {
            path_below(root@, node_names(nodes@, idx as int))
        }),
{
    let mut up: Vec<String> = Vec::new();
    let mut at: u32 = idx;
    let ghost names = if idx == NONE {
        Seq::empty()
    } else {
        node_names(nodes@, idx as int)
    };
    while at != NONE && at != 0
        invariant
            arena(nodes@),
            at == NONE || at < nodes@.len(),
            names == (if at == NONE {
                Seq::empty()
            } else {
                node_names(nodes@, at as int)
            }) + texts(up@).reverse(),
        ensures
            names == texts(up@).reverse(),
        decreases (if at == NONE {
            0
        } else {
            at as int
        }),
    {
        let ghost before = up@;
        let ghost here = at;
        assert(parent_first(nodes@, at as int));
        up.push(nodes[at as usize].name.clone());
        at = nodes[at as usize].parent;
        proof {
            assert(texts(up@) =~= texts(before).push(nodes@[here as int].name@));
            assert(texts(up@).reverse() =~= seq![nodes@[here as int].name@] + texts(
                before,
            ).reverse());
            assert(names =~= node_names(nodes@, at as int) + texts(up@).reverse());
        }
    }
    let mut path = root.clone();
    let mut k: usize = up.len();
    let ghost goal = path_below(root@, names);
    assert(path@ =~= goal.take(root@.len() as int));
    while k > 0
        invariant
            k <= up@.len(),
            names == texts(up@).reverse(),
            goal == path_below(root@, names),
            path@ == goal.take(root@.len() + up@.len() - k),
        decreases k,
    {
        k -= 1;
        let ghost before = path@;
        path.parts.push(Part::Normal(up[k].clone()));
        proof {
            assert(path@ =~= before.push(PartView::Normal(up@[k as int]@)));
            let n = root@.len() + up@.len() - k;
            assert(names[up@.len() - 1 - k] == texts(up@)[k as int]);
            assert(goal[n - 1] == PartView::Normal(names[up@.len() - 1 - k]));
            assert(path@ =~= goal.take(n));
        }
    }
    assert(goal.take(goal.len() as int) =~= goal);
    assert(idx == NONE ==> goal =~= root@);
    path
}

/// The first of `children` that is called `name`.
pub open spec fn child_named(nodes: Seq<Node>, children: Seq<u32>, name: Seq<char>) -> Option<u32>
    decreases children.len(),
{
    if children.len() == 0 {
        None
    } else if nodes[children[0] as int].name@ == name {
        Some(children[0])
    } else {
        child_named(nodes, children.drop_first(), name)
    }
}

/// The node reached from `i` by following names downwards.
pub open spec fn descend(nodes: Seq<Node>, i: int, parts: Seq<PartView>) -> Option<u32>
    decreases parts.len(),
{
    if parts.len() == 0 {
        Some(i as u32)
    } else {
        match child_named(nodes, nodes[i].children@, part_text(parts[0])) {
            Some(child) => descend(nodes, child as int, parts.drop_first()),
            None => None,
        }
    }
}

/// The node at a path, if that path was scanned.
pub open spec fn node_at(tree: Tree, path: Seq<PartView>) -> Option<u32> {
    if within(path, tree.root_path@) {
        descend(
            tree.nodes@,
            0,
            path.subrange(tree.root_path@.len() as int, path.len() as int),
        )
    } else {
        None
    }
}

proof fn lemma_child_named(nodes: Seq<Node>, children: Seq<u32>, name: Seq<char>)
    ensures
        child_named(nodes, children, name) matches Some(c) ==> children.contains(c)
            && nodes[c as int].name@ == name,
        child_named(nodes, children, name) is None ==> forall|k: int|
            0 <= k < children.len() ==> nodes[#[trigger] children[k] as int].name@ != name,
    decreases children.len(),
{
    if children.len() > 0 {
        let rest = children.drop_first();
        lemma_child_named(nodes, rest, name);
        if let Some(c) = child_named(nodes, rest, name) {
            let k = choose|k: int| 0 <= k < rest.len() && rest[k] == c;
            assert(children[k + 1] == c);
        }
        if nodes[children[0] as int].name@ == name {
            assert(children[0] == children[0]);
        }
        assert forall|k: int|
            0 <= k < children.len() && child_named(nodes, children, name) is None implies nodes[
        #[trigger] children[k] as int].name@ != name by {
            if k > 0 {
                assert(rest[k - 1] == children[k]);
            }
        }
    }
}

/// The first child of node `i` that is called `name`.
fn find_child(nodes: &Vec<Node>, i: usize, name: &str) -> (r: Option<u32>)
    requires
        arena(nodes@),
        i < nodes@.len(),
    ensures
        r == child_named(nodes@, nodes@[i as int].children@, name@),
        r matches Some(c) ==> i < c < nodes@.len(),
{
    let ghost all = nodes@[i as int].children@;
    let count: usize = nodes[i].children.len();
    let mut k: usize = 0;
    assert(all.subrange(0, all.len() as int) == all);
    while k < count
        invariant
            arena(nodes@),
            i < nodes@.len(),
            all == nodes@[i as int].children@,
            count == all.len(),
            k <= count,
            child_named(nodes@, all, name@) == child_named(
                nodes@,
                all.subrange(k as int, all.len() as int),
                name@,
            ),
        decreases count - k,
    {
        let ghost rest = all.subrange(k as int, all.len() as int);
        let c: u32 = nodes[i].children[k];
        assert(child_agrees(nodes@, i as int, k as int));
        assert(rest[0] == c);
        if *nodes[c as usize].name.as_str() == *name {
            return Some(c);
        }
        assert(rest.drop_first() == all.subrange(k + 1, all.len() as int));
        k += 1;
    }
    None
}

/// Walk down from the tree root to the node for `path`, if it was scanned.
pub fn find_node(tree: &Tree, path: &FsPath) -> (r: Option<u32>)
    requires
        arena(tree.nodes@),
    ensures
        r == node_at(*tree, path@),
        r matches Some(i) ==> i < tree.nodes@.len(),
{
    if !path.starts_with(&tree.root_path) {
        return None;
    }
    let mut at: u32 = 0;
    let mut k: usize = tree.root_path.parts.len();
    assert(tree.root_path@.len() == k && path@.len() == path.parts@.len());
    while k < path.parts.len()
        invariant
            arena(tree.nodes@),
            k <= path.parts@.len(),
            path@.len() == path.parts@.len(),
            at < tree.nodes@.len(),
            node_at(*tree, path@) == descend(
                tree.nodes@,
                at as int,
                path@.subrange(k as int, path@.len() as int),
            ),
        decreases path.parts.len() - k,
    {
        let ghost rest = path@.subrange(k as int, path@.len() as int);
        assert(rest[0] == path.parts@[k as int]@);
        let want = path.parts[k].text();
        match find_child(&tree.nodes, at as usize, want.as_str()) {
            Some(c) => {
                assert(rest.drop_first() == path@.subrange(k + 1, path@.len() as int));
                at = c;
            },
            None => {
                return None;
            },
        }
        k += 1;
    }
    Some(at)
}

// ---------------------------------------------------------------------------
// What the tree promises
// ---------------------------------------------------------------------------

/// Whether no two directories in the same directory share a name.
pub open spec fn distinct_siblings(nodes: Seq<Node>) -> bool {
    forall|i: int, j: int|
        0 < i < nodes.len() && 0 < j < nodes.len() && i != j ==> #[trigger] told_apart(nodes, i, j)
}

/// Whether two nodes have different parents or different names.
pub open spec fn told_apart(nodes: Seq<Node>, i: int, j: int) -> bool {
    nodes[i].parent == nodes[j].parent ==> nodes[i].name@ != nodes[j].name@
}

proof fn lemma_descend_further(nodes: Seq<Node>, i: int, parts: Seq<PartView>, next: PartView)
    ensures
        descend(nodes, i, parts.push(next)) == (match descend(nodes, i, parts) {
            Some(k) => child_named(
                nodes,
                nodes[if parts.len() == 0 { i } else { k as int }].children@,
                part_text(next),
            ),
            None => None,
        }),
    decreases parts.len(),
{
    let longer = parts.push(next);
    if parts.len() == 0 {
        assert(longer.drop_first() =~= Seq::empty());
        match child_named(nodes, nodes[i].children@, part_text(next)) {
            Some(c) => {
                assert(descend(nodes, c as int, longer.drop_first()) == Some(c as int as u32));
            },
            None => {},
        }
    } else {
        assert(longer.drop_first() =~= parts.drop_first().push(next));
        match child_named(nodes, nodes[i].children@, part_text(parts[0])) {
            Some(c) => {
                lemma_descend_further(nodes, c as int, parts.drop_first(), next);
                if parts.drop_first().len() == 0 {
                    assert(descend(nodes, c as int, parts.drop_first()) == Some(c));
                }
            },
            None => {},
        }
    }
}

proof fn lemma_descend_to(nodes: Seq<Node>, i: int)
    requires
        arena(nodes),
        distinct_siblings(nodes),
        0 <= i < nodes.len(),
    ensures
        descend(
            nodes,
            0,
            node_names(nodes, i).map_values(|name: Seq<char>| PartView::Normal(name)),
        ) == Some(i as u32),
    decreases i,
{
    let f = |name: Seq<char>| PartView::Normal(name);
    if i > 0 {
        let up = nodes[i].parent as int;
        assert(parent_first(nodes, i));
        assert(listed_by_parent(nodes, i));
        lemma_descend_to(nodes, up);
        let front = node_names(nodes, up).map_values(f);
        let next = PartView::Normal(nodes[i].name@);
        assert(node_names(nodes, i).map_values(f) =~= front.push(next));
        lemma_descend_further(nodes, 0, front, next);
        let children = nodes[up].children@;
        lemma_child_named(nodes, children, nodes[i].name@);
        assert(children.contains(i as u32));
        let k = choose|k: int| 0 <= k < children.len() && children[k] == i as u32;
        match child_named(nodes, children, nodes[i].name@) {
            Some(c) => {
                let m = choose|m: int| 0 <= m < children.len() && children[m] == c;
                assert(child_agrees(nodes, up, m));
                if c as int != i {
                    assert(told_apart(nodes, c as int, i));
                }
            },
            None => {
                assert(nodes[children[k] as int].name@ != nodes[i].name@);
            },
        }
    } else {
        assert(node_names(nodes, i).map_values(f) =~= Seq::empty());
    }
}

/// Looking up the path of a node finds that node.
pub proof fn law_path_round_trips(tree: Tree, i: int)
    requires
        arena(tree.nodes@),
        distinct_siblings(tree.nodes@),
        0 <= i < tree.nodes@.len(),
    ensures
        node_at(tree, node_path(tree, i)) == Some(i as u32),
{
    let names = node_names(tree.nodes@, i);
    let tail = names.map_values(|name: Seq<char>| PartView::Normal(name));
    let path = node_path(tree, i);
    let root = tree.root_path@;
    assert(root =~= path.subrange(0, root.len() as int));
    assert(path.subrange(root.len() as int, path.len() as int) =~= tail);
    lemma_descend_to(tree.nodes@, i);
}

proof fn lemma_descend_names(nodes: Seq<Node>, i: int, parts: Seq<PartView>)
    requires
        arena(nodes),
        0 <= i < nodes.len(),
    ensures
        descend(nodes, i, parts) matches Some(k) ==> k < nodes.len() && node_names(nodes, k as int)
            == node_names(nodes, i) + parts.map_values(|part: PartView| part_text(part)),
    decreases parts.len(),
{
    let f = |part: PartView| part_text(part);
    if parts.len() == 0 {
        assert(node_names(nodes, i) =~= node_names(nodes, i) + parts.map_values(f));
    } else {
        let children = nodes[i].children@;
        lemma_child_named(nodes, children, part_text(parts[0]));
        if let Some(c) = child_named(nodes, children, part_text(parts[0])) {
            let m = choose|m: int| 0 <= m < children.len() && children[m] == c;
            assert(child_agrees(nodes, i, m));
            lemma_descend_names(nodes, c as int, parts.drop_first());
            assert(node_names(nodes, c as int) == node_names(nodes, i).push(part_text(parts[0])));
            assert(node_names(nodes, i) + parts.map_values(f) =~= node_names(nodes, i).push(
                part_text(parts[0]),
            ) + parts.drop_first().map_values(f));
        }
    }
}

/// A node found for a path below the root is the node of that path: its names,
/// read from the root down, are the path's.
pub proof fn law_found_node_has_the_path(tree: Tree, path: Seq<PartView>)
    requires
        arena(tree.nodes@),
        forall|k: int| tree.root_path@.len() <= k < path.len() ==> (#[trigger] path[k]) is Normal,
    ensures
        node_at(tree, path) matches Some(i) ==> i < tree.nodes@.len() && node_path(tree, i as int)
            == path,
{
    let root = tree.root_path@;
    if within(path, root) {
        let rest = path.subrange(root.len() as int, path.len() as int);
        lemma_descend_names(tree.nodes@, 0, rest);
        if let Some(i) = node_at(tree, path) {
            let names = node_names(tree.nodes@, i as int);
            assert(names =~= rest.map_values(|part: PartView| part_text(part)));
            assert forall|k: int| 0 <= k < path.len() implies node_path(tree, i as int)[k]
                == path[k] by {
                if k < root.len() {
                    assert(path.subrange(0, root.len() as int)[k] == path[k]);
                } else {
                    assert(names[k - root.len()] == part_text(path[k]));
                }
            }
            assert(node_path(tree, i as int) =~= path);
        }
    }
}

/// Whether no directory below the root is called `..`. No disk has one that is.
pub open spec fn no_node_leads_up(nodes: Seq<Node>) -> bool {
    forall|i: int| 0 < i < nodes.len() ==> (#[trigger] nodes[i]).name@ != ".."@
}

proof fn lemma_names_are_of_nodes(nodes: Seq<Node>, i: int, k: int)
    requires
        arena(nodes),
        0 <= i < nodes.len(),
        0 <= k < node_names(nodes, i).len(),
    ensures
        exists|j: int| 0 < j < nodes.len() && node_names(nodes, i)[k] == (#[trigger] nodes[j]).name@,
    decreases i,
{
    if i > 0 {
        assert(parent_first(nodes, i));
        let up = nodes[i].parent as int;
        let above = node_names(nodes, up);
        assert(node_names(nodes, i) == above.push(nodes[i].name@));
        if k < above.len() {
            lemma_names_are_of_nodes(nodes, up, k);
            let j = choose|j: int| 0 < j < nodes.len() && above[k] == (#[trigger] nodes[j]).name@;
            assert(node_names(nodes, i)[k] == nodes[j].name@);
        } else {
            assert(node_names(nodes, i)[k] == nodes[i].name@);
        }
    }
}

/// A path that leads to a node goes straight down from the root: no path through
/// `..` is ever found.
pub proof fn law_found_paths_go_down(tree: Tree, path: Seq<PartView>, platform: Platform)
    requires
        arena(tree.nodes@),
        no_node_leads_up(tree.nodes@),
        absolute(tree.root_path@, platform),
        formed(path),
        node_at(tree, path) is Some,
    ensures
        forall|k: int| tree.root_path@.len() <= k < path.len() ==> (#[trigger] path[k]) is Normal,
        node_path(tree, node_at(tree, path)->0 as int) == path,
        node_at(tree, path)->0 < tree.nodes@.len(),
{
    let root = tree.root_path@;
    let rest = path.subrange(root.len() as int, path.len() as int);
    let i = node_at(tree, path)->0;
    lemma_descend_names(tree.nodes@, 0, rest);
    let names = node_names(tree.nodes@, i as int);
    assert(names =~= rest.map_values(|part: PartView| part_text(part)));
    assert(root[0] == path[0]) by {
        assert(path.subrange(0, root.len() as int)[0] == path[0]);
    }
    assert forall|k: int| root.len() <= k < path.len() implies (#[trigger] path[k]) is Normal by {
        assert(rest[k - root.len()] == path[k]);
        lemma_names_are_of_nodes(tree.nodes@, i as int, k - root.len());
        assert(names[k - root.len()] == part_text(path[k]));
    }
    law_found_node_has_the_path(tree, path);
}

/// The root's totals are those of every directory together.
pub proof fn law_totals_roll_up(nodes: Seq<Node>)
    requires
        arena(nodes),
    ensures
        subtree_sum(parent_indices(nodes), size_weights(nodes), 0) == sum_from(
            size_weights(nodes),
            0,
        ),
        subtree_sum(parent_indices(nodes), file_weights(nodes), 0) == sum_from(
            file_weights(nodes),
            0,
        ),
{
    lemma_arena_topological(nodes);
    law_root_holds_everything(parent_indices(nodes), size_weights(nodes));
    law_root_holds_everything(parent_indices(nodes), file_weights(nodes));
}

/// What a directory weighs in a roll-up is what it holds itself besides any total it
/// has already.
pub proof fn law_directories_weigh_what_they_hold(nodes: Seq<Node>, i: int)
    requires
        0 <= i < nodes.len(),
    ensures
        size_weights(nodes)[i] == nodes[i].own_size + nodes[i].total_size,
        file_weights(nodes)[i] == nodes[i].own_files + nodes[i].total_files,
        own_sizes(nodes)[i] == nodes[i].own_size,
        own_counts(nodes)[i] == nodes[i].own_files,
        mtimes(nodes)[i] == nodes[i].newest_mtime,
        parent_indices(nodes)[i] == (if nodes[i].parent == u32::MAX {
            -1
        } else {
            nodes[i].parent as int
        }),
{
}

/// The total of a directory is what it holds itself and what the directories
/// anywhere below it hold, each once.
pub proof fn law_totals_take_everything_below(nodes: Seq<Node>, top: int)
    requires
        arena(nodes),
        totals_fit(nodes),
        0 <= top < nodes.len(),
    ensures
        nodes[top].total_size == sum_from(
            Seq::new(
                nodes.len(),
                |i: int|
                    if hangs_under(parent_indices(nodes), top, i) {
                        nodes[i].own_size as int
                    } else {
                        0
                    },
            ),
            0,
        ),
        nodes[top].total_files == sum_from(
            Seq::new(
                nodes.len(),
                |i: int|
                    if hangs_under(parent_indices(nodes), top, i) {
                        nodes[i].own_files as int
                    } else {
                        0
                    },
            ),
            0,
        ),
{
    let parents = parent_indices(nodes);
    lemma_arena_topological(nodes);
    law_subtrees_weigh_what_hangs_there(parents, own_sizes(nodes), top);
    law_subtrees_weigh_what_hangs_there(parents, own_counts(nodes), top);
    assert(Seq::new(
        own_sizes(nodes).len(),
        |i: int|
            if hangs_under(parents, top, i) {
                own_sizes(nodes)[i]
            } else {
                0
            },
    ) =~= Seq::new(
        nodes.len(),
        |i: int|
            if hangs_under(parents, top, i) {
                nodes[i].own_size as int
            } else {
                0
            },
    ));
    assert(Seq::new(
        own_counts(nodes).len(),
        |i: int|
            if hangs_under(parents, top, i) {
                own_counts(nodes)[i]
            } else {
                0
            },
    ) =~= Seq::new(
        nodes.len(),
        |i: int|
            if hangs_under(parents, top, i) {
                nodes[i].own_files as int
            } else {
                0
            },
    ));
}

/// The root has the path of the scan, and any other directory that of its parent
/// followed by its name.
pub proof fn law_paths_go_down_by_name(tree: Tree, i: int)
    requires
        arena(tree.nodes@),
        0 <= i < tree.nodes@.len(),
    ensures
        i == 0 ==> node_path(tree, i) == tree.root_path@,
        i > 0 ==> node_path(tree, i) == node_path(tree, tree.nodes@[i].parent as int).push(
            PartView::Normal(tree.nodes@[i].name@),
        ),
{
    if i > 0 {
        assert(parent_first(tree.nodes@, i));
        assert(node_path(tree, i) =~= node_path(tree, tree.nodes@[i].parent as int).push(
            PartView::Normal(tree.nodes@[i].name@),
        ));
    } else {
        assert(node_path(tree, 0) =~= tree.root_path@);
    }
}

/// The depth of a directory is how many names lead down to it, as far as it can be
/// counted.
pub proof fn law_depths_count_names(nodes: Seq<Node>, i: int)
    requires
        arena(nodes),
        depths_fit(nodes),
        0 <= i < nodes.len(),
    ensures
        node_names(nodes, i).len() <= 65535 ==> nodes[i].depth == node_names(nodes, i).len(),
        node_names(nodes, i).len() > 65535 ==> nodes[i].depth == 65535,
    decreases i,
{
    if i > 0 {
        assert(parent_first(nodes, i));
        assert(one_deeper(nodes, i));
        law_depths_count_names(nodes, nodes[i].parent as int);
    }
}

/// A path outside the scanned directory leads to no node, and the scanned directory
/// itself to the root.
pub proof fn law_nothing_is_found_outside(tree: Tree, path: Seq<PartView>)
    ensures
        !within(path, tree.root_path@) ==> node_at(tree, path) is None,
        node_at(tree, tree.root_path@) == Some(0u32),
{
    let root = tree.root_path@;
    assert(root.subrange(0, root.len() as int) =~= root);
    assert(root.subrange(root.len() as int, root.len() as int).len() == 0);
}

} // verus!
