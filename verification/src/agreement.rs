//! Two walks of the same disk agree.
//!
//! What a walk finds depends on what is on the disk and on nothing else: not on
//! how many workers there were, nor on which of them came first, nor on the order
//! in which a directory lists its entries. All of that decides the numbering of
//! the nodes only. And where a walk was told not to go, it has not been.
use vstd::prelude::*;

use crate::entry::{
    file_bytes, file_count, law_every_directory_is_walked, newest_entry, nothing_listed, subdir_names,
    DirEntry, Listing, RawMeta, Volume,
};
use crate::path::{path_below, within, PartView};
use crate::rollup::{
    child_max, child_sums, larger, law_root_holds_everything, subtree_max, subtree_sum, sum_from,
};
use crate::scan::{
    arena, child_agrees, children_ordered, file_weights, lemma_arena_topological, listed_by_parent,
    mtimes, node_names, node_path, parent_first, parent_indices, same_besides_totals, size_weights,
    Node, NodeState, Tree,
};
use crate::text::texts;
use crate::walk::{
    being_read, child_task, grown, heeds, honest, is_pending, kept_shut, lemma_claim_keeps_pending,
    lemma_names_kept, lemma_rolled_up_names, pending, rolled_up, task_fits, WalkView,
};

verus! {

/// What is published for a directory.
pub struct Contents {
    pub own_size: int,
    pub own_files: int,
    pub newest: int,
    /// The names of the subdirectories, in whatever order.
    pub subdirs: Seq<Seq<char>>,
    pub state: NodeState,
}

/// What is published for each path, whoever gets there.
pub type Disk = spec_fn(Seq<PartView>) -> Contents;

/// The path of a node.
pub open spec fn place(root: Seq<PartView>, nodes: Seq<Node>, i: int) -> Seq<PartView> {
    path_below(root, node_names(nodes, i))
}

/// The names of a node's children.
pub open spec fn child_names(nodes: Seq<Node>, i: int) -> Seq<Seq<char>> {
    nodes[i].children@.map_values(|c: u32| nodes[c as int].name@)
}

/// Whether a node holds what the disk has at its path. In which order its children
/// are listed does not matter.
pub open spec fn node_matches(root: Seq<PartView>, nodes: Seq<Node>, i: int, disk: Disk) -> bool {
    let contents = disk(place(root, nodes, i));
    &&& nodes[i].own_size == contents.own_size
    &&& nodes[i].own_files == contents.own_files
    &&& nodes[i].newest_mtime == contents.newest
    &&& nodes[i].state == contents.state
    &&& child_names(nodes, i).to_multiset() == contents.subdirs.to_multiset()
}

/// Whether a listing is what the disk has at a path, in whatever order.
pub open spec fn listing_matches(listing: Listing, contents: Contents) -> bool {
    &&& listing.own_size == contents.own_size
    &&& listing.own_files == contents.own_files
    &&& listing.newest == contents.newest
    &&& listing.state == contents.state
    &&& texts(listing.subdirs@).to_multiset() == contents.subdirs.to_multiset()
}

/// Whether every node that was published holds what the disk has.
pub open spec fn faithful(walk: WalkView, disk: Disk) -> bool {
    forall|i: int|
        0 <= i < walk.nodes.len() ==> is_pending(walk, i) || #[trigger] node_matches(
            walk.root_path,
            walk.nodes,
            i,
            disk,
        )
}

// ---------------------------------------------------------------------------
// The order of a list does not matter
// ---------------------------------------------------------------------------

/// The numbers of a list, added up.
spec fn add_up(values: Seq<int>) -> int
    decreases values.len(),
{
    if values.len() == 0 {
        0
    } else {
        values[0] + add_up(values.drop_first())
    }
}

/// The largest of `least` and the numbers of a list.
spec fn largest(values: Seq<int>, least: int) -> int
    decreases values.len(),
{
    if values.len() == 0 {
        least
    } else {
        larger(largest(values.drop_first(), least), values[0])
    }
}

proof fn lemma_take_out(values: Seq<int>, m: int, least: int)
    requires
        0 <= m < values.len(),
    ensures
        add_up(values) == values[m] + add_up(values.remove(m)),
        largest(values, least) == larger(largest(values.remove(m), least), values[m]),
    decreases values.len(),
{
    if m == 0 {
        assert(values.remove(0) =~= values.drop_first());
    } else {
        let rest = values.drop_first();
        lemma_take_out(rest, m - 1, least);
        assert(values.remove(m).drop_first() =~= rest.remove(m - 1));
        assert(values.remove(m)[0] == values[0]);
    }
}

/// Lists that hold the same names, with values that depend on the names alone, add
/// up to the same and have the same largest value.
proof fn lemma_order_does_not_matter(
    na: Seq<Seq<char>>,
    va: Seq<int>,
    nb: Seq<Seq<char>>,
    vb: Seq<int>,
    least: int,
)
    requires
        na.len() == va.len(),
        nb.len() == vb.len(),
        na.to_multiset() == nb.to_multiset(),
        forall|k: int, m: int|
            0 <= k < na.len() && 0 <= m < nb.len() && #[trigger] na[k] == #[trigger] nb[m]
                ==> va[k] == vb[m],
    ensures
        add_up(va) == add_up(vb),
        largest(va, least) == largest(vb, least),
    decreases na.len(),
{
    broadcast use vstd::seq_lib::group_to_multiset_ensures;

    assert(na.len() == na.to_multiset().len());
    assert(nb.len() == nb.to_multiset().len());
    if na.len() > 0 {
        assert(na.contains(na[0]));
        assert(nb.to_multiset().count(na[0]) > 0);
        assert(nb.contains(na[0]));
        let m = choose|m: int| 0 <= m < nb.len() && nb[m] == na[0];
        let na1 = na.remove(0);
        let nb1 = nb.remove(m);
        let va1 = va.remove(0);
        let vb1 = vb.remove(m);
        assert(na1.to_multiset() =~= na.to_multiset().remove(na[0]));
        assert(nb1.to_multiset() =~= nb.to_multiset().remove(nb[m]));
        assert forall|k: int, j: int|
            0 <= k < na1.len() && 0 <= j < nb1.len() && #[trigger] na1[k]
                == #[trigger] nb1[j] implies va1[k] == vb1[j] by {
            let k0 = k + 1;
            let j0 = if j < m {
                j
            } else {
                j + 1
            };
            assert(na1[k] == na[k0] && nb1[j] == nb[j0]);
            assert(na[k0] == nb[j0]);
        }
        lemma_order_does_not_matter(na1, va1, nb1, vb1, least);
        lemma_take_out(va, 0, least);
        lemma_take_out(vb, m, least);
        assert(na[0] == nb[m]);
    }
}

// ---------------------------------------------------------------------------
// What a subtree holds is what the disk holds below its path
// ---------------------------------------------------------------------------

/// The subtree sums of a list of nodes.
spec fn sums_of(parents: Seq<int>, weights: Seq<int>, list: Seq<u32>) -> Seq<int> {
    list.map_values(|c: u32| subtree_sum(parents, weights, c as int))
}

/// The subtree maxima of a list of nodes.
spec fn maxima_of(parents: Seq<int>, values: Seq<int>, list: Seq<u32>) -> Seq<int> {
    list.map_values(|c: u32| subtree_max(parents, values, c as int))
}

/// Going through the children by index is going through the child list.
proof fn lemma_child_list(
    nodes: Seq<Node>,
    weights: Seq<int>,
    i: int,
    from: int,
    t: int,
    least: int,
)
    requires
        arena(nodes),
        0 <= i < nodes.len(),
        i < from <= nodes.len(),
        0 <= t <= nodes[i].children@.len(),
        t > 0 ==> nodes[i].children@[t - 1] < from,
        t < nodes[i].children@.len() ==> from <= nodes[i].children@[t],
    ensures
        ({
            let parents = parent_indices(nodes);
            let list = nodes[i].children@;
            let rest = list.subrange(t, list.len() as int);
            &&& child_sums(parents, weights, i, from) == add_up(sums_of(parents, weights, rest))
            &&& child_max(parents, weights, i, from, least) == largest(
                maxima_of(parents, weights, rest),
                least,
            )
        }),
    decreases nodes.len() - from,
{
    let parents = parent_indices(nodes);
    let list = nodes[i].children@;
    let rest = list.subrange(t, list.len() as int);
    if t < list.len() {
        assert(child_agrees(nodes, i, t));
    }
    if from < nodes.len() {
        assert(parent_first(nodes, from));
        if parents[from] == i {
            assert(listed_by_parent(nodes, from));
            let k = choose|k: int| 0 <= k < list.len() && list[k] == from as u32;
            if k < t {
                if k < t - 1 {
                    assert(children_ordered(nodes, i, k, t - 1));
                }
                assert(false);
            }
            if t < k {
                assert(children_ordered(nodes, i, t, k));
                assert(false);
            }
            if t + 1 < list.len() {
                assert(children_ordered(nodes, i, t, t + 1));
            }
            lemma_child_list(nodes, weights, i, from + 1, t + 1, least);
            let next = list.subrange(t + 1, list.len() as int);
            assert(rest[0] == from as u32);
            assert(sums_of(parents, weights, rest).drop_first() =~= sums_of(
                parents,
                weights,
                next,
            ));
            assert(maxima_of(parents, weights, rest).drop_first() =~= maxima_of(
                parents,
                weights,
                next,
            ));
        } else {
            lemma_child_list(nodes, weights, i, from + 1, t, least);
        }
    } else {
        assert(rest.len() == 0);
    }
}

proof fn lemma_child_place(root: Seq<PartView>, nodes: Seq<Node>, i: int, k: int)
    requires
        arena(nodes),
        0 <= i < nodes.len(),
        0 <= k < nodes[i].children@.len(),
    ensures
        i < nodes[i].children@[k] < nodes.len(),
        place(root, nodes, nodes[i].children@[k] as int) == place(root, nodes, i).push(
            PartView::Normal(child_names(nodes, i)[k]),
        ),
{
    assert(child_agrees(nodes, i, k));
    let c = nodes[i].children@[k] as int;
    assert(node_names(nodes, c) == node_names(nodes, i).push(nodes[c].name@));
    assert(place(root, nodes, c) =~= place(root, nodes, i).push(PartView::Normal(nodes[c].name@)));
}

/// What a directory of the disk holds together with everything below it, counted
/// down to a depth.
pub open spec fn disk_total(
    disk: Disk,
    count: spec_fn(Contents) -> int,
    path: Seq<PartView>,
    depth: nat,
) -> int
    decreases depth, 0int,
{
    if depth == 0 {
        0
    } else {
        let contents = disk(path);
        count(contents) + below_total(disk, count, path, contents.subdirs, (depth - 1) as nat)
    }
}

/// What some subdirectories of a directory hold, counted down to a depth.
pub open spec fn below_total(
    disk: Disk,
    count: spec_fn(Contents) -> int,
    path: Seq<PartView>,
    names: Seq<Seq<char>>,
    depth: nat,
) -> int
    decreases depth, names.len() + 1,
{
    if names.len() == 0 {
        0
    } else {
        disk_total(disk, count, path.push(PartView::Normal(names[0])), depth) + below_total(
            disk,
            count,
            path,
            names.drop_first(),
            depth,
        )
    }
}

/// The newest modification in a directory of the disk or anywhere below it, down
/// to a depth.
pub open spec fn disk_newest(disk: Disk, path: Seq<PartView>, depth: nat) -> int
    decreases depth, 0int,
{
    if depth == 0 {
        0
    } else {
        let contents = disk(path);
        below_newest(disk, path, contents.subdirs, (depth - 1) as nat, contents.newest)
    }
}

/// The largest of `least` and the newest modifications in some subdirectories of a
/// directory, down to a depth.
pub open spec fn below_newest(
    disk: Disk,
    path: Seq<PartView>,
    names: Seq<Seq<char>>,
    depth: nat,
    least: int,
) -> int
    decreases depth, names.len() + 1,
{
    if names.len() == 0 {
        least
    } else {
        larger(
            below_newest(disk, path, names.drop_first(), depth, least),
            disk_newest(disk, path.push(PartView::Normal(names[0])), depth),
        )
    }
}

/// What each of some subdirectories holds.
spec fn totals_below(
    disk: Disk,
    count: spec_fn(Contents) -> int,
    path: Seq<PartView>,
    names: Seq<Seq<char>>,
    depth: nat,
) -> Seq<int> {
    names.map_values(
        |name: Seq<char>| disk_total(disk, count, path.push(PartView::Normal(name)), depth),
    )
}

/// The newest modification in each of some subdirectories.
spec fn newest_below(
    disk: Disk,
    path: Seq<PartView>,
    names: Seq<Seq<char>>,
    depth: nat,
) -> Seq<int> {
    names.map_values(
        |name: Seq<char>| disk_newest(disk, path.push(PartView::Normal(name)), depth),
    )
}

proof fn lemma_below(
    disk: Disk,
    count: spec_fn(Contents) -> int,
    path: Seq<PartView>,
    names: Seq<Seq<char>>,
    depth: nat,
    least: int,
)
    ensures
        below_total(disk, count, path, names, depth) == add_up(
            totals_below(disk, count, path, names, depth),
        ),
        below_newest(disk, path, names, depth, least) == largest(
            newest_below(disk, path, names, depth),
            least,
        ),
    decreases names.len(),
{
    if names.len() > 0 {
        let rest = names.drop_first();
        lemma_below(disk, count, path, rest, depth, least);
        assert(totals_below(disk, count, path, names, depth).drop_first() =~= totals_below(
            disk,
            count,
            path,
            rest,
            depth,
        ));
        assert(newest_below(disk, path, names, depth).drop_first() =~= newest_below(
            disk,
            path,
            rest,
            depth,
        ));
    }
}

/// Whether every node holds what the disk has at its path.
spec fn all_match(root: Seq<PartView>, nodes: Seq<Node>, disk: Disk) -> bool {
    forall|k: int| 0 <= k < nodes.len() ==> #[trigger] node_matches(root, nodes, k, disk)
}

proof fn lemma_subtree_is_disk(
    root: Seq<PartView>,
    nodes: Seq<Node>,
    weights: Seq<int>,
    disk: Disk,
    count: spec_fn(Contents) -> int,
    i: int,
    depth: nat,
)
    requires
        arena(nodes),
        weights.len() == nodes.len(),
        all_match(root, nodes, disk),
        forall|k: int|
            0 <= k < nodes.len() ==> #[trigger] weights[k] == count(disk(place(root, nodes, k))),
        0 <= i < nodes.len(),
        depth >= nodes.len() - i,
    ensures
        subtree_sum(parent_indices(nodes), weights, i) == disk_total(
            disk,
            count,
            place(root, nodes, i),
            depth,
        ),
    decreases nodes.len() - i,
{
    let parents = parent_indices(nodes);
    let list = nodes[i].children@;
    let path = place(root, nodes, i);
    let down = (depth - 1) as nat;
    let names = child_names(nodes, i);
    let listed = disk(path).subdirs;
    assert(node_matches(root, nodes, i, disk));
    assert(weights[i] == count(disk(path)));
    if list.len() > 0 {
        assert(child_agrees(nodes, i, 0));
    }
    lemma_child_list(nodes, weights, i, i + 1, 0, 0);
    assert(list.subrange(0, list.len() as int) =~= list);
    lemma_below(disk, count, path, listed, down, 0);
    let values = sums_of(parents, weights, list);
    let there = totals_below(disk, count, path, listed, down);
    assert forall|k: int| 0 <= k < list.len() implies #[trigger] values[k] == disk_total(
        disk,
        count,
        path.push(PartView::Normal(names[k])),
        down,
    ) by {
        lemma_child_place(root, nodes, i, k);
        lemma_subtree_is_disk(root, nodes, weights, disk, count, list[k] as int, down);
    }
    assert forall|k: int, m: int|
        0 <= k < names.len() && 0 <= m < listed.len() && #[trigger] names[k]
            == #[trigger] listed[m] implies values[k] == there[m] by {
        assert(values[k] == disk_total(
            disk,
            count,
            path.push(PartView::Normal(names[k])),
            down,
        ));
    }
    lemma_order_does_not_matter(names, values, listed, there, 0);
}

proof fn lemma_newest_is_disk(
    root: Seq<PartView>,
    nodes: Seq<Node>,
    disk: Disk,
    i: int,
    depth: nat,
)
    requires
        arena(nodes),
        all_match(root, nodes, disk),
        0 <= i < nodes.len(),
        depth >= nodes.len() - i,
    ensures
        subtree_max(parent_indices(nodes), mtimes(nodes), i) == disk_newest(
            disk,
            place(root, nodes, i),
            depth,
        ),
    decreases nodes.len() - i,
{
    let parents = parent_indices(nodes);
    let list = nodes[i].children@;
    let path = place(root, nodes, i);
    let down = (depth - 1) as nat;
    let names = child_names(nodes, i);
    let listed = disk(path).subdirs;
    let own = disk(path).newest;
    assert(node_matches(root, nodes, i, disk));
    assert(mtimes(nodes)[i] == own);
    if list.len() > 0 {
        assert(child_agrees(nodes, i, 0));
    }
    lemma_child_list(nodes, mtimes(nodes), i, i + 1, 0, own);
    assert(list.subrange(0, list.len() as int) =~= list);
    lemma_below(disk, |contents: Contents| 0int, path, listed, down, own);
    let values = maxima_of(parents, mtimes(nodes), list);
    let there = newest_below(disk, path, listed, down);
    assert forall|k: int| 0 <= k < list.len() implies #[trigger] values[k] == disk_newest(
        disk,
        path.push(PartView::Normal(names[k])),
        down,
    ) by {
        lemma_child_place(root, nodes, i, k);
        lemma_newest_is_disk(root, nodes, disk, list[k] as int, down);
    }
    assert forall|k: int, m: int|
        0 <= k < names.len() && 0 <= m < listed.len() && #[trigger] names[k]
            == #[trigger] listed[m] implies values[k] == there[m] by {
        assert(values[k] == disk_newest(disk, path.push(PartView::Normal(names[k])), down));
    }
    lemma_order_does_not_matter(names, values, listed, there, own);
}

/// A weight of one for every node.
spec fn ones(nodes: Seq<Node>) -> Seq<int> {
    nodes.map_values(|n: Node| 1int)
}

proof fn lemma_sum_of_ones(nodes: Seq<Node>, from: int)
    requires
        0 <= from <= nodes.len(),
    ensures
        sum_from(ones(nodes), from) == nodes.len() - from,
    decreases nodes.len() - from,
{
    if from < nodes.len() {
        lemma_sum_of_ones(nodes, from + 1);
    }
}

proof fn lemma_finished_matches(walk: WalkView, disk: Disk)
    requires
        walk.wf(),
        pending(walk).len() == 0,
        faithful(walk, disk),
    ensures
        all_match(walk.root_path, walk.nodes, disk),
        forall|k: int|
            0 <= k < walk.nodes.len() ==> #[trigger] size_weights(walk.nodes)[k] == disk(
                place(walk.root_path, walk.nodes, k),
            ).own_size,
        forall|k: int|
            0 <= k < walk.nodes.len() ==> #[trigger] file_weights(walk.nodes)[k] == disk(
                place(walk.root_path, walk.nodes, k),
            ).own_files,
{
    let root = walk.root_path;
    let nodes = walk.nodes;
    assert forall|k: int| 0 <= k < nodes.len() implies #[trigger] node_matches(
        root,
        nodes,
        k,
        disk,
    ) by {
        assert(!is_pending(walk, k));
    }
    assert forall|k: int| 0 <= k < nodes.len() implies #[trigger] size_weights(nodes)[k] == disk(
        place(root, nodes, k),
    ).own_size by {
        assert(node_matches(root, nodes, k, disk));
        assert(honest(nodes[k]));
    }
    assert forall|k: int| 0 <= k < nodes.len() implies #[trigger] file_weights(nodes)[k] == disk(
        place(root, nodes, k),
    ).own_files by {
        assert(node_matches(root, nodes, k, disk));
        assert(honest(nodes[k]));
    }
}

/// A finished walk counts what is on the disk: the bytes, files and directories
/// it found are those of the root and of everything below it.
pub proof fn law_walk_counts_the_disk(walk: WalkView, disk: Disk, depth: nat)
    requires
        walk.wf(),
        pending(walk).len() == 0,
        faithful(walk, disk),
        depth >= walk.nodes.len(),
    ensures
        walk.bytes == disk_total(
            disk,
            |contents: Contents| contents.own_size,
            walk.root_path,
            depth,
        ),
        walk.files == disk_total(
            disk,
            |contents: Contents| contents.own_files,
            walk.root_path,
            depth,
        ),
        walk.nodes.len() == disk_total(
            disk,
            |contents: Contents| 1int,
            walk.root_path,
            depth,
        ),
{
    let root = walk.root_path;
    let nodes = walk.nodes;
    lemma_finished_matches(walk, disk);
    assert(place(root, nodes, 0) =~= root);
    lemma_arena_topological(nodes);
    law_root_holds_everything(parent_indices(nodes), size_weights(nodes));
    law_root_holds_everything(parent_indices(nodes), file_weights(nodes));
    law_root_holds_everything(parent_indices(nodes), ones(nodes));
    lemma_sum_of_ones(nodes, 0);
    lemma_subtree_is_disk(
        root,
        nodes,
        size_weights(nodes),
        disk,
        |contents: Contents| contents.own_size,
        0,
        depth,
    );
    lemma_subtree_is_disk(
        root,
        nodes,
        file_weights(nodes),
        disk,
        |contents: Contents| contents.own_files,
        0,
        depth,
    );
    lemma_subtree_is_disk(root, nodes, ones(nodes), disk, |contents: Contents| 1int, 0, depth);
}

// ---------------------------------------------------------------------------
// Two walks
// ---------------------------------------------------------------------------

/// What a tree says about one directory.
pub struct Row {
    pub path: Seq<PartView>,
    pub own_size: u64,
    pub total_size: u64,
    pub own_files: u32,
    pub total_files: u64,
    pub newest_mtime: i64,
    pub unreadable: bool,
    pub state: NodeState,
}

/// What a tree says about a node.
pub open spec fn row(tree: Tree, i: int) -> Row {
    let node = tree.nodes@[i];
    Row {
        path: node_path(tree, i),
        own_size: node.own_size,
        total_size: node.total_size,
        own_files: node.own_files,
        total_files: node.total_files,
        newest_mtime: node.newest_mtime,
        unreadable: node.unreadable,
        state: node.state,
    }
}

/// Everything a tree says about directories, whatever their numbers.
pub open spec fn rows(tree: Tree) -> Set<Row> {
    Set::new(|r: Row| exists|i: int| 0 <= i < tree.nodes@.len() && #[trigger] row(tree, i) == r)
}

/// Whether a tree is what a walk amounts to, as
/// [`Walk::finish`](crate::walk::Walk::finish) leaves it.
pub open spec fn outcome(walk: WalkView, tree: Tree) -> bool {
    tree.root_path@ == walk.root_path && rolled_up(walk.nodes, tree.nodes@)
}

/// Every directory of one tree is a directory of the other.
proof fn lemma_same_places(
    root: Seq<PartView>,
    a: Seq<Node>,
    b: Seq<Node>,
    disk: Disk,
    i: int,
) -> (j: int)
    requires
        arena(a),
        arena(b),
        all_match(root, a, disk),
        all_match(root, b, disk),
        0 <= i < a.len(),
    ensures
        0 <= j < b.len(),
        place(root, a, i) == place(root, b, j),
    decreases i,
{
    broadcast use vstd::seq_lib::group_to_multiset_ensures;

    if i == 0 {
        assert(place(root, a, 0) =~= place(root, b, 0));
        0
    } else {
        assert(parent_first(a, i));
        assert(listed_by_parent(a, i));
        let up = a[i].parent as int;
        let q = lemma_same_places(root, a, b, disk, up);
        assert(node_matches(root, a, up, disk));
        assert(node_matches(root, b, q, disk));
        let k = choose|k: int| 0 <= k < a[up].children@.len() && a[up].children@[k] == i as u32;
        let ours = child_names(a, up);
        let theirs = child_names(b, q);
        assert(ours[k] == a[i].name@);
        assert(ours.contains(ours[k]));
        assert(theirs.to_multiset().count(ours[k]) > 0);
        assert(theirs.contains(ours[k]));
        let m = choose|m: int| 0 <= m < theirs.len() && theirs[m] == ours[k];
        lemma_child_place(root, a, up, k);
        lemma_child_place(root, b, q, m);
        b[q].children@[m] as int
    }
}

proof fn lemma_rows_included(a: WalkView, b: WalkView, s: Tree, t: Tree, disk: Disk, i: int) -> (j: int)
    requires
        a.wf(),
        b.wf(),
        a.root_path == b.root_path,
        pending(a).len() == 0,
        pending(b).len() == 0,
        faithful(a, disk),
        faithful(b, disk),
        outcome(a, s),
        outcome(b, t),
        0 <= i < s.nodes@.len(),
    ensures
        0 <= j < t.nodes@.len(),
        row(s, i) == row(t, j),
{
    let root = a.root_path;
    let x = a.nodes;
    let y = b.nodes;
    let depth = (x.len() + y.len()) as nat;
    lemma_finished_matches(a, disk);
    lemma_finished_matches(b, disk);
    let j = lemma_same_places(root, x, y, disk, i);
    assert(node_matches(root, x, i, disk));
    assert(node_matches(root, y, j, disk));
    let bytes = |contents: Contents| contents.own_size;
    let files = |contents: Contents| contents.own_files;
    lemma_subtree_is_disk(root, x, size_weights(x), disk, bytes, i, depth);
    lemma_subtree_is_disk(root, y, size_weights(y), disk, bytes, j, depth);
    lemma_subtree_is_disk(root, x, file_weights(x), disk, files, i, depth);
    lemma_subtree_is_disk(root, y, file_weights(y), disk, files, j, depth);
    lemma_newest_is_disk(root, x, disk, i, depth);
    lemma_newest_is_disk(root, y, disk, j, depth);
    lemma_rolled_up_names(x, s.nodes@, i);
    lemma_rolled_up_names(y, t.nodes@, j);
    assert(same_besides_totals(s.nodes@[i], x[i]));
    assert(same_besides_totals(t.nodes@[j], y[j]));
    assert(honest(x[i]) && honest(y[j]));
    j
}

/// The number of workers does not change the answer: two finished walks of the
/// same disk from the same root say the same about the same directories, however
/// their work was shared out and in whatever order directories were listed.
pub proof fn law_walks_agree(a: WalkView, b: WalkView, s: Tree, t: Tree, disk: Disk)
    requires
        a.wf(),
        b.wf(),
        a.root_path == b.root_path,
        pending(a).len() == 0,
        pending(b).len() == 0,
        faithful(a, disk),
        faithful(b, disk),
        outcome(a, s),
        outcome(b, t),
    ensures
        rows(s) == rows(t),
        s.nodes@.len() == t.nodes@.len(),
        row(s, 0) == row(t, 0),
        a.files == b.files,
        a.bytes == b.bytes,
{
    assert(rows(s) =~= rows(t)) by {
        assert forall|r: Row| rows(s).contains(r) == rows(t).contains(r) by {
            if rows(s).contains(r) {
                let i = choose|i: int| 0 <= i < s.nodes@.len() && #[trigger] row(s, i) == r;
                let j = lemma_rows_included(a, b, s, t, disk, i);
                assert(row(t, j) == r);
            }
            if rows(t).contains(r) {
                let i = choose|i: int| 0 <= i < t.nodes@.len() && #[trigger] row(t, i) == r;
                let j = lemma_rows_included(b, a, t, s, disk, i);
                assert(row(s, j) == r);
            }
        }
    }
    let depth = (a.nodes.len() + b.nodes.len()) as nat;
    law_walk_counts_the_disk(a, disk, depth);
    law_walk_counts_the_disk(b, disk, depth);
    let j = lemma_rows_included(a, b, s, t, disk, 0);
    lemma_rolled_up_names(b.nodes, t.nodes@, j);
    assert(node_path(s, 0) =~= s.root_path@);
    if j != 0 {
        assert(parent_first(b.nodes, j));
        assert(node_names(b.nodes, j).len() > 0);
        assert(node_path(t, j).len() > t.root_path@.len());
    }
}

// ---------------------------------------------------------------------------
// What is kept shut
// ---------------------------------------------------------------------------

/// A directory that is to be kept shut is in the tree at most as an empty node that
/// says so, and nothing below it is; a walk that starts below the directory never
/// meets it.
pub proof fn law_shut_folders_are_not_entered(
    walk: WalkView,
    folder: Seq<PartView>,
    shut: NodeState,
    i: int,
)
    requires
        walk.wf(),
        pending(walk).len() == 0,
        kept_shut(folder, walk.excluded, walk.skip) == Some(shut),
        within(walk.root_path, folder) ==> walk.root_path == folder,
        0 <= i < walk.nodes.len(),
        within(place(walk.root_path, walk.nodes, i), folder),
    ensures
        place(walk.root_path, walk.nodes, i) == folder,
        walk.nodes[i].state == shut,
        walk.nodes[i].children@.len() == 0,
        walk.nodes[i].own_size == 0,
        walk.nodes[i].own_files == 0,
    decreases i,
{
    let root = walk.root_path;
    let nodes = walk.nodes;
    let path = place(root, nodes, i);
    assert(!is_pending(walk, i));
    assert(heeds(nodes, root, walk.excluded, walk.skip, i));
    if i == 0 {
        assert(path =~= root);
    } else if path != folder {
        assert(parent_first(nodes, i));
        assert(listed_by_parent(nodes, i));
        let p = nodes[i].parent as int;
        let above = place(root, nodes, p);
        assert(path =~= above.push(PartView::Normal(nodes[i].name@)));
        if path.len() == folder.len() {
            assert(path.subrange(0, folder.len() as int) =~= path);
        }
        assert(above.subrange(0, folder.len() as int) =~= path.subrange(0, folder.len() as int));
        law_shut_folders_are_not_entered(walk, folder, shut, p);
        assert(false);
    }
}

// ---------------------------------------------------------------------------
// Staying faithful
// ---------------------------------------------------------------------------

/// A walk that has just started is faithful to every disk: nothing is published.
pub proof fn law_start_is_faithful(walk: WalkView, disk: Disk)
    requires
        walk.nodes.len() == 1,
        walk.queue.len() == 1,
        walk.queue[0].idx == 0,
    ensures
        faithful(walk, disk),
{
    assert(pending(walk)[0] == walk.queue[0]);
    assert(is_pending(walk, 0));
}

/// Claiming a directory keeps a walk faithful.
pub proof fn law_claim_keeps_faith(before: WalkView, after: WalkView, disk: Disk)
    requires
        faithful(before, disk),
        before.queue.len() > 0,
        after.nodes == before.nodes,
        after.root_path == before.root_path,
        after.queue == before.queue.drop_last(),
        after.active == before.active.push(before.queue.last()),
    ensures
        faithful(after, disk),
{
    assert forall|i: int| 0 <= i < after.nodes.len() implies is_pending(after, i)
        || #[trigger] node_matches(after.root_path, after.nodes, i, disk) by {
        lemma_claim_keeps_pending(before, after, i);
        assert(is_pending(before, i) || node_matches(
            before.root_path,
            before.nodes,
            i,
            disk,
        ));
    }
}

/// Publishing what the disk has at a directory keeps a walk faithful.
pub proof fn law_publish_keeps_faith(
    before: WalkView,
    after: WalkView,
    idx: u32,
    listing: Listing,
    disk: Disk,
)
    requires
        before.wf(),
        after.wf(),
        faithful(before, disk),
        being_read(before, idx),
        listing_matches(
            listing,
            disk(place(before.root_path, before.nodes, idx as int)),
        ),
        after.root_path == before.root_path,
        grown(before.nodes, after.nodes, idx as int, listing),
        forall|other: u32|
            other != idx ==> being_read(after, other) == being_read(before, other),
        after.queue.len() == before.queue.len() + listing.subdirs@.len(),
        forall|k: int|
            0 <= k < before.queue.len() ==> #[trigger] after.queue[k] == before.queue[k],
        forall|k: int|
            before.queue.len() <= k < after.queue.len() ==> child_task(
                #[trigger] after.queue[k],
                before.nodes.len() + k - before.queue.len(),
                place(before.root_path, before.nodes, idx as int),
                listing.subdirs@[k - before.queue.len()]@,
            ),
    ensures
        faithful(after, disk),
{
    let base = before.nodes;
    let now = after.nodes;
    let root = before.root_path;
    let at = choose|k: int|
        0 <= k < before.active.len() && (#[trigger] before.active[k]).idx == idx;
    assert(pending(before)[before.queue.len() + at] == before.active[at]);
    assert(task_fits(before.active[at], base, root));
    assert forall|i: int| 0 <= i < now.len() implies is_pending(after, i)
        || #[trigger] node_matches(after.root_path, now, i, disk) by {
        if i >= base.len() {
            let k = before.queue.len() + i - base.len();
            assert(child_task(
                after.queue[k],
                i,
                place(root, base, idx as int),
                listing.subdirs@[k - before.queue.len()]@,
            ));
            assert(pending(after)[k] == after.queue[k]);
        } else if i == idx {
            lemma_names_kept(base, now, idx as int, listing, i);
            assert(child_names(now, i) =~= texts(listing.subdirs@)) by {
                assert forall|k: int| 0 <= k < listing.subdirs@.len() implies child_names(
                    now,
                    i,
                )[k] == texts(listing.subdirs@)[k] by {
                    let c = base.len() + k;
                    assert(now[idx as int].children@[k] == c as u32);
                    assert(now[c].name@ == listing.subdirs@[c - base.len()]@);
                }
            }
            assert(node_matches(root, now, i, disk));
        } else if is_pending(before, i) {
            let k = choose|k: int|
                0 <= k < pending(before).len() && (#[trigger] pending(before)[k]).idx == i;
            if k < before.queue.len() {
                assert(after.queue[k] == before.queue[k]);
                assert(pending(after)[k] == pending(before)[k]);
            } else {
                assert(before.active[k - before.queue.len()].idx == i as u32);
                assert(being_read(before, i as u32));
                assert(being_read(after, i as u32));
                let m = choose|m: int|
                    0 <= m < after.active.len() && (#[trigger] after.active[m]).idx == i as u32;
                assert(pending(after)[after.queue.len() + m] == after.active[m]);
            }
        } else {
            assert(node_matches(root, base, i, disk));
            assert(now[i] == base[i]);
            lemma_names_kept(base, now, idx as int, listing, i);
            assert(child_names(now, i) =~= child_names(base, i)) by {
                assert forall|k: int| 0 <= k < base[i].children@.len() implies child_names(
                    now,
                    i,
                )[k] == child_names(base, i)[k] by {
                    assert(child_agrees(base, i, k));
                    let c = base[i].children@[k] as int;
                    assert(c != idx ==> now[c] == base[c]);
                }
            }
            assert(node_matches(root, now, i, disk));
        }
    }
}

// ---------------------------------------------------------------------------
// From the entries of directories to the tree
// ---------------------------------------------------------------------------

/// What the disk lists at each path: the entries of a directory, or nothing where it
/// cannot be read.
pub type Shelves = spec_fn(Seq<PartView>) -> Option<Seq<DirEntry>>;

/// What there is to publish for a directory that was not read.
pub open spec fn sealed_contents(state: NodeState) -> Contents {
    Contents { own_size: 0, own_files: 0, newest: 0, subdirs: Seq::empty(), state }
}

/// What a walk has to publish for a path, given what the disk lists there.
pub open spec fn contents_at(walk: WalkView, shelves: Shelves, path: Seq<PartView>) -> Contents {
    match kept_shut(path, walk.excluded, walk.skip) {
        Some(state) => sealed_contents(state),
        None => match shelves(path) {
            Some(entries) => Contents {
                own_size: file_bytes(entries),
                own_files: file_count(entries) as int,
                newest: newest_entry(entries),
                subdirs: subdir_names(entries, walk.root_volume),
                state: NodeState::Readable,
            },
            None => sealed_contents(NodeState::Unreadable),
        },
    }
}

/// The disk as a walk is to publish it, given what directories list.
pub open spec fn disk_of(walk: WalkView, shelves: Shelves) -> Disk {
    |path: Seq<PartView>| contents_at(walk, shelves, path)
}

/// A listing made from the entries of a directory is what the disk has there, and so
/// is an empty one for a directory that is kept shut or cannot be read.
pub proof fn law_listings_are_of_the_disk(
    walk: WalkView,
    shelves: Shelves,
    path: Seq<PartView>,
    listing: Listing,
)
    ensures
        (kept_shut(path, walk.excluded, walk.skip) is None && shelves(path) is Some
            && listing.own_size == file_bytes(shelves(path)->0) && listing.own_files == file_count(
            shelves(path)->0,
        ) && listing.newest == newest_entry(shelves(path)->0) && texts(listing.subdirs@)
            == subdir_names(shelves(path)->0, walk.root_volume) && listing.state is Readable)
            ==> listing_matches(listing, disk_of(walk, shelves)(path)),
        (kept_shut(path, walk.excluded, walk.skip) matches Some(state) && nothing_listed(
            listing,
            state,
        )) ==> listing_matches(listing, disk_of(walk, shelves)(path)),
        (kept_shut(path, walk.excluded, walk.skip) is None && shelves(path) is None
            && nothing_listed(listing, NodeState::Unreadable)) ==> listing_matches(
            listing,
            disk_of(walk, shelves)(path),
        ),
{
    if listing.subdirs@.len() == 0 {
        assert(texts(listing.subdirs@) =~= Seq::<Seq<char>>::empty());
    }
}

/// Whether the walk of a volume goes into an entry, by what its metadata says.
pub open spec fn to_be_entered(entry: DirEntry, volume: Volume) -> bool {
    &&& entry.is_dir
    &&& !entry.is_symlink
    &&& match entry.meta {
        RawMeta::Unix { blocks, mtime, dev } => volume == Volume::Device(dev),
        RawMeta::Windows { attributes, file_size, last_write_time } => attributes & 0x400u32 == 0,
    }
}

proof fn lemma_named_among(entries: Seq<DirEntry>, volume: Volume, name: Seq<char>)
    ensures
        subdir_names(entries, volume).contains(name) <==> exists|k: int|
            0 <= k < entries.len() && to_be_entered(#[trigger] entries[k], volume)
                && entries[k].name@ == name,
    decreases entries.len(),
{
    let all = subdir_names(entries, volume);
    if entries.len() > 0 {
        let front = entries.drop_last();
        let last = entries.last();
        let before = subdir_names(front, volume);
        lemma_named_among(front, volume, name);
        law_every_directory_is_walked(front, last, volume);
        assert(front.push(last) =~= entries);
        if all.contains(name) {
            let p = choose|p: int| 0 <= p < all.len() && all[p] == name;
            if p < before.len() {
                assert(before[p] == name);
                let k = choose|k: int|
                    0 <= k < front.len() && to_be_entered(#[trigger] front[k], volume)
                        && front[k].name@ == name;
                assert(entries[k] == front[k]);
            } else {
                assert(to_be_entered(entries[entries.len() - 1], volume));
            }
        }
        if exists|k: int|
            0 <= k < entries.len() && to_be_entered(#[trigger] entries[k], volume)
                && entries[k].name@ == name {
            let k = choose|k: int|
                0 <= k < entries.len() && to_be_entered(#[trigger] entries[k], volume)
                    && entries[k].name@ == name;
            if k < front.len() {
                assert(front[k] == entries[k]);
                let p = choose|p: int| 0 <= p < before.len() && before[p] == name;
                assert(all[p] == name);
            } else {
                assert(all[before.len() as int] == name);
            }
        }
    }
}

/// The tree has a directory in another exactly if the disk lists it there as a
/// directory of its own on the volume of the walk: whatever it is called, a walk that
/// may open the outer one finds it, and it finds nothing else.
pub proof fn law_walks_enter_every_directory(
    walk: WalkView,
    shelves: Shelves,
    i: int,
    entries: Seq<DirEntry>,
    name: Seq<char>,
)
    requires
        walk.wf(),
        pending(walk).len() == 0,
        faithful(walk, disk_of(walk, shelves)),
        0 <= i < walk.nodes.len(),
        kept_shut(place(walk.root_path, walk.nodes, i), walk.excluded, walk.skip) is None,
        shelves(place(walk.root_path, walk.nodes, i)) == Some(entries),
    ensures
        (exists|k: int|
            0 <= k < entries.len() && to_be_entered(#[trigger] entries[k], walk.root_volume)
                && entries[k].name@ == name) <==> (exists|j: int|
            0 < j < walk.nodes.len() && (#[trigger] walk.nodes[j]).parent == i
                && walk.nodes[j].name@ == name),
        walk.nodes[i].own_size == file_bytes(entries),
        walk.nodes[i].own_files == file_count(entries),
        walk.nodes[i].newest_mtime == newest_entry(entries),
        walk.nodes[i].state is Readable,
{
    broadcast use vstd::seq_lib::group_to_multiset_ensures;

    let disk = disk_of(walk, shelves);
    let nodes = walk.nodes;
    lemma_finished_matches(walk, disk);
    assert(node_matches(walk.root_path, nodes, i, disk));
    lemma_named_among(entries, walk.root_volume, name);
    let ours = child_names(nodes, i);
    let theirs = subdir_names(entries, walk.root_volume);
    assert(ours.to_multiset() == theirs.to_multiset());
    if theirs.contains(name) {
        assert(theirs.to_multiset().count(name) > 0);
        assert(ours.contains(name));
        let k = choose|k: int| 0 <= k < ours.len() && ours[k] == name;
        assert(child_agrees(nodes, i, k));
        let j = nodes[i].children@[k] as int;
        assert(nodes[j].parent == i && nodes[j].name@ == name);
    }
    if exists|j: int|
        0 < j < nodes.len() && (#[trigger] nodes[j]).parent == i && nodes[j].name@ == name {
        let j = choose|j: int|
            0 < j < nodes.len() && (#[trigger] nodes[j]).parent == i && nodes[j].name@ == name;
        assert(listed_by_parent(nodes, j));
        let k = choose|k: int|
            0 <= k < nodes[i].children@.len() && nodes[i].children@[k] == j as u32;
        assert(ours[k] == name);
        assert(ours.to_multiset().count(name) > 0);
        assert(theirs.contains(name));
    }
}

} // verus!
