//! The order of texts and paths, and a stable sort.
//!
//! Texts are ordered character by character, paths component by component, and
//! in both a proper beginning comes first. That is what puts a directory directly
//! in front of everything inside it.
use vstd::prelude::*;

use crate::path::{part_text, FsPath, Part, PartView};
use crate::text::chars_of;

verus! {

// ---------------------------------------------------------------------------
// Texts
// ---------------------------------------------------------------------------

/// Whether `a` comes before `b` or is `b`.
pub open spec fn text_le(a: Seq<char>, b: Seq<char>) -> bool
    decreases a.len(),
{
    if a.len() == 0 {
        true
    } else if b.len() == 0 {
        false
    } else if a[0] == b[0] {
        text_le(a.drop_first(), b.drop_first())
    } else {
        a[0] < b[0]
    }
}

proof fn lemma_text_reflexive(a: Seq<char>)
    ensures
        text_le(a, a),
    decreases a.len(),
{
    if a.len() > 0 {
        lemma_text_reflexive(a.drop_first());
    }
}

pub proof fn lemma_text_total(a: Seq<char>, b: Seq<char>)
    ensures
        text_le(a, b) || text_le(b, a),
    decreases a.len(),
{
    if a.len() > 0 && b.len() > 0 && a[0] == b[0] {
        lemma_text_total(a.drop_first(), b.drop_first());
    }
}

proof fn lemma_text_antisymmetric(a: Seq<char>, b: Seq<char>)
    requires
        text_le(a, b),
        text_le(b, a),
    ensures
        a == b,
    decreases a.len(),
{
    if a.len() > 0 && b.len() > 0 {
        lemma_text_antisymmetric(a.drop_first(), b.drop_first());
        assert(a =~= seq![a[0]] + a.drop_first());
        assert(b =~= seq![b[0]] + b.drop_first());
    }
    assert(a =~= b);
}

pub proof fn lemma_text_transitive(a: Seq<char>, b: Seq<char>, c: Seq<char>)
    requires
        text_le(a, b),
        text_le(b, c),
    ensures
        text_le(a, c),
    decreases a.len(),
{
    if a.len() > 0 && a[0] == b[0] && b[0] == c[0] {
        lemma_text_transitive(a.drop_first(), b.drop_first(), c.drop_first());
    }
}

/// Whether `a` comes before `b` or is `b`.
pub fn text_before(a: &str, b: &str) -> (r: bool)
    ensures
        r == text_le(a@, b@),
{
    let x = chars_of(a);
    let y = chars_of(b);
    let mut i: usize = 0;
    assert(x@.subrange(0, x@.len() as int) == x@);
    assert(y@.subrange(0, y@.len() as int) == y@);
    while i < x.len() && i < y.len() && x[i] == y[i]
        invariant
            i <= x.len(),
            i <= y.len(),
            x@ == a@,
            y@ == b@,
            text_le(a@, b@) == text_le(
                x@.subrange(i as int, x@.len() as int),
                y@.subrange(i as int, y@.len() as int),
            ),
        ensures
            i <= x.len(),
            i <= y.len(),
            i < x.len() && i < y.len() ==> x@[i as int] != y@[i as int],
            text_le(a@, b@) == text_le(
                x@.subrange(i as int, x@.len() as int),
                y@.subrange(i as int, y@.len() as int),
            ),
        decreases x.len() - i,
    {
        assert(x@.subrange(i as int, x@.len() as int).drop_first() == x@.subrange(
            i + 1,
            x@.len() as int,
        ));
        assert(y@.subrange(i as int, y@.len() as int).drop_first() == y@.subrange(
            i + 1,
            y@.len() as int,
        ));
        i += 1;
    }
    if i == x.len() {
        true
    } else if i == y.len() {
        false
    } else {
        x[i] < y[i]
    }
}

// ---------------------------------------------------------------------------
// Paths
// ---------------------------------------------------------------------------

/// Where a kind of component stands among the others.
pub open spec fn part_rank(part: PartView) -> int {
    match part {
        PartView::Prefix(_) => 0,
        PartView::Root => 1,
        PartView::Current => 2,
        PartView::Parent => 3,
        PartView::Normal(_) => 4,
    }
}

/// Whether one component comes before another, or is it: by kind, then by name.
pub open spec fn part_le(a: PartView, b: PartView) -> bool {
    part_rank(a) < part_rank(b) || (part_rank(a) == part_rank(b) && text_le(
        part_text(a),
        part_text(b),
    ))
}

proof fn lemma_part_order(a: PartView, b: PartView)
    ensures
        part_le(a, a),
        part_le(a, b) || part_le(b, a),
        part_le(a, b) && part_le(b, a) ==> a == b,
{
    lemma_text_reflexive(part_text(a));
    lemma_text_total(part_text(a), part_text(b));
    if part_le(a, b) && part_le(b, a) {
        lemma_text_antisymmetric(part_text(a), part_text(b));
    }
}

proof fn lemma_part_transitive(a: PartView, b: PartView, c: PartView)
    requires
        part_le(a, b),
        part_le(b, c),
    ensures
        part_le(a, c),
{
    if part_rank(a) == part_rank(b) && part_rank(b) == part_rank(c) {
        lemma_text_transitive(part_text(a), part_text(b), part_text(c));
    }
}

/// Whether one path comes before another, or is it: component by component, a
/// directory in front of what is inside it.
pub open spec fn path_le(a: Seq<PartView>, b: Seq<PartView>) -> bool
    decreases a.len(),
{
    if a.len() == 0 {
        true
    } else if b.len() == 0 {
        false
    } else if a[0] == b[0] {
        path_le(a.drop_first(), b.drop_first())
    } else {
        part_le(a[0], b[0])
    }
}

pub proof fn lemma_path_total(a: Seq<PartView>, b: Seq<PartView>)
    ensures
        path_le(a, b) || path_le(b, a),
    decreases a.len(),
{
    if a.len() > 0 && b.len() > 0 {
        if a[0] == b[0] {
            lemma_path_total(a.drop_first(), b.drop_first());
        } else {
            lemma_part_order(a[0], b[0]);
        }
    }
}

pub proof fn lemma_path_antisymmetric(a: Seq<PartView>, b: Seq<PartView>)
    requires
        path_le(a, b),
        path_le(b, a),
    ensures
        a == b,
    decreases a.len(),
{
    if a.len() > 0 && b.len() > 0 {
        lemma_part_order(a[0], b[0]);
        lemma_path_antisymmetric(a.drop_first(), b.drop_first());
        assert(a =~= seq![a[0]] + a.drop_first());
        assert(b =~= seq![b[0]] + b.drop_first());
    }
    assert(a =~= b);
}

pub proof fn lemma_path_transitive(a: Seq<PartView>, b: Seq<PartView>, c: Seq<PartView>)
    requires
        path_le(a, b),
        path_le(b, c),
    ensures
        path_le(a, c),
    decreases a.len(),
{
    if a.len() > 0 {
        if a[0] == b[0] && b[0] == c[0] {
            lemma_path_transitive(a.drop_first(), b.drop_first(), c.drop_first());
        } else if a[0] != b[0] && b[0] != c[0] {
            lemma_part_transitive(a[0], b[0], c[0]);
            if a[0] == c[0] {
                lemma_part_order(a[0], b[0]);
            }
        }
    }
}

/// A directory comes before everything inside it.
pub proof fn lemma_prefix_first(a: Seq<PartView>, b: Seq<PartView>)
    requires
        a.is_prefix_of(b),
    ensures
        path_le(a, b),
    decreases a.len(),
{
    if a.len() > 0 {
        assert(b.subrange(0, a.len() as int)[0] == b[0]);
        assert(a.drop_first() =~= b.drop_first().subrange(0, a.len() - 1)) by {
            assert forall|i: int| 0 <= i < a.len() - 1 implies a.drop_first()[i]
                == b.drop_first().subrange(0, a.len() - 1)[i] by {
                assert(a[i + 1] == b.subrange(0, a.len() as int)[i + 1]);
            }
        }
        lemma_prefix_first(a.drop_first(), b.drop_first());
    }
}

/// Whatever stands between a directory and something inside it is itself inside
/// that directory.
pub proof fn lemma_inside_between(dir: Seq<PartView>, mid: Seq<PartView>, inner: Seq<PartView>)
    requires
        dir.is_prefix_of(inner),
        path_le(dir, mid),
        path_le(mid, inner),
    ensures
        dir.is_prefix_of(mid),
    decreases dir.len(),
{
    if dir.len() == 0 {
        assert(dir =~= mid.subrange(0, 0));
    } else {
        assert(inner.subrange(0, dir.len() as int)[0] == inner[0]);
        assert(dir[0] == inner[0]);
        lemma_part_order(dir[0], mid[0]);
        assert(mid[0] == dir[0]);
        assert(dir.drop_first() =~= inner.drop_first().subrange(0, dir.len() - 1)) by {
            assert forall|i: int| 0 <= i < dir.len() - 1 implies dir.drop_first()[i]
                == inner.drop_first().subrange(0, dir.len() - 1)[i] by {
                assert(dir[i + 1] == inner.subrange(0, dir.len() as int)[i + 1]);
            }
        }
        lemma_inside_between(dir.drop_first(), mid.drop_first(), inner.drop_first());
        assert(dir =~= mid.subrange(0, dir.len() as int)) by {
            assert forall|i: int| 0 <= i < dir.len() implies dir[i] == mid.subrange(
                0,
                dir.len() as int,
            )[i] by {
                if i > 0 {
                    assert(dir.drop_first()[i - 1] == mid.drop_first().subrange(
                        0,
                        dir.len() - 1,
                    )[i - 1]);
                }
            }
        }
    }
}

/// Where a kind of component stands among the others.
fn rank_of(part: &Part) -> (r: u8)
    ensures
        r == part_rank(part@),
{
    match part {
        Part::Prefix(_) => 0,
        Part::Root => 1,
        Part::Current => 2,
        Part::Parent => 3,
        Part::Normal(_) => 4,
    }
}

/// Whether one path comes before another, or is it.
pub fn path_before(a: &FsPath, b: &FsPath) -> (r: bool)
    ensures
        r == path_le(a@, b@),
{
    let mut i: usize = 0;
    assert(a@.subrange(0, a@.len() as int) == a@);
    assert(b@.subrange(0, b@.len() as int) == b@);
    while i < a.parts.len() && i < b.parts.len() && a.parts[i].same(&b.parts[i])
        invariant
            i <= a.parts.len(),
            i <= b.parts.len(),
            path_le(a@, b@) == path_le(
                a@.subrange(i as int, a@.len() as int),
                b@.subrange(i as int, b@.len() as int),
            ),
        ensures
            i <= a.parts.len(),
            i <= b.parts.len(),
            i < a.parts.len() && i < b.parts.len() ==> a.parts@[i as int]@ != b.parts@[i as int]@,
            path_le(a@, b@) == path_le(
                a@.subrange(i as int, a@.len() as int),
                b@.subrange(i as int, b@.len() as int),
            ),
        decreases a.parts.len() - i,
    {
        assert(a@.subrange(i as int, a@.len() as int).drop_first() == a@.subrange(
            i + 1,
            a@.len() as int,
        ));
        assert(b@.subrange(i as int, b@.len() as int).drop_first() == b@.subrange(
            i + 1,
            b@.len() as int,
        ));
        assert(a@[i as int] == a.parts@[i as int]@);
        assert(b@[i as int] == b.parts@[i as int]@);
        i += 1;
    }
    if i == a.parts.len() {
        true
    } else if i == b.parts.len() {
        false
    } else {
        assert(a@[i as int] == a.parts@[i as int]@);
        assert(b@[i as int] == b.parts@[i as int]@);
        let x: u8 = rank_of(&a.parts[i]);
        let y: u8 = rank_of(&b.parts[i]);
        x < y || (x == y && text_before(a.parts[i].text().as_str(), b.parts[i].text().as_str()))
    }
}

// ---------------------------------------------------------------------------
// Sorting
// ---------------------------------------------------------------------------

/// Things that have a place in an order. Different things may share a place.
pub trait Ranked: Sized {
    /// Whether `self` stands no later than `other`.
    spec fn ranks_le(&self, other: &Self) -> bool;

    proof fn ranks_total(&self, other: &Self)
        ensures
            self.ranks_le(other) || other.ranks_le(self),
    ;

    proof fn ranks_transitive(&self, mid: &Self, other: &Self)
        requires
            self.ranks_le(mid),
            mid.ranks_le(other),
        ensures
            self.ranks_le(other),
    ;

    /// Whether `self` stands no later than `other`.
    fn no_later(&self, other: &Self) -> (r: bool)
        ensures
            r == self.ranks_le(other),
    ;
}

/// Whether item `i` is sorted in front of item `j`: by place, and between two
/// that share one, by which came first.
pub open spec fn sorts_before<T: Ranked>(items: Seq<T>, i: int, j: int) -> bool {
    items[i].ranks_le(&items[j]) && (items[j].ranks_le(&items[i]) ==> i < j)
}

/// Whether `order` holds every index of `items` exactly once, sorted.
pub open spec fn stable_order<T: Ranked>(items: Seq<T>, order: Seq<usize>) -> bool {
    &&& order.len() == items.len()
    &&& forall|p: int| 0 <= p < order.len() ==> (#[trigger] order[p]) < items.len()
    &&& forall|i: usize| i < items.len() ==> #[trigger] order.contains(i)
    &&& forall|p: int, q: int|
        0 <= p < q < order.len() ==> #[trigger] sorts_before(
            items,
            order[p] as int,
            order[q] as int,
        )
}

/// The indices of `items` in the order of a stable sort.
pub fn stable_sort<T: Ranked>(items: &Vec<T>) -> (order: Vec<usize>)
    ensures
        stable_order(items@, order@),
{
    let mut order: Vec<usize> = Vec::new();
    let mut n: usize = 0;
    while n < items.len()
        invariant
            n <= items.len(),
            order@.len() == n,
            forall|p: int| 0 <= p < order@.len() ==> (#[trigger] order@[p]) < n,
            forall|i: usize| i < n ==> #[trigger] order@.contains(i),
            forall|p: int, q: int|
                0 <= p < q < order@.len() ==> #[trigger] sorts_before(
                    items@,
                    order@[p] as int,
                    order@[q] as int,
                ),
        decreases items.len() - n,
    {
        // the first place whose item ranks after item `n`
        let mut lo: usize = 0;
        let mut hi: usize = n;
        while lo < hi
            invariant
                lo <= hi <= n < items.len(),
                order@.len() == n,
                forall|p: int| 0 <= p < order@.len() ==> (#[trigger] order@[p]) < n,
                forall|p: int, q: int|
                    0 <= p < q < order@.len() ==> #[trigger] sorts_before(
                        items@,
                        order@[p] as int,
                        order@[q] as int,
                    ),
                forall|p: int|
                    0 <= p < lo ==> items@[#[trigger] order@[p] as int].ranks_le(
                        &items@[n as int],
                    ),
                forall|p: int|
                    hi <= p < n ==> !items@[#[trigger] order@[p] as int].ranks_le(
                        &items@[n as int],
                    ),
            decreases hi - lo,
        {
            let mid: usize = lo + (hi - lo) / 2;
            if items[order[mid]].no_later(&items[n]) {
                assert forall|p: int| 0 <= p < mid + 1 implies items@[#[trigger] order@[p] as int].ranks_le(
                    &items@[n as int],
                ) by {
                    if p < mid {
                        assert(sorts_before(items@, order@[p] as int, order@[mid as int] as int));
                        items@[order@[p] as int].ranks_transitive(
                            &items@[order@[mid as int] as int],
                            &items@[n as int],
                        );
                    }
                }
                lo = mid + 1;
            } else {
                assert forall|p: int| mid <= p < n implies !items@[#[trigger] order@[p] as int].ranks_le(
                    &items@[n as int],
                ) by {
                    if p > mid && items@[order@[p] as int].ranks_le(&items@[n as int]) {
                        assert(sorts_before(items@, order@[mid as int] as int, order@[p] as int));
                        items@[order@[mid as int] as int].ranks_transitive(
                            &items@[order@[p] as int],
                            &items@[n as int],
                        );
                    }
                }
                hi = mid;
            }
        }
        let ghost before = order@;
        order.insert(lo, n);
        proof {
            assert(order@ == before.insert(lo as int, n));
            assert forall|i: usize| i < n + 1 implies #[trigger] order@.contains(i) by {
                if i < n {
                    assert(before.contains(i));
                    let p = choose|p: int| 0 <= p < before.len() && before[p] == i;
                    let at = if p < lo {
                        p
                    } else {
                        p + 1
                    };
                    assert(order@[at] == i);
                } else {
                    assert(order@[lo as int] == n);
                }
            }
            assert forall|p: int, q: int| 0 <= p < q < order@.len() implies #[trigger] sorts_before(
                items@,
                order@[p] as int,
                order@[q] as int,
            ) by {
                let p0 = if p < lo {
                    p
                } else {
                    p - 1
                };
                let q0 = if q < lo {
                    q
                } else {
                    q - 1
                };
                if p == lo {
                    assert(order@[q] == before[q0]);
                    items@[n as int].ranks_total(&items@[before[q0] as int]);
                } else if q == lo {
                    assert(order@[p] == before[p0]);
                    assert(items@[before[p0] as int].ranks_le(&items@[n as int]));
                } else {
                    assert(order@[p] == before[p0] && order@[q] == before[q0]);
                    assert(sorts_before(items@, before[p0] as int, before[q0] as int));
                }
            }
        }
        n += 1;
    }
    order
}

// ---------------------------------------------------------------------------
// What the orders promise
// ---------------------------------------------------------------------------

/// Texts are ordered by the first character in which they differ; a beginning comes
/// first.
pub proof fn law_texts_are_ordered_by_their_first_difference(
    common: Seq<char>,
    a: char,
    b: char,
    x: Seq<char>,
    y: Seq<char>,
)
    requires
        (a as int) < b as int,
    ensures
        text_le(common + seq![a] + x, common + seq![b] + y),
        !text_le(common + seq![b] + y, common + seq![a] + x),
        text_le(common, common + x),
        x.len() > 0 ==> !text_le(common + x, common),
    decreases common.len(),
{
    let one = common + seq![a] + x;
    let two = common + seq![b] + y;
    let longer = common + x;
    if common.len() == 0 {
        assert(one[0] == a && two[0] == b);
    } else {
        let rest = common.drop_first();
        law_texts_are_ordered_by_their_first_difference(rest, a, b, x, y);
        assert(one[0] == common[0] && two[0] == common[0] && longer[0] == common[0]);
        assert(one.drop_first() =~= rest + seq![a] + x);
        assert(two.drop_first() =~= rest + seq![b] + y);
        assert(longer.drop_first() =~= rest + x);
    }
}

/// Components are ordered by what they are, a drive before a root before `.` before
/// `..` before a name, and names as texts.
pub proof fn law_components_are_ordered(one: Seq<char>, other: Seq<char>)
    ensures
        part_le(PartView::Prefix(one), PartView::Root) && !part_le(
            PartView::Root,
            PartView::Prefix(one),
        ),
        part_le(PartView::Root, PartView::Current) && !part_le(PartView::Current, PartView::Root),
        part_le(PartView::Current, PartView::Parent) && !part_le(
            PartView::Parent,
            PartView::Current,
        ),
        part_le(PartView::Parent, PartView::Normal(one)) && !part_le(
            PartView::Normal(one),
            PartView::Parent,
        ),
        part_le(PartView::Normal(one), PartView::Normal(other)) == text_le(one, other),
        part_le(PartView::Prefix(one), PartView::Prefix(other)) == text_le(one, other),
{
}

/// Paths are ordered by the first component in which they differ.
pub proof fn law_paths_are_ordered_by_their_first_difference(
    common: Seq<PartView>,
    a: PartView,
    b: PartView,
    x: Seq<PartView>,
    y: Seq<PartView>,
)
    requires
        a != b,
    ensures
        path_le(common + seq![a] + x, common + seq![b] + y) == part_le(a, b),
        path_le(common, common + x),
        x.len() > 0 ==> !path_le(common + x, common),
    decreases common.len(),
{
    let one = common + seq![a] + x;
    let two = common + seq![b] + y;
    let longer = common + x;
    if common.len() == 0 {
        assert(one[0] == a && two[0] == b);
    } else {
        let rest = common.drop_first();
        law_paths_are_ordered_by_their_first_difference(rest, a, b, x, y);
        assert(one[0] == common[0] && two[0] == common[0] && longer[0] == common[0]);
        assert(one.drop_first() =~= rest + seq![a] + x);
        assert(two.drop_first() =~= rest + seq![b] + y);
        assert(longer.drop_first() =~= rest + x);
    }
}

/// Sorting keeps every item, each once, puts none behind one that stands later, and
/// leaves those that share a place as they were.
pub proof fn law_sorting_is_stable<T: Ranked>(items: Seq<T>, order: Seq<usize>, p: int, q: int)
    requires
        stable_order(items, order),
        0 <= p < q < order.len(),
    ensures
        order[p] < items.len() && order[q] < items.len(),
        order[p] != order[q],
        items[order[p] as int].ranks_le(&items[order[q] as int]),
        items[order[q] as int].ranks_le(&items[order[p] as int]) ==> order[p] < order[q],
        order.len() == items.len(),
{
    assert(sorts_before(items, order[p] as int, order[q] as int));
    if order[p] == order[q] {
        items[order[p] as int].ranks_total(&items[order[p] as int]);
    }
}

} // verus!
