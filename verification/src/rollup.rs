//! Sums and maxima over the subtrees of an arena.
//!
//! An arena is given by the parent of each index, with -1 for an index that has
//! none. A parent always stands in front of its children, so index order is a
//! topological order.
use vstd::prelude::*;

verus! {

/// Whether every parent stands in front of its children.
pub open spec fn topological(parents: Seq<int>) -> bool {
    forall|i: int| 0 <= i < parents.len() ==> -1 <= #[trigger] parents[i] < i
}

/// The weights of an index and of everything below it, added up.
pub open spec fn subtree_sum(parents: Seq<int>, weights: Seq<int>, i: int) -> int
    decreases parents.len() - i, 0int,
{
    if 0 <= i < parents.len() {
        weights[i] + child_sums(parents, weights, i, i + 1)
    } else {
        0
    }
}

/// The subtree sums of the children of `i`, from index `from` on, added up.
pub open spec fn child_sums(parents: Seq<int>, weights: Seq<int>, i: int, from: int) -> int
    decreases parents.len() - from, 1int,
{
    if 0 <= from < parents.len() {
        (if parents[from] == i {
            subtree_sum(parents, weights, from)
        } else {
            0
        }) + child_sums(parents, weights, i, from + 1)
    } else {
        0
    }
}

/// The weights from index `from` on, added up.
pub open spec fn sum_from(weights: Seq<int>, from: int) -> int
    decreases weights.len() - from,
{
    if 0 <= from < weights.len() {
        weights[from] + sum_from(weights, from + 1)
    } else {
        0
    }
}

/// The larger of two numbers.
pub open spec fn larger(a: int, b: int) -> int {
    if a >= b {
        a
    } else {
        b
    }
}

/// The largest value among an index and everything below it.
pub open spec fn subtree_max(parents: Seq<int>, values: Seq<int>, i: int) -> int
    decreases parents.len() - i, 0int,
{
    if 0 <= i < parents.len() {
        child_max(parents, values, i, i + 1, values[i])
    } else {
        0
    }
}

/// The largest of `least` and the subtree maxima of the children of `i`, from
/// index `from` on.
pub open spec fn child_max(parents: Seq<int>, values: Seq<int>, i: int, from: int, least: int) -> int
    decreases parents.len() - from, 1int,
{
    if 0 <= from < parents.len() {
        let rest = child_max(parents, values, i, from + 1, least);
        if parents[from] == i {
            larger(rest, subtree_max(parents, values, from))
        } else {
            rest
        }
    } else {
        least
    }
}

/// The subtree sums, from index `from` on, of what hangs above `level`.
spec fn crossing(parents: Seq<int>, weights: Seq<int>, level: int, from: int) -> int
    decreases parents.len() - from,
{
    if 0 <= from < parents.len() {
        (if parents[from] < level {
            subtree_sum(parents, weights, from)
        } else {
            0
        }) + crossing(parents, weights, level, from + 1)
    } else {
        0
    }
}

proof fn lemma_crossing_splits(parents: Seq<int>, weights: Seq<int>, level: int, from: int)
    requires
        0 <= from,
    ensures
        crossing(parents, weights, level + 1, from) == crossing(parents, weights, level, from)
            + child_sums(parents, weights, level, from),
    decreases parents.len() - from,
{
    if from < parents.len() {
        lemma_crossing_splits(parents, weights, level, from + 1);
    }
}

/// What hangs above an index, from that index on, weighs what all of it weighs.
proof fn lemma_crossing_is_all(parents: Seq<int>, weights: Seq<int>, k: int)
    requires
        topological(parents),
        weights.len() == parents.len(),
        0 <= k <= parents.len(),
    ensures
        crossing(parents, weights, k, k) == sum_from(weights, k),
    decreases parents.len() - k,
{
    if k < parents.len() {
        lemma_crossing_is_all(parents, weights, k + 1);
        lemma_crossing_splits(parents, weights, k, k + 1);
        assert(parents[k] < k);
    }
}

proof fn lemma_sums_nonnegative(parents: Seq<int>, weights: Seq<int>, k: int)
    requires
        weights.len() == parents.len(),
        forall|i: int| 0 <= i < weights.len() ==> 0 <= #[trigger] weights[i],
        0 <= k,
    ensures
        forall|c: int| k <= c ==> 0 <= #[trigger] subtree_sum(parents, weights, c),
        forall|i: int, c: int| k <= c ==> 0 <= #[trigger] child_sums(parents, weights, i, c),
    decreases parents.len() - k,
{
    if k < parents.len() {
        lemma_sums_nonnegative(parents, weights, k + 1);
        assert forall|c: int| k <= c implies 0 <= #[trigger] subtree_sum(parents, weights, c) by {
            if c == k {
                assert(0 <= child_sums(parents, weights, k, k + 1));
            }
        }
        assert forall|i: int, c: int| k <= c implies 0 <= #[trigger] child_sums(
            parents,
            weights,
            i,
            c,
        ) by {
            if c == k {
                assert(0 <= child_sums(parents, weights, i, k + 1));
                assert(0 <= subtree_sum(parents, weights, k));
            }
        }
    } else {
        assert forall|c: int| k <= c implies 0 <= #[trigger] subtree_sum(parents, weights, c) by {}
        assert forall|i: int, c: int| k <= c implies 0 <= #[trigger] child_sums(
            parents,
            weights,
            i,
            c,
        ) by {}
    }
}

proof fn lemma_crossing_nonnegative(parents: Seq<int>, weights: Seq<int>, level: int, from: int)
    requires
        weights.len() == parents.len(),
        forall|i: int| 0 <= i < weights.len() ==> 0 <= #[trigger] weights[i],
        0 <= from,
    ensures
        0 <= crossing(parents, weights, level, from),
    decreases parents.len() - from,
{
    if from < parents.len() {
        lemma_crossing_nonnegative(parents, weights, level, from + 1);
        lemma_sums_nonnegative(parents, weights, from);
        assert(0 <= subtree_sum(parents, weights, from));
    }
}

proof fn lemma_sum_from_shrinks(weights: Seq<int>, from: int, to: int)
    requires
        forall|i: int| 0 <= i < weights.len() ==> 0 <= #[trigger] weights[i],
        0 <= from <= to <= weights.len(),
    ensures
        sum_from(weights, to) <= sum_from(weights, from),
    decreases to - from,
{
    if from < to {
        lemma_sum_from_shrinks(weights, from + 1, to);
        assert(0 <= weights[from]);
    }
}

/// No subtree weighs more than everything together.
pub proof fn lemma_subtree_bounded(parents: Seq<int>, weights: Seq<int>, i: int)
    requires
        topological(parents),
        weights.len() == parents.len(),
        forall|j: int| 0 <= j < weights.len() ==> 0 <= #[trigger] weights[j],
        0 <= i < parents.len(),
    ensures
        0 <= subtree_sum(parents, weights, i) <= sum_from(weights, 0),
        forall|k: int| i < k ==> 0 <= #[trigger] child_sums(parents, weights, i, k),
        forall|k: int|
            i < k <= parents.len() ==> weights[i] + #[trigger] child_sums(parents, weights, i, k)
                <= subtree_sum(parents, weights, i),
{
    lemma_crossing_is_all(parents, weights, i);
    lemma_crossing_nonnegative(parents, weights, i, i + 1);
    lemma_sums_nonnegative(parents, weights, 0);
    lemma_sum_from_shrinks(weights, 0, i);
    assert(parents[i] < i);
    assert(0 <= subtree_sum(parents, weights, i));
    assert forall|k: int| i < k <= parents.len() implies weights[i] + #[trigger] child_sums(
        parents,
        weights,
        i,
        k,
    ) <= subtree_sum(parents, weights, i) by {
        lemma_child_sums_shrink(parents, weights, i, i + 1, k);
    }
}

proof fn lemma_child_sums_shrink(parents: Seq<int>, weights: Seq<int>, i: int, from: int, to: int)
    requires
        weights.len() == parents.len(),
        forall|j: int| 0 <= j < weights.len() ==> 0 <= #[trigger] weights[j],
        0 <= from <= to <= parents.len(),
    ensures
        child_sums(parents, weights, i, to) <= child_sums(parents, weights, i, from),
    decreases to - from,
{
    if from < to {
        lemma_child_sums_shrink(parents, weights, i, from + 1, to);
        lemma_sums_nonnegative(parents, weights, from);
        assert(0 <= subtree_sum(parents, weights, from));
    }
}

/// Where index 0 is the only one without a parent, its subtree weighs what
/// everything weighs: nothing is lost on the way up and nothing counted twice.
pub proof fn law_root_holds_everything(parents: Seq<int>, weights: Seq<int>)
    requires
        topological(parents),
        weights.len() == parents.len(),
        parents.len() > 0,
        forall|i: int| 0 < i < parents.len() ==> 0 <= #[trigger] parents[i],
    ensures
        subtree_sum(parents, weights, 0) == sum_from(weights, 0),
{
    lemma_crossing_is_all(parents, weights, 0);
    lemma_nothing_else_crosses(parents, weights, 1);
    assert(parents[0] == -1);
}

proof fn lemma_nothing_else_crosses(parents: Seq<int>, weights: Seq<int>, from: int)
    requires
        0 < from,
        forall|i: int| 0 < i < parents.len() ==> 0 <= #[trigger] parents[i],
    ensures
        crossing(parents, weights, 0, from) == 0,
    decreases parents.len() - from,
{
    if from < parents.len() {
        lemma_nothing_else_crosses(parents, weights, from + 1);
        assert(0 <= parents[from]);
    }
}

// ---------------------------------------------------------------------------
// Subtrees that have nothing in common
// ---------------------------------------------------------------------------

/// Whether index `i` is `top` or hangs somewhere below it.
pub open spec fn hangs_under(parents: Seq<int>, top: int, i: int) -> bool
    decreases i,
{
    i == top || (top < i < parents.len() && 0 <= parents[i] < i && hangs_under(
        parents,
        top,
        parents[i],
    ))
}

/// The subtree sums of some indices, added up.
pub open spec fn sums_at(parents: Seq<int>, weights: Seq<int>, tops: Seq<int>) -> int
    decreases tops.len(),
{
    if tops.len() == 0 {
        0
    } else {
        sums_at(parents, weights, tops.drop_last()) + subtree_sum(parents, weights, tops.last())
    }
}

/// Whether no subtree of a list holds another's top.
pub open spec fn unrelated(parents: Seq<int>, tops: Seq<int>) -> bool {
    &&& forall|a: int| 0 <= a < tops.len() ==> 0 <= #[trigger] tops[a] < parents.len()
    &&& forall|a: int, b: int|
        0 <= a < tops.len() && 0 <= b < tops.len() && a != b ==> !hangs_under(
            parents,
            #[trigger] tops[a],
            #[trigger] tops[b],
        )
}

/// The weights under `top`; everything else weighs nothing.
spec fn only_under(parents: Seq<int>, weights: Seq<int>, top: int) -> Seq<int> {
    weights.map(
        |i: int, w: int|
            if hangs_under(parents, top, i) {
                w
            } else {
                0
            },
    )
}

/// The weights under none of `tops`.
spec fn outside(parents: Seq<int>, weights: Seq<int>, tops: Seq<int>) -> Seq<int> {
    weights.map(
        |i: int, w: int|
            if exists|a: int| 0 <= a < tops.len() && hangs_under(parents, #[trigger] tops[a], i) {
                0
            } else {
                w
            },
    )
}

proof fn lemma_chain(parents: Seq<int>, a: int, b: int, i: int)
    requires
        hangs_under(parents, a, i),
        hangs_under(parents, b, i),
    ensures
        hangs_under(parents, a, b) || hangs_under(parents, b, a),
    decreases i,
{
    if i != a && i != b {
        lemma_chain(parents, a, b, parents[i]);
    }
}

proof fn lemma_only_under(parents: Seq<int>, weights: Seq<int>, top: int, c: int)
    requires
        topological(parents),
        weights.len() == parents.len(),
        0 <= top <= c,
        c == top || c < parents.len(),
    ensures
        subtree_sum(parents, only_under(parents, weights, top), c) == (if hangs_under(
            parents,
            top,
            c,
        ) {
            subtree_sum(parents, weights, c)
        } else {
            0
        }),
    decreases parents.len() - c, 0int,
{
    if c < parents.len() {
        lemma_only_under_children(parents, weights, top, c, c + 1);
    }
}

proof fn lemma_only_under_children(
    parents: Seq<int>,
    weights: Seq<int>,
    top: int,
    c: int,
    from: int,
)
    requires
        topological(parents),
        weights.len() == parents.len(),
        0 <= top <= c < from <= parents.len(),
    ensures
        child_sums(parents, only_under(parents, weights, top), c, from) == (if hangs_under(
            parents,
            top,
            c,
        ) {
            child_sums(parents, weights, c, from)
        } else {
            0
        }),
    decreases parents.len() - from, 1int,
{
    if from < parents.len() {
        lemma_only_under_children(parents, weights, top, c, from + 1);
        lemma_only_under(parents, weights, top, from);
    }
}

proof fn lemma_nothing_crosses_under(parents: Seq<int>, weights: Seq<int>, top: int, from: int)
    requires
        topological(parents),
        weights.len() == parents.len(),
        0 <= top < from <= parents.len(),
    ensures
        crossing(parents, only_under(parents, weights, top), top, from) == 0,
    decreases parents.len() - from,
{
    if from < parents.len() {
        lemma_nothing_crosses_under(parents, weights, top, from + 1);
        if parents[from] < top {
            lemma_only_under(parents, weights, top, from);
            assert(!hangs_under(parents, top, parents[from]));
        }
    }
}

proof fn lemma_nothing_in_front(weights: Seq<int>, from: int, to: int)
    requires
        0 <= from <= to <= weights.len(),
        forall|i: int| 0 <= i < to ==> #[trigger] weights[i] == 0,
    ensures
        sum_from(weights, from) == sum_from(weights, to),
    decreases to - from,
{
    if from < to {
        lemma_nothing_in_front(weights, from + 1, to);
        assert(weights[from] == 0);
    }
}

/// What a subtree weighs is what everything under its top weighs.
proof fn lemma_subtree_is_under(parents: Seq<int>, weights: Seq<int>, top: int)
    requires
        topological(parents),
        weights.len() == parents.len(),
        0 <= top < parents.len(),
    ensures
        sum_from(only_under(parents, weights, top), 0) == subtree_sum(parents, weights, top),
{
    let mine = only_under(parents, weights, top);
    lemma_crossing_is_all(parents, mine, top);
    lemma_nothing_crosses_under(parents, weights, top, top + 1);
    lemma_only_under(parents, weights, top, top);
    assert(parents[top] < top);
    assert forall|i: int| 0 <= i < top implies #[trigger] mine[i] == 0 by {
        assert(!hangs_under(parents, top, i));
    }
    lemma_nothing_in_front(mine, 0, top);
}

proof fn lemma_sum_of_two(all: Seq<int>, one: Seq<int>, other: Seq<int>, from: int)
    requires
        all.len() == one.len(),
        all.len() == other.len(),
        0 <= from,
        forall|i: int| 0 <= i < all.len() ==> #[trigger] all[i] == one[i] + other[i],
    ensures
        sum_from(all, from) == sum_from(one, from) + sum_from(other, from),
    decreases all.len() - from,
{
    if from < all.len() {
        lemma_sum_of_two(all, one, other, from + 1);
        assert(all[from] == one[from] + other[from]);
    }
}

proof fn lemma_unrelated_split(parents: Seq<int>, weights: Seq<int>, tops: Seq<int>)
    requires
        topological(parents),
        weights.len() == parents.len(),
        unrelated(parents, tops),
    ensures
        sum_from(weights, 0) == sum_from(outside(parents, weights, tops), 0) + sums_at(
            parents,
            weights,
            tops,
        ),
    decreases tops.len(),
{
    let rest = outside(parents, weights, tops);
    if tops.len() == 0 {
        assert(rest =~= weights);
    } else {
        let front = tops.drop_last();
        let top = tops.last();
        let last = tops.len() - 1;
        let before = outside(parents, weights, front);
        let mine = only_under(parents, weights, top);
        assert(unrelated(parents, front)) by {
            assert forall|a: int| 0 <= a < front.len() implies 0 <= #[trigger] front[a]
                < parents.len() by {
                assert(tops[a] == front[a]);
            }
            assert forall|a: int, b: int|
                0 <= a < front.len() && 0 <= b < front.len() && a != b implies !hangs_under(
                parents,
                #[trigger] front[a],
                #[trigger] front[b],
            ) by {
                assert(tops[a] == front[a] && tops[b] == front[b]);
            }
        }
        assert(tops[last] == top);
        lemma_unrelated_split(parents, weights, front);
        lemma_subtree_is_under(parents, weights, top);
        assert forall|i: int| 0 <= i < before.len() implies #[trigger] before[i] == rest[i]
            + mine[i] by {
            if hangs_under(parents, top, i) {
                assert(hangs_under(parents, tops[last], i));
                assert forall|a: int| 0 <= a < front.len() implies !hangs_under(
                    parents,
                    #[trigger] front[a],
                    i,
                ) by {
                    if hangs_under(parents, front[a], i) {
                        lemma_chain(parents, front[a], top, i);
                        assert(tops[a] == front[a]);
                    }
                }
            } else if exists|a: int|
                0 <= a < tops.len() && hangs_under(parents, #[trigger] tops[a], i) {
                let a = choose|a: int|
                    0 <= a < tops.len() && hangs_under(parents, #[trigger] tops[a], i);
                assert(front[a] == tops[a]);
            } else {
                assert forall|a: int| 0 <= a < front.len() implies !hangs_under(
                    parents,
                    #[trigger] front[a],
                    i,
                ) by {
                    assert(tops[a] == front[a]);
                }
            }
        }
        lemma_sum_of_two(before, rest, mine, 0);
    }
}

/// Subtrees that have nothing in common weigh together no more than everything
/// does.
pub proof fn law_unrelated_subtrees_fit(parents: Seq<int>, weights: Seq<int>, tops: Seq<int>)
    requires
        topological(parents),
        weights.len() == parents.len(),
        forall|i: int| 0 <= i < weights.len() ==> 0 <= #[trigger] weights[i],
        unrelated(parents, tops),
    ensures
        sums_at(parents, weights, tops) <= sum_from(weights, 0),
{
    let rest = outside(parents, weights, tops);
    lemma_unrelated_split(parents, weights, tops);
    assert forall|i: int| 0 <= i < rest.len() implies 0 <= #[trigger] rest[i] by {
        assert(0 <= weights[i]);
    }
    lemma_sum_from_shrinks(rest, 0, rest.len() as int);
}

// ---------------------------------------------------------------------------
// What a subtree is
// ---------------------------------------------------------------------------

/// What hangs under an index is that index, and whatever has its parent there.
pub proof fn law_hanging_goes_by_parents(parents: Seq<int>, top: int, i: int)
    requires
        topological(parents),
        0 <= top < parents.len(),
        0 <= i < parents.len(),
    ensures
        hangs_under(parents, top, top),
        i != top && parents[i] < 0 ==> !hangs_under(parents, top, i),
        i != top && parents[i] >= 0 ==> hangs_under(parents, top, i) == hangs_under(
            parents,
            top,
            parents[i],
        ),
{
    if i < top && parents[i] >= 0 {
        lemma_hangs_later(parents, top, parents[i]);
    }
}

proof fn lemma_hangs_later(parents: Seq<int>, top: int, i: int)
    ensures
        hangs_under(parents, top, i) ==> top <= i,
{
}

/// Everything added up is everything: a weight more adds what it weighs.
pub proof fn law_sums_take_every_weight(weights: Seq<int>, more: int)
    ensures
        sum_from(Seq::empty(), 0) == 0,
        sum_from(weights.push(more), 0) == sum_from(weights, 0) + more,
{
    lemma_sum_of_more(weights, more, 0);
}

proof fn lemma_sum_of_more(weights: Seq<int>, more: int, from: int)
    requires
        0 <= from <= weights.len(),
    ensures
        sum_from(weights.push(more), from) == sum_from(weights, from) + more,
    decreases weights.len() - from,
{
    let longer = weights.push(more);
    if from < weights.len() {
        lemma_sum_of_more(weights, more, from + 1);
        assert(longer[from] == weights[from]);
    } else {
        assert(longer[from] == more);
        assert(sum_from(longer, from + 1) == 0);
    }
}

/// A subtree weighs what hangs under its top, each once, and nothing else.
pub proof fn law_subtrees_weigh_what_hangs_there(parents: Seq<int>, weights: Seq<int>, top: int)
    requires
        topological(parents),
        weights.len() == parents.len(),
        0 <= top < parents.len(),
    ensures
        subtree_sum(parents, weights, top) == sum_from(
            Seq::new(
                weights.len(),
                |i: int|
                    if hangs_under(parents, top, i) {
                        weights[i]
                    } else {
                        0
                    },
            ),
            0,
        ),
{
    lemma_subtree_is_under(parents, weights, top);
    assert(only_under(parents, weights, top) =~= Seq::new(
        weights.len(),
        |i: int|
            if hangs_under(parents, top, i) {
                weights[i]
            } else {
                0
            },
    ));
}

proof fn lemma_child_max(
    parents: Seq<int>,
    values: Seq<int>,
    top: int,
    from: int,
    least: int,
)
    requires
        topological(parents),
        values.len() == parents.len(),
        0 <= top < from,
    ensures
        child_max(parents, values, top, from, least) >= least,
        child_max(parents, values, top, from, least) == least || exists|i: int|
            top < i < parents.len() && #[trigger] hangs_under(parents, top, i) && child_max(
                parents,
                values,
                top,
                from,
                least,
            ) == values[i],
        forall|c: int, i: int|
            from <= c < parents.len() && parents[c] == top && #[trigger] hangs_under(parents, c, i)
                && c <= i < parents.len() ==> child_max(parents, values, top, from, least)
                >= values[i],
    decreases parents.len() - from, 1int,
{
    if from < parents.len() {
        lemma_child_max(parents, values, top, from + 1, least);
        let rest = child_max(parents, values, top, from + 1, least);
        let all = child_max(parents, values, top, from, least);
        if parents[from] == top {
            lemma_subtree_max(parents, values, from);
            let mine = subtree_max(parents, values, from);
            if all != rest {
                let i = choose|i: int|
                    from <= i < parents.len() && #[trigger] hangs_under(parents, from, i) && mine
                        == values[i];
                lemma_under_child(parents, top, from, i);
                assert(hangs_under(parents, top, i));
            }
        }
    }
}

proof fn lemma_under_child(parents: Seq<int>, top: int, child: int, i: int)
    requires
        topological(parents),
        0 <= top < child < parents.len(),
        parents[child] == top,
        child <= i < parents.len(),
        hangs_under(parents, child, i),
    ensures
        hangs_under(parents, top, i),
    decreases i,
{
    if i == child {
        assert(hangs_under(parents, top, top));
    } else {
        lemma_hangs_later(parents, child, parents[i]);
        lemma_under_child(parents, top, child, parents[i]);
    }
}

proof fn lemma_child_above(parents: Seq<int>, top: int, i: int) -> (child: int)
    requires
        topological(parents),
        0 <= top < i < parents.len(),
        hangs_under(parents, top, i),
    ensures
        top < child <= i,
        parents[child] == top,
        hangs_under(parents, child, i),
    decreases i,
{
    if parents[i] == top {
        i
    } else {
        lemma_hangs_later(parents, top, parents[i]);
        lemma_child_above(parents, top, parents[i])
    }
}

proof fn lemma_subtree_max(parents: Seq<int>, values: Seq<int>, top: int)
    requires
        topological(parents),
        values.len() == parents.len(),
        0 <= top < parents.len(),
    ensures
        exists|i: int|
            top <= i < parents.len() && #[trigger] hangs_under(parents, top, i) && subtree_max(
                parents,
                values,
                top,
            ) == values[i],
        forall|i: int|
            top <= i < parents.len() && #[trigger] hangs_under(parents, top, i) ==> subtree_max(
                parents,
                values,
                top,
            ) >= values[i],
    decreases parents.len() - top, 0int,
{
    lemma_child_max(parents, values, top, top + 1, values[top]);
    assert(hangs_under(parents, top, top));
    assert forall|i: int|
        top <= i < parents.len() && #[trigger] hangs_under(parents, top, i) implies subtree_max(
        parents,
        values,
        top,
    ) >= values[i] by {
        if i != top {
            let c = lemma_child_above(parents, top, i);
            assert(hangs_under(parents, c, i));
        }
    }
}

/// The largest value of a subtree is one of those that hang there, and no other of
/// them is larger.
pub proof fn law_the_largest_hangs_there(parents: Seq<int>, values: Seq<int>, top: int)
    requires
        topological(parents),
        values.len() == parents.len(),
        0 <= top < parents.len(),
    ensures
        exists|i: int|
            top <= i < parents.len() && #[trigger] hangs_under(parents, top, i) && subtree_max(
                parents,
                values,
                top,
            ) == values[i],
        forall|i: int|
            top <= i < parents.len() && #[trigger] hangs_under(parents, top, i) ==> subtree_max(
                parents,
                values,
                top,
            ) >= values[i],
{
    lemma_subtree_max(parents, values, top);
}

} // verus!
