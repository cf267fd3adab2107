//! The inputs for which the sweep stays within `i32`.
//!
//! The sweep adds and subtracts positions, offsets and the length of all
//! labels laid one separation apart. With each of these within [`REACH`] no
//! intermediate value lies further than five times `REACH` from zero, which an
//! `i32` still holds. [`can_place`] and [`can_place_with_limits`] tell whether
//! given arguments are in reach.

use crate::cluster::{can_limit, can_merge};
use crate::model::{absorb, between, ints, members, sweep, ClusterView, Limits};
use crate::order::{
    lemma_half_toward_zero, lemma_length_regular, lemma_limit_honours, lemma_merge_regular,
    lemma_regular_length,
};
use vstd::prelude::*;

verus! {

/// The greatest magnitude of a preferred position or a limit, and the greatest
/// length of all labels laid one separation apart: a fifth of `i32::MAX`.
///
/// No greater number will do for all three. Labels that prefer `REACH` and are
/// held at a maximum of `-REACH` get offsets of twice `REACH`, and more by
/// their length where they are many; the sum of the least and the greatest
/// offset, which balancing takes, then comes to five times `REACH`.
pub const REACH: i32 = 429_496_729;

/// Whether every preferred position and both limits lie within `REACH` of
/// zero, and the labels laid one separation apart are no longer than `REACH`.
pub open spec fn in_reach(preferred: Seq<int>, separation: int, limits: Option<Limits>) -> bool {
    &&& forall|i: int| 0 <= i < preferred.len() ==> -REACH <= #[trigger] preferred[i] <= REACH
    &&& preferred.len() * separation <= REACH
    &&& limits matches Some(l) ==> -REACH <= l.min <= REACH && -REACH <= l.max <= REACH
}

/// Whether `labels` labels laid one separation apart are no longer than
/// `REACH`: as many fit as `separation` goes into `REACH`.
proof fn lemma_labels_fit(labels: int, separation: int)
    requires
        labels >= 0,
        0 < separation,
    ensures
        labels * separation <= REACH <==> labels <= (REACH as int) / separation,
{
    let most = (REACH as int) / separation;
    vstd::arithmetic::div_mod::lemma_fundamental_div_mod(REACH as int, separation);
    vstd::arithmetic::mul::lemma_mul_is_commutative(separation, most);
    if labels <= most {
        vstd::arithmetic::mul::lemma_mul_inequality(labels, most, separation);
    } else {
        vstd::arithmetic::mul::lemma_mul_inequality(most + 1, labels, separation);
        assert((most + 1) * separation == most * separation + separation) by (nonlinear_arith);
    }
}

/// Tells whether all of `positions` lie within `REACH` of zero.
fn all_in_reach(positions: &[i32]) -> (all: bool)
    ensures
        all == forall|i: int|
            0 <= i < positions@.len() ==> -REACH <= #[trigger] ints(positions@)[i] <= REACH,
{
    for position in it: positions
        invariant
            it.seq().len() == positions@.len(),
            forall|k: int| 0 <= k < positions@.len() ==> *it.seq()[k] == positions@[k],
            forall|i: int|
                0 <= i < it.index() ==> -REACH <= #[trigger] ints(positions@)[i] <= REACH,
    {
        if *position < -REACH || *position > REACH {
            assert(ints(positions@)[it.index() as int] == *position);
            return false;
        }
    }
    true
}

/// Tells whether [`crate::place`] takes these arguments: whether the
/// separation is positive and the positions are in reach.
pub fn can_place(positions: &[i32], separation: i32) -> (can: bool)
    ensures
        can == (separation > 0 && in_reach(ints(positions@), separation as int, None)),
{
    if separation <= 0 {
        return false;
    }
    proof {
        lemma_labels_fit(positions@.len() as int, separation as int);
    }
    let most = (REACH / separation) as usize;
    positions.len() <= most && all_in_reach(positions)
}

/// Tells whether [`crate::place_with_limits`] takes these arguments: whether
/// the separation is positive and the positions and both limits are in reach.
pub fn can_place_with_limits(positions: &[i32], separation: i32, min: i32, max: i32) -> (can: bool)
    ensures
        can == (separation > 0 && in_reach(
            ints(positions@),
            separation as int,
            between(min as int, max as int),
        )),
{
    -REACH <= min && min <= REACH && -REACH <= max && max <= REACH && can_place(
        positions,
        separation,
    )
}

/// What holds of every cluster while the sweep runs on input in reach: the
/// cluster is no longer than `REACH`, its offsets are those of labels that
/// prefer positions within `REACH` of zero, and it lies no further from zero
/// than `REACH` and its own length.
pub(crate) open spec fn tame(cluster: ClusterView, separation: int) -> bool {
    &&& cluster.regular(separation)
    &&& cluster.end - cluster.start + separation <= REACH
    &&& cluster.start - REACH <= cluster.min_offset <= cluster.start + REACH
    &&& cluster.end - REACH <= cluster.max_offset <= cluster.end + REACH
    &&& -REACH - (cluster.end - cluster.start) <= cluster.start
    &&& cluster.end <= REACH + (cluster.end - cluster.start)
}

/// The cluster of one label in reach can be confined in `i32`, and is tame
/// after it.
proof fn lemma_single_tame(
    position: int,
    separation: int,
    limits: Option<Limits>,
)
    requires
        0 < separation <= REACH,
        -REACH <= position <= REACH,
        limits matches Some(l) ==> -REACH <= l.min <= REACH && -REACH <= l.max <= REACH,
    ensures
        limits matches Some(l) ==> can_limit(ClusterView::single(position), l.min, l.max),
        tame(ClusterView::single(position).confine(limits), separation),
        ClusterView::single(position).confine(limits).count(separation) == 1,
{
    let single = ClusterView::single(position);
    lemma_length_regular(single, separation, 1);
    if let Some(l) = limits {
        lemma_limit_honours(single, l, separation);
    }
}

/// Two tame clusters that together hold no more than `total` labels, with
/// `total` labels in reach, can be merged and confined in `i32`, and the
/// result is tame.
proof fn lemma_merge_tame(
    first: ClusterView,
    second: ClusterView,
    separation: int,
    limits: Option<Limits>,
    total: int,
)
    requires
        separation > 0,
        tame(first, separation),
        tame(second, separation),
        first.count(separation) + second.count(separation) <= total,
        total * separation <= REACH,
        limits matches Some(l) ==> -REACH <= l.min <= REACH && -REACH <= l.max <= REACH,
    ensures
        can_merge(first, second, separation),
        limits matches Some(l) ==> can_limit(
            ClusterView::merge(first, second, separation),
            l.min,
            l.max,
        ),
        tame(ClusterView::merge(first, second, separation).confine(limits), separation),
        ClusterView::merge(first, second, separation).confine(limits).count(separation)
            == first.count(separation) + second.count(separation),
{
    let joined = ClusterView::join(first, second, separation);
    let merged = ClusterView::merge(first, second, separation);
    let a = first.count(separation) as int;
    let b = second.count(separation) as int;
    lemma_regular_length(first, separation);
    lemma_regular_length(second, separation);
    lemma_merge_regular(first, second, separation);
    assert(joined.end - joined.start + separation <= REACH) by (nonlinear_arith)
        requires
            joined.end - joined.start == (first.end - first.start) + separation + (second.end
                - second.start),
            first.end - first.start == (a - 1) * separation,
            second.end - second.start == (b - 1) * separation,
            a + b <= total,
            total * separation <= REACH,
            separation > 0,
    ;
    // Balanced offsets that lie within `REACH` of both ends of a cluster put
    // the ends within `REACH` and half the length of the cluster of zero; the
    // limits move them no further out than `REACH` and the whole length.
    lemma_half_toward_zero(joined.min_offset + joined.max_offset);
    if let Some(l) = limits {
        lemma_limit_honours(merged, l, separation);
    }
}

/// What holds of the stack between two labels of a sweep on input in reach:
/// its clusters are tame and hold the `done` labels swept so far.
pub(crate) open spec fn sweeping(stack: Seq<ClusterView>, separation: int, done: int) -> bool {
    &&& forall|j: int| 0 <= j < stack.len() ==> tame(#[trigger] stack[j], separation)
    &&& members(stack, separation) == done
}

/// What holds while `cluster`, which holds the label that arrived last, takes
/// up the clusters below it: all are tame, and together they hold the `done`
/// labels swept before and the one that arrived.
pub(crate) open spec fn absorbing(
    stack: Seq<ClusterView>,
    cluster: ClusterView,
    separation: int,
    done: int,
) -> bool {
    &&& forall|j: int| 0 <= j < stack.len() ==> tame(#[trigger] stack[j], separation)
    &&& tame(cluster, separation)
    &&& members(stack, separation) + cluster.count(separation) == done + 1
}

/// The label after the first `done` arrives: its cluster can be confined in
/// `i32`, and absorbing it gives the sweep of the first `done + 1` labels.
pub(crate) proof fn lemma_arrive(
    preferred: Seq<int>,
    separation: int,
    limits: Option<Limits>,
    done: int,
)
    requires
        separation > 0,
        in_reach(preferred, separation, limits),
        0 <= done < preferred.len(),
        sweeping(sweep(preferred.take(done), separation, limits), separation, done),
    ensures
        limits matches Some(l) ==> can_limit(ClusterView::single(preferred[done]), l.min, l.max),
        absorbing(
            sweep(preferred.take(done), separation, limits),
            ClusterView::single(preferred[done]).confine(limits),
            separation,
            done,
        ),
        absorb(
            sweep(preferred.take(done), separation, limits),
            ClusterView::single(preferred[done]).confine(limits),
            separation,
            limits,
        ) == sweep(preferred.take(done + 1), separation, limits),
{
    let next = preferred.take(done + 1);
    assert(next.drop_last() == preferred.take(done));
    assert(separation <= preferred.len() * separation) by (nonlinear_arith)
        requires
            preferred.len() >= 1,
            separation > 0,
    ;
    lemma_single_tame(preferred[done], separation, limits);
}

/// The topmost cluster lies too close below `cluster`: the two can be merged
/// and confined in `i32`, and the merged cluster goes on absorbing what is
/// left of the stack, to the same end.
pub(crate) proof fn lemma_take_up(
    stack: Seq<ClusterView>,
    cluster: ClusterView,
    separation: int,
    limits: Option<Limits>,
    done: int,
    total: int,
)
    requires
        separation > 0,
        absorbing(stack, cluster, separation, done),
        stack.len() > 0,
        stack.last().end + separation > cluster.start,
        done < total,
        total * separation <= REACH,
        limits matches Some(l) ==> -REACH <= l.min <= REACH && -REACH <= l.max <= REACH,
    ensures
        can_merge(stack.last(), cluster, separation),
        limits matches Some(l) ==> can_limit(
            ClusterView::merge(stack.last(), cluster, separation),
            l.min,
            l.max,
        ),
        absorbing(
            stack.drop_last(),
            ClusterView::merge(stack.last(), cluster, separation).confine(limits),
            separation,
            done,
        ),
        absorb(stack, cluster, separation, limits) == absorb(
            stack.drop_last(),
            ClusterView::merge(stack.last(), cluster, separation).confine(limits),
            separation,
            limits,
        ),
{
    lemma_merge_tame(stack.last(), cluster, separation, limits, total);
}

/// No cluster lies too close below `cluster`: it goes on top, and the stack
/// holds one label more.
pub(crate) proof fn lemma_settle(
    stack: Seq<ClusterView>,
    cluster: ClusterView,
    separation: int,
    limits: Option<Limits>,
    done: int,
)
    requires
        absorbing(stack, cluster, separation, done),
        stack.len() > 0 ==> stack.last().end + separation <= cluster.start,
    ensures
        absorb(stack, cluster, separation, limits) == stack.push(cluster),
        sweeping(stack.push(cluster), separation, done + 1),
{
    assert(stack.push(cluster).drop_last() == stack);
}

} // verus!
