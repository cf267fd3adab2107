//! The shape that the sweep keeps.
//!
//! Every cluster that the sweep makes is a whole number of separations long,
//! and the clusters of the stack lie at least one separation apart. This
//! module states that and proves it by induction over the sweep, for all
//! integers.

use crate::model::{
    absorb, flatten, half_toward_zero, members, spaced, sweep, ClusterView, Limits,
};
use vstd::prelude::*;

verus! {

/// A regular cluster holds at least one label, and is as long as the
/// separations between its labels.
pub proof fn lemma_regular_length(cluster: ClusterView, separation: int)
    requires
        separation > 0,
        cluster.regular(separation),
    ensures
        cluster.count(separation) >= 1,
        cluster.end - cluster.start == (cluster.count(separation) - 1) * separation,
{
    let length = cluster.end - cluster.start;
    vstd::arithmetic::div_mod::lemma_fundamental_div_mod(length, separation);
    vstd::arithmetic::div_mod::lemma_div_pos_is_pos(length, separation);
    vstd::arithmetic::mul::lemma_mul_is_commutative(separation, length / separation);
}

/// A cluster that is `count - 1` separations long is regular, where its
/// offsets are in order, and holds `count` labels.
pub proof fn lemma_length_regular(cluster: ClusterView, separation: int, count: int)
    requires
        separation > 0,
        count >= 1,
        cluster.end - cluster.start == (count - 1) * separation,
    ensures
        cluster.start <= cluster.end,
        (cluster.end - cluster.start) % separation == 0,
        cluster.count(separation) == count,
{
    vstd::arithmetic::mul::lemma_mul_nonnegative(count - 1, separation);
    vstd::arithmetic::div_mod::lemma_fundamental_div_mod_converse(
        cluster.end - cluster.start,
        separation,
        count - 1,
        0,
    );
}

/// Moving a cluster changes neither its length nor the width of its offsets.
pub proof fn lemma_shift_keeps_shape(cluster: ClusterView, offset: int, separation: int)
    ensures
        cluster.shift(offset).end - cluster.shift(offset).start == cluster.end - cluster.start,
        cluster.shift(offset).max_offset - cluster.shift(offset).min_offset == cluster.max_offset
            - cluster.min_offset,
        cluster.shift(offset).count(separation) == cluster.count(separation),
        cluster.shift(offset).regular(separation) == cluster.regular(separation),
{
}

/// Twice the half, rounded toward zero, differs from the whole by at most
/// one, and falls on the side of zero.
pub proof fn lemma_half_toward_zero(sum: int)
    ensures
        -1 <= sum - 2 * half_toward_zero(sum) <= 1,
        sum >= 0 ==> 0 <= sum - 2 * half_toward_zero(sum),
        sum <= 0 ==> sum - 2 * half_toward_zero(sum) <= 0,
{
}

/// Merging two regular clusters gives a regular, balanced cluster that holds
/// the labels of both.
pub proof fn lemma_merge_regular(first: ClusterView, second: ClusterView, separation: int)
    requires
        separation > 0,
        first.regular(separation),
        second.regular(separation),
    ensures
        ClusterView::merge(first, second, separation).regular(separation),
        ClusterView::merge(first, second, separation).balanced(),
        ClusterView::merge(first, second, separation).count(separation) == first.count(separation)
            + second.count(separation),
        ClusterView::join(first, second, separation).end - ClusterView::join(
            first,
            second,
            separation,
        ).start == (first.end - first.start) + separation + (second.end - second.start),
{
    let joined = ClusterView::join(first, second, separation);
    let a = first.count(separation) as int;
    let b = second.count(separation) as int;
    lemma_regular_length(first, separation);
    lemma_regular_length(second, separation);
    assert(joined.end - joined.start == (a + b - 1) * separation) by (nonlinear_arith)
        requires
            joined.end - joined.start == (first.end - first.start) + separation + (second.end
                - second.start),
            first.end - first.start == (a - 1) * separation,
            second.end - second.start == (b - 1) * separation,
    ;
    lemma_length_regular(joined, separation, a + b);
    lemma_shift_keeps_shape(joined, -joined.imbalance(), separation);
    lemma_half_toward_zero(joined.min_offset + joined.max_offset);
}

/// Moving a cluster into limits keeps its shape, and the result honours the
/// limits.
pub proof fn lemma_limit_honours(cluster: ClusterView, limits: Limits, separation: int)
    requires
        cluster.start <= cluster.end,
    ensures
        cluster.limit(limits.min, limits.max).honours(limits),
        cluster.limit(limits.min, limits.max).regular(separation) == cluster.regular(separation),
        cluster.limit(limits.min, limits.max).count(separation) == cluster.count(separation),
        cluster.limit(limits.min, limits.max).end - cluster.limit(limits.min, limits.max).start
            == cluster.end - cluster.start,
{
    let raised = cluster.raise(limits.min);
    lemma_shift_keeps_shape(cluster, limits.min - cluster.start, separation);
    lemma_shift_keeps_shape(raised, limits.max - raised.end, separation);
}

/// What the sweep leaves a cluster as: balanced where there are no limits,
/// and honouring the limits where there are.
pub open spec fn settled(cluster: ClusterView, limits: Option<Limits>) -> bool {
    match limits {
        Some(l) => cluster.honours(l),
        None => cluster.balanced(),
    }
}

/// What holds of the stack throughout the sweep: every cluster is regular and
/// settled, and each starts at least one separation after the one below it
/// ends.
pub open spec fn orderly(stack: Seq<ClusterView>, separation: int, limits: Option<Limits>) -> bool {
    &&& forall|j: int| 0 <= j < stack.len() ==> (#[trigger] stack[j]).regular(separation)
    &&& forall|j: int| 0 <= j < stack.len() ==> settled(#[trigger] stack[j], limits)
    &&& forall|j: int|
        0 < j < stack.len() ==> stack[j - 1].end + separation <= (#[trigger] stack[j]).start
}

/// A balanced regular cluster, once confined, is regular and settled and
/// holds the same labels.
pub proof fn lemma_confine_settles(cluster: ClusterView, separation: int, limits: Option<Limits>)
    requires
        cluster.regular(separation),
        cluster.balanced(),
    ensures
        cluster.confine(limits).regular(separation),
        settled(cluster.confine(limits), limits),
        cluster.confine(limits).count(separation) == cluster.count(separation),
{
    match limits {
        Some(l) => {
            lemma_limit_honours(cluster, l, separation);
        },
        None => {},
    }
}

/// Absorbing a regular, settled cluster keeps the stack orderly, and adds the
/// cluster's labels to those of the stack.
pub proof fn lemma_absorb_orderly(
    stack: Seq<ClusterView>,
    cluster: ClusterView,
    separation: int,
    limits: Option<Limits>,
)
    requires
        separation > 0,
        orderly(stack, separation, limits),
        cluster.regular(separation),
        settled(cluster, limits),
    ensures
        orderly(absorb(stack, cluster, separation, limits), separation, limits),
        members(absorb(stack, cluster, separation, limits), separation) == members(
            stack,
            separation,
        ) + cluster.count(separation),
    decreases stack.len(),
{
    if stack.len() > 0 && stack.last().end + separation > cluster.start {
        let merged = ClusterView::merge(stack.last(), cluster, separation);
        lemma_merge_regular(stack.last(), cluster, separation);
        lemma_confine_settles(merged, separation, limits);
        lemma_absorb_orderly(stack.drop_last(), merged.confine(limits), separation, limits);
    } else {
        assert(stack.push(cluster).drop_last() == stack);
    }
}

/// The sweep leaves an orderly stack that holds every label once.
pub proof fn lemma_sweep_orderly(preferred: Seq<int>, separation: int, limits: Option<Limits>)
    requires
        separation > 0,
    ensures
        orderly(sweep(preferred, separation, limits), separation, limits),
        members(sweep(preferred, separation, limits), separation) == preferred.len(),
    decreases preferred.len(),
{
    if preferred.len() > 0 {
        let single = ClusterView::single(preferred.last());
        lemma_sweep_orderly(preferred.drop_last(), separation, limits);
        lemma_length_regular(single, separation, 1);
        lemma_confine_settles(single, separation, limits);
        lemma_absorb_orderly(
            sweep(preferred.drop_last(), separation, limits),
            single.confine(limits),
            separation,
            limits,
        );
    }
}

/// The positions of a regular cluster run from its start to its end.
pub proof fn lemma_positions_span(cluster: ClusterView, separation: int)
    requires
        separation > 0,
        cluster.regular(separation),
    ensures
        cluster.positions(separation).len() == cluster.count(separation),
        cluster.positions(separation).len() >= 1,
        cluster.positions(separation).first() == cluster.start,
        cluster.positions(separation).last() == cluster.end,
        forall|k: int|
            0 < k < cluster.positions(separation).len() ==> cluster.positions(separation)[k - 1]
                + separation == #[trigger] cluster.positions(separation)[k],
        forall|k: int|
            0 <= k < cluster.positions(separation).len() ==> cluster.start
                <= #[trigger] cluster.positions(separation)[k] <= cluster.end,
{
    let run = cluster.positions(separation);
    let count = cluster.count(separation) as int;
    lemma_regular_length(cluster, separation);
    assert(0 * separation == 0) by (nonlinear_arith);
    assert forall|k: int| 0 < k < run.len() implies run[k - 1] + separation
        == #[trigger] run[k] by {
        assert((k - 1) * separation + separation == k * separation) by (nonlinear_arith);
    }
    assert forall|k: int| 0 <= k < run.len() implies cluster.start <= #[trigger] run[k]
        <= cluster.end by {
        assert(0 <= k * separation <= (count - 1) * separation) by (nonlinear_arith)
            requires
                0 <= k <= count - 1,
                separation > 0,
        ;
    }
}

/// Flattening an orderly stack gives one position for each label, each at
/// least one separation after the one before, from the start of the bottom
/// cluster to the end of the top one.
pub proof fn lemma_flatten_orderly(
    stack: Seq<ClusterView>,
    separation: int,
    limits: Option<Limits>,
)
    requires
        separation > 0,
        orderly(stack, separation, limits),
    ensures
        flatten(stack, separation).len() == members(stack, separation),
        stack.len() > 0 ==> flatten(stack, separation).len() > 0,
        stack.len() > 0 ==> flatten(stack, separation).first() == stack.first().start,
        stack.len() > 0 ==> flatten(stack, separation).last() == stack.last().end,
        forall|i: int|
            0 < i < flatten(stack, separation).len() ==> flatten(stack, separation)[i - 1]
                + separation <= #[trigger] flatten(stack, separation)[i],
    decreases stack.len(),
{
    if stack.len() > 0 {
        // The positions of the stack below come first, then those of the top
        // cluster; where the two meet, the clusters lie a separation apart.
        lemma_flatten_orderly(stack.drop_last(), separation, limits);
        lemma_positions_span(stack.last(), separation);
    }
}

/// Values that lie a separation apart are in ascending order, and further
/// apart the further they are from each other in the sequence.
pub proof fn lemma_spaced_apart(values: Seq<int>, separation: int, i: int, j: int)
    requires
        spaced(values, separation),
        0 <= i <= j < values.len(),
    ensures
        values[i] + (j - i) * separation <= values[j],
    decreases j - i,
{
    if i < j {
        lemma_spaced_apart(values, separation, i, j - 1);
        assert((j - i) * separation == (j - 1 - i) * separation + separation)
            by (nonlinear_arith);
    } else {
        assert((j - i) * separation == 0) by (nonlinear_arith)
            requires
                j - i == 0,
        ;
    }
}

/// No cluster of a stack of regular clusters holds more labels than the stack.
pub proof fn lemma_count_at_most_members(stack: Seq<ClusterView>, separation: int, j: int)
    requires
        0 <= j < stack.len(),
    ensures
        stack[j].count(separation) <= members(stack, separation),
    decreases stack.len(),
{
    if j < stack.len() - 1 {
        lemma_count_at_most_members(stack.drop_last(), separation, j);
    }
}

} // verus!
