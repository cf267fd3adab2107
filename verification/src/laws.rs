//! What holds of every placement.
//!
//! The laws are stated over the mathematical placement of [`crate::model`],
//! for all integers and whatever order the preferred positions come in.

use crate::model::{
    absorb, ascending, flatten, inside, level, placement, spaced, sweep, ClusterView, Limits,
};
use crate::order::{
    lemma_count_at_most_members, lemma_flatten_orderly, lemma_half_toward_zero,
    lemma_length_regular, lemma_positions_span, lemma_regular_length, lemma_spaced_apart,
    lemma_sweep_orderly,
};
use vstd::prelude::*;

verus! {

/// The greatest distance of any label of `cluster` from its preferred
/// position.
pub open spec fn worst_offset(cluster: ClusterView) -> int {
    vstd::math::max(-cluster.min_offset, cluster.max_offset)
}

/// Balancing minimises the maximum absolute offset: after it the offsets are
/// centred on zero, and no other move of the cluster leaves its labels a
/// smaller greatest distance from their preferred positions.
pub proof fn lemma_balance_is_best(cluster: ClusterView, offset: int)
    requires
        cluster.min_offset <= cluster.max_offset,
    ensures
        cluster.balance().balanced(),
        worst_offset(cluster.balance()) <= worst_offset(cluster.shift(offset)),
{
    lemma_half_toward_zero(cluster.min_offset + cluster.max_offset);
}

/// The permitted positions are as many as the preferred ones and in ascending
/// order, and each lies at least one separation after the one before: the
/// labels keep their order and their distance.
pub proof fn lemma_placement_separated(
    preferred: Seq<int>,
    separation: int,
    limits: Option<Limits>,
)
    requires
        separation > 0,
    ensures
        placement(preferred, separation, limits).len() == preferred.len(),
        ascending(placement(preferred, separation, limits)),
        spaced(placement(preferred, separation, limits), separation),
{
    let placed = placement(preferred, separation, limits);
    lemma_sweep_orderly(preferred, separation, limits);
    lemma_flatten_orderly(sweep(preferred, separation, limits), separation, limits);
    assert forall|i: int, j: int| 0 <= i <= j < placed.len() implies placed[i] <= placed[j] by {
        lemma_spaced_apart(placed, separation, i, j);
        vstd::arithmetic::mul::lemma_mul_nonnegative(j - i, separation);
    }
}

/// With limits, every cluster that the sweep leaves honours them: none of its
/// positions lies above the maximum, and none lies below the minimum unless
/// the cluster is longer than the limits are apart. So no permitted position
/// lies above the maximum, and where all labels together fit between the
/// limits, none lies below the minimum.
pub proof fn lemma_placement_honours_limits(preferred: Seq<int>, separation: int, limits: Limits)
    requires
        separation > 0,
    ensures
        forall|j: int|
            0 <= j < sweep(preferred, separation, Some(limits)).len() ==> (#[trigger] sweep(
                preferred,
                separation,
                Some(limits),
            )[j]).honours(limits),
        forall|j: int, k: int|
            #![trigger sweep(preferred, separation, Some(limits))[j].positions(separation)[k]]
            0 <= j < sweep(preferred, separation, Some(limits)).len() && 0 <= k < sweep(
                preferred,
                separation,
                Some(limits),
            )[j].count(separation) ==> {
                let cluster = sweep(preferred, separation, Some(limits))[j];
                &&& cluster.positions(separation)[k] <= limits.max
                &&& cluster.end - cluster.start <= limits.max - limits.min ==> limits.min
                    <= cluster.positions(separation)[k]
            },
        forall|i: int|
            0 <= i < preferred.len() ==> #[trigger] placement(
                preferred,
                separation,
                Some(limits),
            )[i] <= limits.max,
        (preferred.len() - 1) * separation <= limits.max - limits.min ==> forall|i: int|
            0 <= i < preferred.len() ==> limits.min <= #[trigger] placement(
                preferred,
                separation,
                Some(limits),
            )[i],
{
    let stack = sweep(preferred, separation, Some(limits));
    let flat = placement(preferred, separation, Some(limits));
    lemma_sweep_orderly(preferred, separation, Some(limits));
    lemma_flatten_orderly(stack, separation, Some(limits));
    assert forall|j: int, k: int|
        #![trigger stack[j].positions(separation)[k]]
        0 <= j < stack.len() && 0 <= k < stack[j].count(separation) implies {
        &&& stack[j].positions(separation)[k] <= limits.max
        &&& stack[j].end - stack[j].start <= limits.max - limits.min ==> limits.min
            <= stack[j].positions(separation)[k]
    } by {
        lemma_positions_span(stack[j], separation);
    }
    if stack.len() > 0 {
        let bottom = stack.first();
        let top = stack.last();
        let last = flat.len() - 1;
        assert forall|i: int| 0 <= i < flat.len() implies bottom.start <= #[trigger] flat[i]
            <= top.end by {
            lemma_spaced_apart(flat, separation, 0, i);
            lemma_spaced_apart(flat, separation, i, last);
            vstd::arithmetic::mul::lemma_mul_nonnegative(i, separation);
            vstd::arithmetic::mul::lemma_mul_nonnegative(last - i, separation);
        }
        if (preferred.len() - 1) * separation <= limits.max - limits.min {
            lemma_count_at_most_members(stack, separation, 0);
            lemma_regular_length(bottom, separation);
            assert((bottom.count(separation) - 1) * separation <= (preferred.len() - 1)
                * separation) by (nonlinear_arith)
                requires
                    bottom.count(separation) <= preferred.len(),
                    separation > 0,
            ;
        }
    }
}

/// The stack in which every label has a cluster of its own, at its preferred
/// position.
pub open spec fn singles(preferred: Seq<int>) -> Seq<ClusterView> {
    Seq::new(preferred.len(), |i: int| ClusterView::single(preferred[i]))
}

proof fn lemma_sweep_of_spaced(preferred: Seq<int>, separation: int, limits: Option<Limits>)
    requires
        separation > 0,
        spaced(preferred, separation),
        inside(preferred, limits),
    ensures
        sweep(preferred, separation, limits) == singles(preferred),
    decreases preferred.len(),
{
    if preferred.len() > 0 {
        let before = preferred.drop_last();
        let single = ClusterView::single(preferred.last());
        assert(spaced(before, separation));
        assert(inside(before, limits));
        lemma_sweep_of_spaced(before, separation, limits);
        assert(single.confine(limits) == single);
        assert(singles(before).push(single) == singles(preferred));
    }
}

proof fn lemma_flatten_singles(preferred: Seq<int>, separation: int)
    requires
        separation > 0,
    ensures
        flatten(singles(preferred), separation) == preferred,
    decreases preferred.len(),
{
    if preferred.len() > 0 {
        let single = ClusterView::single(preferred.last());
        lemma_flatten_singles(preferred.drop_last(), separation);
        assert(singles(preferred).drop_last() =~= singles(preferred.drop_last()));
        lemma_length_regular(single, separation, 1);
        assert(0 * separation == 0) by (nonlinear_arith);
    }
}

/// Preferred positions that already lie a separation apart, and within the
/// limits where there are any, are permitted as they are.
pub proof fn lemma_placement_of_spaced(
    preferred: Seq<int>,
    separation: int,
    limits: Option<Limits>,
)
    requires
        separation > 0,
        spaced(preferred, separation),
        inside(preferred, limits),
    ensures
        placement(preferred, separation, limits) == preferred,
{
    lemma_sweep_of_spaced(preferred, separation, limits);
    lemma_flatten_singles(preferred, separation);
}

/// The balanced cluster of `count` labels that all prefer `position`: the
/// labels reach as far below `position` as above it, and one further below
/// where the length of the cluster is odd.
pub open spec fn centred(position: int, count: int, separation: int) -> ClusterView {
    let length = (count - 1) * separation;
    ClusterView {
        start: position - (length + 1) / 2,
        end: position + length / 2,
        min_offset: -((length + 1) / 2),
        max_offset: length / 2,
    }
}

proof fn lemma_sweep_of_level(preferred: Seq<int>, separation: int)
    requires
        separation > 0,
        preferred.len() > 0,
        level(preferred),
    ensures
        sweep(preferred, separation, None) == seq![
            centred(preferred[0], preferred.len() as int, separation),
        ],
    decreases preferred.len(),
{
    let position = preferred[0];
    let count = preferred.len() as int;
    let single = ClusterView::single(preferred.last());
    let before = preferred.drop_last();
    if count == 1 {
        assert(0 * separation == 0) by (nonlinear_arith);
        assert(sweep(before, separation, None) =~= Seq::<ClusterView>::empty());
        assert(Seq::<ClusterView>::empty().push(single) =~= seq![
            centred(position, count, separation),
        ]);
    } else {
        assert(level(before));
        lemma_sweep_of_level(before, separation);
        let previous = centred(position, count - 1, separation);
        let stack = seq![previous];
        let shorter = (count - 2) * separation;
        let length = (count - 1) * separation;
        assert(shorter >= 0) by (nonlinear_arith)
            requires
                shorter == (count - 2) * separation,
                count >= 2,
                separation > 0,
        ;
        assert(length == shorter + separation) by (nonlinear_arith)
            requires
                shorter == (count - 2) * separation,
                length == (count - 1) * separation,
        ;
        // The cluster so far ends at or above `position`, so the new label is
        // merged into it, and balancing centres the longer cluster.
        let merged = ClusterView::merge(previous, single, separation);
        assert(previous.end + separation > single.start);
        assert(merged == centred(position, count, separation));
        assert(absorb(stack.drop_last(), merged, separation, None) =~= seq![merged]);
    }
}

/// Labels that all prefer one position are centred on it: they lie exactly
/// a separation apart, and the first lies as far below the position as the
/// last lies above it, or one further where the distance from first to last
/// is odd.
pub proof fn lemma_placement_of_level(preferred: Seq<int>, separation: int)
    requires
        separation > 0,
        level(preferred),
    ensures
        placement(preferred, separation, None).len() == preferred.len(),
        forall|i: int|
            0 <= i < preferred.len() ==> #[trigger] placement(preferred, separation, None)[i]
                == preferred[0] - ((preferred.len() - 1) * separation + 1) / 2 + i * separation,
        preferred.len() > 0 ==> -1 <= (placement(preferred, separation, None).first()
            - preferred[0]) + (placement(preferred, separation, None).last() - preferred[0]) <= 0,
{
    if preferred.len() > 0 {
        let cluster = centred(preferred[0], preferred.len() as int, separation);
        lemma_sweep_of_level(preferred, separation);
        vstd::arithmetic::mul::lemma_mul_nonnegative(preferred.len() - 1, separation);
        lemma_length_regular(cluster, separation, preferred.len() as int);
        reveal_with_fuel(flatten, 2);
        assert(0 * separation == 0) by (nonlinear_arith);
    }
}

} // verus!
