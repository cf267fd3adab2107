//! The placement without limits is as good as any can be.
//!
//! Whatever positions one may choose for the labels, as long as each lies a
//! separation after the one before, some label ends up at least as far from
//! where it would like to be as any label of the placement does.

use crate::model::{flatten, placement, spaced, sweep, ClusterView};
use crate::offsets::{attains, faithful, lemma_sweep_tracks, lemma_tracks_all, offset_at, tracks};
use crate::order::{lemma_flatten_orderly, lemma_spaced_apart, lemma_sweep_orderly, orderly};
use vstd::math::abs;
use vstd::prelude::*;

verus! {

/// Whether label `i` at `permitted` lies no further from where it would like
/// to be than some label does at `other`.
pub open spec fn matched(
    preferred: Seq<int>,
    permitted: Seq<int>,
    other: Seq<int>,
    i: int,
) -> bool {
    exists|j: int|
        0 <= j < preferred.len() && abs(permitted[i] - preferred[i]) <= abs(
            #[trigger] other[j] - preferred[j],
        )
}

/// Whether `permitted` minimises the maximum absolute offset of any label from
/// its preferred position: whatever other positions one takes for the labels,
/// as long as they lie a separation apart, each label at `permitted` lies no
/// further from where it would like to be than some label does at the other
/// positions.
pub open spec fn unbeaten(preferred: Seq<int>, permitted: Seq<int>, separation: int) -> bool {
    forall|other: Seq<int>, i: int|
        other.len() == preferred.len() && spaced(other, separation) && 0 <= i < preferred.len()
            ==> #[trigger] matched(preferred, permitted, other, i)
}

/// A part of values that lie a separation apart lies a separation apart.
proof fn lemma_spaced_part(values: Seq<int>, separation: int, from: int, to: int)
    requires
        spaced(values, separation),
        0 <= from <= to <= values.len(),
    ensures
        spaced(values.subrange(from, to), separation),
{
}

/// Within a balanced cluster no label lies further from where it would like
/// to be than some label does in any other choice of positions that lie a
/// separation apart. The result is such a label.
proof fn lemma_cluster_is_best(
    cluster: ClusterView,
    own: Seq<int>,
    separation: int,
    other: Seq<int>,
    i: int,
) -> (j: int)
    requires
        separation > 0,
        cluster.balanced(),
        faithful(cluster, own, separation, None),
        other.len() == own.len(),
        spaced(other, separation),
        0 <= i < own.len(),
    ensures
        0 <= j < own.len(),
        abs(offset_at(cluster, own, separation, i)) <= abs(other[j] - own[j]),
{
    let (low, high) = choose|low: int, high: int|
        attains(cluster, own, separation, None, low, high);
    lemma_spaced_apart(other, separation, low, high);
    assert(high * separation - low * separation == (high - low) * separation)
        by (nonlinear_arith);
    assert((other[high] - own[high]) - (other[low] - own[low]) >= cluster.max_offset
        - cluster.min_offset);
    if abs(offset_at(cluster, own, separation, i)) <= abs(other[low] - own[low]) {
        low
    } else {
        high
    }
}

/// The same for a whole stack: no label of its flattening lies further from
/// where it would like to be than some label does in any other choice of
/// positions that lie a separation apart. The result is such a label.
proof fn lemma_stack_is_best(
    stack: Seq<ClusterView>,
    preferred: Seq<int>,
    separation: int,
    other: Seq<int>,
    i: int,
) -> (j: int)
    requires
        separation > 0,
        orderly(stack, separation, None),
        tracks(stack, preferred, separation, None),
        other.len() == preferred.len(),
        spaced(other, separation),
        0 <= i < preferred.len(),
    ensures
        0 <= j < preferred.len(),
        flatten(stack, separation).len() == preferred.len(),
        abs(flatten(stack, separation)[i] - preferred[i]) <= abs(other[j] - preferred[j]),
    decreases stack.len(),
{
    let top = stack.last();
    let below = stack.drop_last();
    let cut = preferred.len() - top.count(separation);
    let rest = preferred.take(cut);
    let own = preferred.skip(cut);
    let flat = flatten(stack, separation);
    let low = flatten(below, separation);
    assert(orderly(below, separation, None));
    assert(low.len() == cut) by {
        lemma_flatten_orderly(below, separation, None);
        lemma_tracks_all(below, rest, separation, None);
    }
    assert(top.balanced());
    if i >= cut {
        assert(flat[i] - preferred[i] == offset_at(top, own, separation, i - cut));
        lemma_spaced_part(other, separation, cut, other.len() as int);
        let k = lemma_cluster_is_best(top, own, separation, other.skip(cut), i - cut);
        cut + k
    } else {
        lemma_spaced_part(other, separation, 0, cut);
        let j = lemma_stack_is_best(below, rest, separation, other.take(cut), i);
        assert(other.take(cut)[j] == other[j] && rest[j] == preferred[j] && rest[i]
            == preferred[i]);
        j
    }
}

/// The placement without limits minimises the maximum absolute offset of any
/// label from its preferred position. Here for one label and one choice of
/// other positions: take any positions for the labels that lie a separation
/// apart, and any label of the placement; then some label at the other
/// positions is at least as far from where it would like to be.
pub proof fn lemma_placement_is_best(
    preferred: Seq<int>,
    separation: int,
    other: Seq<int>,
    i: int,
)
    requires
        separation > 0,
        other.len() == preferred.len(),
        spaced(other, separation),
        0 <= i < preferred.len(),
    ensures
        placement(preferred, separation, None).len() == preferred.len(),
        matched(preferred, placement(preferred, separation, None), other, i),
{
    let stack = sweep(preferred, separation, None);
    lemma_sweep_orderly(preferred, separation, None);
    lemma_sweep_tracks(preferred, separation, None);
    let j = lemma_stack_is_best(stack, preferred, separation, other, i);
}

/// The placement without limits minimises the maximum absolute offset of any
/// label from its preferred position. Here for all labels and every choice of
/// other positions at once.
pub proof fn lemma_placement_unbeaten(preferred: Seq<int>, separation: int)
    requires
        separation > 0,
    ensures
        unbeaten(preferred, placement(preferred, separation, None), separation),
{
    let placed = placement(preferred, separation, None);
    assert forall|other: Seq<int>, i: int|
        other.len() == preferred.len() && spaced(other, separation) && 0 <= i
            < preferred.len() implies #[trigger] matched(preferred, placed, other, i) by {
        lemma_placement_is_best(preferred, separation, other, i);
    }
}

} // verus!
