//! What the offsets of a cluster stand for.
//!
//! A cluster carries two numbers about labels that it no longer holds one by
//! one: the least and the greatest offset of any of them. This module ties
//! those numbers back to the labels, through the sweep.

use crate::model::{absorb, members, sweep, ClusterView, Limits};
use crate::order::{
    lemma_confine_settles, lemma_length_regular, lemma_merge_regular, lemma_regular_length,
    lemma_shift_keeps_shape, lemma_sweep_orderly, orderly,
};
use vstd::prelude::*;

verus! {

/// How far label `i` of `cluster` lies from where it would like to be, where
/// the labels of the cluster prefer the positions `own`.
pub open spec fn offset_at(cluster: ClusterView, own: Seq<int>, separation: int, i: int) -> int {
    cluster.start + i * separation - own[i]
}

/// Whether labels `i` and `j` have the least and the greatest offset of
/// `cluster`. Without limits the first of them comes no later than the second.
pub open spec fn attains(
    cluster: ClusterView,
    own: Seq<int>,
    separation: int,
    limits: Option<Limits>,
    i: int,
    j: int,
) -> bool {
    &&& 0 <= i < own.len()
    &&& 0 <= j < own.len()
    &&& offset_at(cluster, own, separation, i) == cluster.min_offset
    &&& offset_at(cluster, own, separation, j) == cluster.max_offset
    &&& limits is None ==> i <= j
}

/// Whether `cluster` holds one label for each position of `own`, and its two
/// offsets are the least and the greatest offset among those labels.
pub open spec fn faithful(
    cluster: ClusterView,
    own: Seq<int>,
    separation: int,
    limits: Option<Limits>,
) -> bool {
    &&& own.len() == cluster.count(separation)
    &&& forall|i: int|
        0 <= i < own.len() ==> cluster.min_offset <= #[trigger] offset_at(
            cluster,
            own,
            separation,
            i,
        ) <= cluster.max_offset
    &&& exists|i: int, j: int| attains(cluster, own, separation, limits, i, j)
}

/// Whether the clusters of `stack` share out the labels that prefer
/// `preferred`, bottom cluster first, and each is faithful to its share.
pub open spec fn tracks(
    stack: Seq<ClusterView>,
    preferred: Seq<int>,
    separation: int,
    limits: Option<Limits>,
) -> bool
    decreases stack.len(),
{
    if stack.len() == 0 {
        preferred.len() == 0
    } else {
        let held = stack.last().count(separation) as int;
        &&& held <= preferred.len()
        &&& faithful(stack.last(), preferred.skip(preferred.len() - held), separation, limits)
        &&& tracks(stack.drop_last(), preferred.take(preferred.len() - held), separation, limits)
    }
}

/// Moving a faithful cluster leaves it faithful.
pub proof fn lemma_shift_faithful(
    cluster: ClusterView,
    own: Seq<int>,
    separation: int,
    limits: Option<Limits>,
    offset: int,
)
    requires
        faithful(cluster, own, separation, limits),
    ensures
        faithful(cluster.shift(offset), own, separation, limits),
{
    let moved = cluster.shift(offset);
    let (i, j) = choose|i: int, j: int| attains(cluster, own, separation, limits, i, j);
    lemma_shift_keeps_shape(cluster, offset, separation);
    assert forall|k: int| 0 <= k < own.len() implies moved.min_offset <= #[trigger] offset_at(
        moved,
        own,
        separation,
        k,
    ) <= moved.max_offset by {
        assert(offset_at(moved, own, separation, k) == offset_at(cluster, own, separation, k)
            + offset);
    }
    assert(attains(moved, own, separation, limits, i, j));
}

/// Confining a faithful cluster leaves it faithful.
pub proof fn lemma_confine_faithful(
    cluster: ClusterView,
    own: Seq<int>,
    separation: int,
    limits: Option<Limits>,
)
    requires
        faithful(cluster, own, separation, limits),
    ensures
        faithful(cluster.confine(limits), own, separation, limits),
{
    if let Some(l) = limits {
        let raised = cluster.raise(l.min);
        lemma_shift_faithful(cluster, own, separation, limits, l.min - cluster.start);
        lemma_shift_faithful(raised, own, separation, limits, l.max - raised.end);
    }
}

/// Merging two faithful clusters gives a cluster that is faithful to the
/// labels of both. Without limits this needs the two to be balanced and too
/// close: then the least offset cannot come from the second cluster while the
/// greatest comes from the first.
pub proof fn lemma_merge_faithful(
    first: ClusterView,
    held: Seq<int>,
    second: ClusterView,
    own: Seq<int>,
    separation: int,
    limits: Option<Limits>,
)
    requires
        separation > 0,
        first.regular(separation),
        second.regular(separation),
        faithful(first, held, separation, limits),
        faithful(second, own, separation, limits),
        limits is None ==> first.balanced() && second.balanced() && first.end + separation
            > second.start,
    ensures
        faithful(
            ClusterView::merge(first, second, separation).confine(limits),
            held + own,
            separation,
            limits,
        ),
{
    let gap = second.start - first.end - separation;
    let moved = first.shift(gap);
    let joined = ClusterView::join(first, second, separation);
    let all = held + own;
    let a = held.len() as int;
    // The labels of `first` move by `gap`; those of `second` stay.
    lemma_regular_length(first, separation);
    lemma_regular_length(second, separation);
    lemma_merge_regular(first, second, separation);
    lemma_shift_keeps_shape(joined, -joined.imbalance(), separation);
    assert(joined.start + a * separation == second.start) by (nonlinear_arith)
        requires
            joined.start == first.start + second.start - first.end - separation,
            first.end - first.start == (a - 1) * separation,
    ;
    assert forall|k: int| 0 <= k < all.len() implies offset_at(joined, all, separation, k) == (if k
        < a {
        offset_at(first, held, separation, k) + gap
    } else {
        offset_at(second, own, separation, k - a)
    }) by {
        if k >= a {
            assert(joined.start + k * separation == second.start + (k - a) * separation)
                by (nonlinear_arith)
                requires
                    joined.start + a * separation == second.start,
            ;
        }
    }
    assert forall|k: int| 0 <= k < all.len() implies joined.min_offset <= #[trigger] offset_at(
        joined,
        all,
        separation,
        k,
    ) <= joined.max_offset by {
        if k >= a {
            assert(second.min_offset <= offset_at(second, own, separation, k - a)
                <= second.max_offset);
        }
    }
    // The least offset is taken from `first` where it can be, the greatest
    // from `second`. Greatest from `first` and least from `second` would put
    // the offsets of `first`, moved down by at least one, wholly above those
    // of `second`, which cannot be of two balanced clusters.
    let (i1, j1) = choose|i: int, j: int| attains(first, held, separation, limits, i, j);
    let (i2, j2) = choose|i: int, j: int| attains(second, own, separation, limits, i, j);
    let i = if moved.min_offset <= second.min_offset {
        i1
    } else {
        a + i2
    };
    let j = if second.max_offset >= moved.max_offset {
        a + j2
    } else {
        j1
    };
    assert(attains(joined, all, separation, limits, i, j));
    lemma_shift_faithful(joined, all, separation, limits, -joined.imbalance());
    lemma_confine_faithful(ClusterView::merge(first, second, separation), all, separation, limits);
}

/// Absorbing a faithful cluster into a stack that tracks the labels before
/// gives a stack that tracks them all.
pub proof fn lemma_absorb_tracks(
    stack: Seq<ClusterView>,
    cluster: ClusterView,
    before: Seq<int>,
    own: Seq<int>,
    separation: int,
    limits: Option<Limits>,
)
    requires
        separation > 0,
        orderly(stack, separation, limits),
        tracks(stack, before, separation, limits),
        cluster.regular(separation),
        cluster.balanced() || limits is Some,
        faithful(cluster, own, separation, limits),
    ensures
        tracks(absorb(stack, cluster, separation, limits), before + own, separation, limits),
    decreases stack.len(),
{
    let all = before + own;
    if stack.len() > 0 && stack.last().end + separation > cluster.start {
        let top = stack.last();
        let held = top.count(separation) as int;
        let share = before.skip(before.len() - held);
        let rest = before.take(before.len() - held);
        let merged = ClusterView::merge(top, cluster, separation);
        lemma_merge_regular(top, cluster, separation);
        lemma_confine_settles(merged, separation, limits);
        lemma_merge_faithful(top, share, cluster, own, separation, limits);
        lemma_absorb_tracks(
            stack.drop_last(),
            merged.confine(limits),
            rest,
            share + own,
            separation,
            limits,
        );
        assert(rest + (share + own) =~= all);
    } else {
        let pushed = stack.push(cluster);
        assert(pushed.drop_last() =~= stack);
        assert(all.skip(all.len() - own.len()) =~= own);
        assert(all.take(all.len() - own.len()) =~= before);
    }
}

/// The sweep leaves a stack that tracks every label: each cluster knows the
/// least and the greatest offset of the labels that it holds.
pub proof fn lemma_sweep_tracks(preferred: Seq<int>, separation: int, limits: Option<Limits>)
    requires
        separation > 0,
    ensures
        tracks(sweep(preferred, separation, limits), preferred, separation, limits),
    decreases preferred.len(),
{
    if preferred.len() > 0 {
        let before = preferred.drop_last();
        let own = seq![preferred.last()];
        let single = ClusterView::single(preferred.last());
        lemma_sweep_tracks(before, separation, limits);
        lemma_sweep_orderly(before, separation, limits);
        lemma_length_regular(single, separation, 1);
        assert(offset_at(single, own, separation, 0) == 0) by (nonlinear_arith)
            requires
                offset_at(single, own, separation, 0) == single.start + 0 * separation - own[0],
                single.start == own[0],
        ;
        assert(attains(single, own, separation, limits, 0, 0));
        lemma_confine_faithful(single, own, separation, limits);
        lemma_confine_settles(single, separation, limits);
        lemma_absorb_tracks(
            sweep(before, separation, limits),
            single.confine(limits),
            before,
            own,
            separation,
            limits,
        );
        assert(before + own =~= preferred);
    }
}

/// A stack that tracks labels holds as many as there are.
pub proof fn lemma_tracks_all(
    stack: Seq<ClusterView>,
    preferred: Seq<int>,
    separation: int,
    limits: Option<Limits>,
)
    requires
        tracks(stack, preferred, separation, limits),
    ensures
        members(stack, separation) == preferred.len(),
    decreases stack.len(),
{
    if stack.len() > 0 {
        let held = stack.last().count(separation) as int;
        lemma_tracks_all(
            stack.drop_last(),
            preferred.take(preferred.len() - held),
            separation,
            limits,
        );
    }
}

} // verus!
