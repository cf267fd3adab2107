//! Functions for vertical label placement that minimise the maximum absolute
//! offset of any label from its preferred position, while respecting limits on
//! how high or low labels may be placed.
//!
//! Each function takes the preferred positions of the labels, which are meant
//! to come in ascending order, and returns as many permitted positions, label
//! for label, that lie at least a minimum separation apart.
//!
//! - [`model`] defines the result, for all integers.
//! - [`laws`] and [`optimal`] prove what holds of every result: the labels
//!   keep their order and their distance, limits are honoured, and without
//!   limits no other positions leave the worst-placed label closer to where it
//!   would like to be.
//! - [`order`] and [`offsets`] hold the invariants of the sweep that those
//!   proofs rest on.
//! - [`reach`] describes the inputs for which the work can be done in `i32`.
//! - [`cluster`] and [`cluster_list`] hold the executable pieces.

use crate::cluster::Cluster;
use crate::cluster_list::ClusterList;
use crate::laws::{
    lemma_placement_honours_limits, lemma_placement_of_level, lemma_placement_of_spaced,
    lemma_placement_separated,
};
use crate::model::{absorb, between, inside, ints, level, placement, spaced, sweep, Limits};
use crate::optimal::{lemma_placement_unbeaten, unbeaten};
use crate::reach::{absorbing, in_reach, lemma_arrive, lemma_settle, lemma_take_up, sweeping};
use vstd::prelude::*;

pub mod cluster;
pub mod cluster_list;
pub mod laws;
pub mod model;
pub mod offsets;
pub mod optimal;
pub mod order;
pub mod reach;

verus! {

/// The permitted positions are as many as the preferred ones, in ascending
/// order and a separation apart.
proof fn lemma_permitted_separated(
    positions: Seq<i32>,
    separation: int,
    limits: Option<Limits>,
    permitted: Seq<i32>,
)
    requires
        separation > 0,
        ints(permitted) == placement(ints(positions), separation, limits),
    ensures
        permitted.len() == positions.len(),
        forall|i: int, j: int| 0 <= i <= j < permitted.len() ==> permitted[i] <= permitted[j],
        forall|i: int|
            0 < i < permitted.len() ==> permitted[i - 1] + separation <= #[trigger] permitted[i],
{
    let placed = ints(permitted);
    lemma_placement_separated(ints(positions), separation, limits);
    assert forall|i: int, j: int| 0 <= i <= j < permitted.len() implies permitted[i]
        <= permitted[j] by {
        assert(placed[i] <= placed[j]);
    }
    assert forall|i: int| 0 < i < permitted.len() implies permitted[i - 1] + separation
        <= #[trigger] permitted[i] by {
        assert(placed[i - 1] + separation <= placed[i]);
    }
}

/// Preferred positions that lie a separation apart, within the limits where
/// there are any, come back as they are.
proof fn lemma_permitted_as_preferred(
    positions: Seq<i32>,
    separation: int,
    limits: Option<Limits>,
    permitted: Seq<i32>,
)
    requires
        separation > 0,
        ints(permitted) == placement(ints(positions), separation, limits),
    ensures
        spaced(ints(positions), separation) && inside(ints(positions), limits) ==> permitted
            == positions,
{
    if spaced(ints(positions), separation) && inside(ints(positions), limits) {
        lemma_placement_of_spaced(ints(positions), separation, limits);
        assert forall|i: int| 0 <= i < permitted.len() implies permitted[i] == positions[i] by {
            assert(ints(permitted)[i] == ints(positions)[i]);
        }
    }
}

/// Labels that all prefer one position are centred on it.
proof fn lemma_permitted_level(positions: Seq<i32>, separation: int, permitted: Seq<i32>)
    requires
        separation > 0,
        ints(permitted) == placement(ints(positions), separation, None),
    ensures
        level(ints(positions)) ==> forall|i: int|
            0 <= i < permitted.len() ==> #[trigger] permitted[i] == positions[0] - ((
            positions.len() - 1) * separation + 1) / 2 + i * separation,
{
    if level(ints(positions)) {
        lemma_placement_of_level(ints(positions), separation);
        assert forall|i: int| 0 <= i < permitted.len() implies #[trigger] permitted[i]
            == positions[0] - ((positions.len() - 1) * separation + 1) / 2 + i * separation by {
            assert(ints(permitted)[i] == permitted[i]);
        }
    }
}

/// No permitted position lies above the maximum, and none below the minimum
/// where all labels fit between the two.
proof fn lemma_permitted_within(
    positions: Seq<i32>,
    separation: int,
    limits: Limits,
    permitted: Seq<i32>,
)
    requires
        separation > 0,
        ints(permitted) == placement(ints(positions), separation, Some(limits)),
    ensures
        forall|i: int| 0 <= i < permitted.len() ==> #[trigger] permitted[i] <= limits.max,
        (positions.len() - 1) * separation <= limits.max - limits.min ==> forall|i: int|
            0 <= i < permitted.len() ==> limits.min <= #[trigger] permitted[i],
{
    let placed = placement(ints(positions), separation, Some(limits));
    lemma_placement_separated(ints(positions), separation, Some(limits));
    lemma_placement_honours_limits(ints(positions), separation, limits);
    assert forall|i: int| 0 <= i < permitted.len() implies #[trigger] permitted[i]
        <= limits.max by {
        assert(placed[i] == permitted[i]);
    }
    if (positions.len() - 1) * separation <= limits.max - limits.min {
        assert forall|i: int| 0 <= i < permitted.len() implies limits.min
            <= #[trigger] permitted[i] by {
            assert(placed[i] == permitted[i]);
        }
    }
}

/// Places labels, respecting a minimum separation.
///
/// The permitted positions are those of [`placement`] without limits. They
/// are as many as the preferred positions, in ascending order, and each lies
/// at least `separation` after the one before. No other such positions leave
/// the label that is furthest from its preferred position any closer to it.
/// Preferred positions that already lie `separation` apart are returned as
/// they are, and labels that all prefer one position are centred on it.
///
/// The preferred positions are meant to come in ascending order, so that the
/// labels keep the order that they would like to have. Nothing here depends
/// on it: all of the above holds of positions in any order.
///
/// The separation must be positive and the arguments in reach, which
/// [`reach::can_place`] tells.
pub fn place(positions: &[i32], separation: i32) -> (permitted: Vec<i32>)
    requires
        separation > 0,
        in_reach(ints(positions@), separation as int, None),
    ensures
        ints(permitted@) == placement(ints(positions@), separation as int, None),
        permitted@.len() == positions@.len(),
        forall|i: int, j: int| 0 <= i <= j < permitted@.len() ==> permitted@[i] <= permitted@[j],
        forall|i: int|
            0 < i < permitted@.len() ==> permitted@[i - 1] + separation <= #[trigger] permitted@[i],
        unbeaten(ints(positions@), ints(permitted@), separation as int),
        spaced(ints(positions@), separation as int) ==> permitted@ == positions@,
        level(ints(positions@)) ==> forall|i: int|
            0 <= i < permitted@.len() ==> #[trigger] permitted@[i] == positions@[0] - ((
            positions@.len() - 1) * separation + 1) / 2 + i * separation,
{
    let ghost preferred = ints(positions@);
    let mut clusters = ClusterList::new(separation, positions.len());

    for position in it: positions
        invariant
            separation > 0,
            preferred == ints(positions@),
            in_reach(preferred, separation as int, None),
            it.seq().len() == positions@.len(),
            forall|k: int| 0 <= k < positions@.len() ==> *it.seq()[k] == positions@[k],
            clusters.separation() == separation,
            clusters@ == sweep(preferred.take(it.index() as int), separation as int, None),
            sweeping(clusters@, separation as int, it.index() as int),
    {
        let ghost done = it.index() as int;
        let mut cluster = Cluster::new(*position);
        proof {
            lemma_arrive(preferred, separation as int, None, done);
        }

        loop
            invariant
                separation > 0,
                0 <= done < preferred.len(),
                in_reach(preferred, separation as int, None),
                clusters.separation() == separation,
                absorbing(clusters@, cluster@, separation as int, done),
                sweep(preferred.take(done + 1), separation as int, None) == absorb(
                    clusters@,
                    cluster@,
                    separation as int,
                    None,
                ),
            ensures
                clusters.separation() == separation,
                sweeping(clusters@.push(cluster@), separation as int, done + 1),
                clusters@.push(cluster@) == sweep(
                    preferred.take(done + 1),
                    separation as int,
                    None,
                ),
            decreases clusters@.len(),
        {
            let ghost stack = clusters@;
            match clusters.pop_if_not_separate(cluster) {
                Some(previous) => {
                    proof {
                        lemma_take_up(
                            stack,
                            cluster@,
                            separation as int,
                            None,
                            done,
                            preferred.len() as int,
                        );
                    }
                    cluster = Cluster::merge(previous, cluster, separation);
                },
                None => {
                    proof {
                        lemma_settle(clusters@, cluster@, separation as int, None, done);
                    }
                    break ;
                },
            }
        }

        clusters.push(cluster);
    }

    proof {
        assert(preferred.take(preferred.len() as int) == preferred);
    }
    let permitted = clusters.positions();
    proof {
        lemma_permitted_separated(positions@, separation as int, None, permitted@);
        lemma_placement_unbeaten(preferred, separation as int);
        lemma_permitted_as_preferred(positions@, separation as int, None, permitted@);
        lemma_permitted_level(positions@, separation as int, permitted@);
    }
    permitted
}

/// Places labels, respecting a minimum separation and minimum and maximum
/// positions.
///
/// The permitted positions are those of [`placement`] within the limits
/// `min` and `max`. They are as many as the preferred positions, in ascending
/// order, each lies at least `separation` after the one before, and none lies
/// above `max`. None lies below `min` either where all labels fit between the
/// limits. Note that if the limits do not provide sufficient space for all the
/// labels, only the maximum limit will be respected. Preferred positions that
/// already lie `separation` apart and within the limits are returned as they
/// are.
///
/// As for [`place`], the preferred positions are meant to come in ascending
/// order, and nothing here depends on it.
///
/// The separation must be positive and the arguments in reach, which
/// [`reach::can_place_with_limits`] tells.
pub fn place_with_limits(positions: &[i32], separation: i32, min: i32, max: i32) -> (permitted:
    Vec<i32>)
    requires
        separation > 0,
        in_reach(ints(positions@), separation as int, between(min as int, max as int)),
    ensures
        ints(permitted@) == placement(
            ints(positions@),
            separation as int,
            between(min as int, max as int),
        ),
        permitted@.len() == positions@.len(),
        forall|i: int, j: int| 0 <= i <= j < permitted@.len() ==> permitted@[i] <= permitted@[j],
        forall|i: int|
            0 < i < permitted@.len() ==> permitted@[i - 1] + separation <= #[trigger] permitted@[i],
        forall|i: int| 0 <= i < permitted@.len() ==> #[trigger] permitted@[i] <= max,
        (positions@.len() - 1) * separation <= max - min ==> forall|i: int|
            0 <= i < permitted@.len() ==> min <= #[trigger] permitted@[i],
        spaced(ints(positions@), separation as int) && inside(
            ints(positions@),
            between(min as int, max as int),
        ) ==> permitted@ == positions@,
{
    let ghost preferred = ints(positions@);
    let ghost limits = between(min as int, max as int);
    let mut clusters = ClusterList::new(separation, positions.len());

    for position in it: positions
        invariant
            separation > 0,
            preferred == ints(positions@),
            limits == between(min as int, max as int),
            in_reach(preferred, separation as int, limits),
            it.seq().len() == positions@.len(),
            forall|k: int| 0 <= k < positions@.len() ==> *it.seq()[k] == positions@[k],
            clusters.separation() == separation,
            clusters@ == sweep(preferred.take(it.index() as int), separation as int, limits),
            sweeping(clusters@, separation as int, it.index() as int),
    {
        let ghost done = it.index() as int;
        proof {
            lemma_arrive(preferred, separation as int, limits, done);
        }
        let mut cluster = Cluster::new(*position).limit(min, max);

        loop
            invariant
                separation > 0,
                0 <= done < preferred.len(),
                limits == between(min as int, max as int),
                in_reach(preferred, separation as int, limits),
                clusters.separation() == separation,
                absorbing(clusters@, cluster@, separation as int, done),
                sweep(preferred.take(done + 1), separation as int, limits) == absorb(
                    clusters@,
                    cluster@,
                    separation as int,
                    limits,
                ),
            ensures
                clusters.separation() == separation,
                sweeping(clusters@.push(cluster@), separation as int, done + 1),
                clusters@.push(cluster@) == sweep(
                    preferred.take(done + 1),
                    separation as int,
                    limits,
                ),
            decreases clusters@.len(),
        {
            let ghost stack = clusters@;
            match clusters.pop_if_not_separate(cluster) {
                Some(previous) => {
                    proof {
                        lemma_take_up(
                            stack,
                            cluster@,
                            separation as int,
                            limits,
                            done,
                            preferred.len() as int,
                        );
                    }
                    cluster = Cluster::merge(previous, cluster, separation).limit(min, max);
                },
                None => {
                    proof {
                        lemma_settle(clusters@, cluster@, separation as int, limits, done);
                    }
                    break ;
                },
            }
        }

        clusters.push(cluster);
    }

    proof {
        assert(preferred.take(preferred.len() as int) == preferred);
    }
    let permitted = clusters.positions();
    proof {
        lemma_permitted_separated(positions@, separation as int, limits, permitted@);
        lemma_permitted_as_preferred(positions@, separation as int, limits, permitted@);
        lemma_permitted_within(positions@, separation as int, limits->0, permitted@);
    }
    permitted
}

} // verus!
