//! Clusters as the machine holds them, in 32-bit integers.

use crate::model::ClusterView;
use vstd::prelude::*;

verus! {

/// Whether `value` can be held in an `i32`.
pub open spec fn word(value: int) -> bool {
    i32::MIN <= value <= i32::MAX
}

/// Whether all four numbers of `cluster` can be held in `i32`s.
pub open spec fn fits(cluster: ClusterView) -> bool {
    &&& word(cluster.start)
    &&& word(cluster.end)
    &&& word(cluster.min_offset)
    &&& word(cluster.max_offset)
}

/// Whether `cluster` can be balanced without leaving `i32` on the way.
pub open spec fn can_balance(cluster: ClusterView) -> bool {
    &&& word(cluster.min_offset + cluster.max_offset)
    &&& fits(cluster.balance())
}

/// Whether `cluster` can be moved into `min..=max` without leaving `i32` on
/// the way.
pub open spec fn can_limit(cluster: ClusterView, min: int, max: int) -> bool {
    let raised = cluster.raise(min);
    &&& cluster.start < min ==> word(min - cluster.start)
    &&& fits(raised)
    &&& raised.end > max ==> word(max - raised.end)
    &&& fits(raised.lower(max))
}

/// Whether `first` and `second` can be merged without leaving `i32` on the
/// way.
pub open spec fn can_merge(first: ClusterView, second: ClusterView, separation: int) -> bool {
    let gap = second.start - first.end - separation;
    &&& word(second.start - first.end)
    &&& word(gap)
    &&& fits(first.shift(gap))
    &&& can_balance(ClusterView::join(first, second, separation))
}

/// Represents a set of neighbouring labels whose permitted positions are
/// separated by exactly the minimum separation.
#[derive(Copy, Clone)]
pub struct Cluster {
    /// The start position.
    pub start: i32,
    /// The end position.
    pub end: i32,
    /// The minimum offset.
    pub min_offset: i32,
    /// The maximum offset.
    pub max_offset: i32,
}

impl View for Cluster {
    type V = ClusterView;

    open spec fn view(&self) -> ClusterView {
        ClusterView {
            start: self.start as int,
            end: self.end as int,
            min_offset: self.min_offset as int,
            max_offset: self.max_offset as int,
        }
    }
}

impl Cluster {
    /// Creates a new cluster containing a single position.
    pub fn new(position: i32) -> (cluster: Cluster)
        ensures
            cluster@ == ClusterView::single(position as int),
    {
        Cluster { start: position, end: position, min_offset: 0, max_offset: 0 }
    }

    /// Creates a new cluster by merging two neighbouring clusters.
    pub fn merge(mut first: Cluster, second: Cluster, separation: i32) -> (merged: Cluster)
        requires
            can_merge(first@, second@, separation as int),
        ensures
            merged@ == ClusterView::merge(first@, second@, separation as int),
    {
        first.shift(second.start - first.end - separation);

        Cluster {
            start: first.start,
            end: second.end,
            min_offset: first.min_offset.min(second.min_offset),
            max_offset: first.max_offset.max(second.max_offset),
        }.balance()
    }

    /// Moves the cluster by an offset.
    pub fn shift(&mut self, offset: i32)
        requires
            fits(old(self)@.shift(offset as int)),
        ensures
            final(self)@ == old(self)@.shift(offset as int),
    {
        self.start += offset;
        self.end += offset;
        self.min_offset += offset;
        self.max_offset += offset;
    }

    /// Shifts the cluster to minimise the sum of `min_offset` and `max_offset`.
    ///
    /// This is equivalent to minimising the maximum absolute offset within the
    /// cluster.
    pub fn balance(self) -> (balanced: Cluster)
        requires
            can_balance(self@),
        ensures
            balanced@ == self@.balance(),
            balanced@.balanced(),
    {
        let mut cluster = self;
        let imbalance: i32 = (cluster.min_offset + cluster.max_offset) / 2;

        if imbalance != 0 {
            cluster.shift(-imbalance);
        }
        cluster
    }

    /// Shifts the cluster to respect the limits.
    pub fn limit(self, min: i32, max: i32) -> (limited: Cluster)
        requires
            can_limit(self@, min as int, max as int),
        ensures
            limited@ == self@.limit(min as int, max as int),
            limited@.end <= max,
            self@.start <= self@.end <= self@.start + (max - min) ==> min <= limited@.start,
    {
        let mut cluster = self;
        if cluster.start < min {
            cluster.shift(min - cluster.start);
        }
        if cluster.end > max {
            cluster.shift(max - cluster.end);
        }
        cluster
    }
}

} // verus!
