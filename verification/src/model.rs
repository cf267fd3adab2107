//! The placement as mathematics.
//!
//! Everything here is specification: clusters over unbounded integers, the
//! sweep that stacks and merges them, and the positions read off the final
//! stack. The executable code is proved to compute exactly these functions.

use vstd::prelude::*;

verus! {

/// Half of `sum`, rounded toward zero: `3` gives `1` and `-3` gives `-1`.
pub open spec fn half_toward_zero(sum: int) -> int {
    if sum >= 0 {
        sum / 2
    } else {
        -((-sum) / 2)
    }
}

/// An inclusive range that permitted positions should stay in.
pub struct Limits {
    /// The lowest position wanted.
    pub min: int,
    /// The highest position allowed.
    pub max: int,
}

/// The limits `min` and `max`, as the sweep takes them.
pub open spec fn between(min: int, max: int) -> Option<Limits> {
    Some(Limits { min, max })
}

/// A run of neighbouring labels whose permitted positions lie exactly one
/// separation apart.
pub struct ClusterView {
    /// The permitted position of the first label.
    pub start: int,
    /// The permitted position of the last label.
    pub end: int,
    /// The least offset, permitted minus preferred, of any label in the run.
    pub min_offset: int,
    /// The greatest such offset.
    pub max_offset: int,
}

impl ClusterView {
    /// The cluster of one label that sits at its preferred position.
    pub open spec fn single(position: int) -> ClusterView {
        ClusterView { start: position, end: position, min_offset: 0, max_offset: 0 }
    }

    /// The cluster moved by `offset`: every label moves, so both ends and both
    /// offsets change by the same amount.
    pub open spec fn shift(self, offset: int) -> ClusterView {
        ClusterView {
            start: self.start + offset,
            end: self.end + offset,
            min_offset: self.min_offset + offset,
            max_offset: self.max_offset + offset,
        }
    }

    /// How far the offsets are from being centred on zero.
    pub open spec fn imbalance(self) -> int {
        half_toward_zero(self.min_offset + self.max_offset)
    }

    /// The cluster moved so that its offsets are centred on zero.
    pub open spec fn balance(self) -> ClusterView {
        self.shift(-self.imbalance())
    }

    /// The two adjacent clusters before balancing: `first` is moved to end
    /// exactly one separation before `second` starts.
    pub open spec fn join(first: ClusterView, second: ClusterView, separation: int) -> ClusterView {
        let moved = first.shift(second.start - first.end - separation);
        ClusterView {
            start: moved.start,
            end: second.end,
            min_offset: vstd::math::min(moved.min_offset, second.min_offset),
            max_offset: vstd::math::max(moved.max_offset, second.max_offset),
        }
    }

    /// The balanced cluster that holds the labels of `first` followed by those
    /// of `second`.
    pub open spec fn merge(
        first: ClusterView,
        second: ClusterView,
        separation: int,
    ) -> ClusterView {
        ClusterView::join(first, second, separation).balance()
    }

    /// The cluster after its start was raised to `min`, where it lay below.
    pub open spec fn raise(self, min: int) -> ClusterView {
        if self.start < min {
            self.shift(min - self.start)
        } else {
            self
        }
    }

    /// The cluster after its end was lowered to `max`, where it lay above.
    pub open spec fn lower(self, max: int) -> ClusterView {
        if self.end > max {
            self.shift(max - self.end)
        } else {
            self
        }
    }

    /// The cluster moved into `min..=max`. It is raised first and lowered
    /// second, so a cluster longer than the range ends at `max` and starts
    /// below `min`.
    pub open spec fn limit(self, min: int, max: int) -> ClusterView {
        self.raise(min).lower(max)
    }

    /// The cluster moved into `limits`, where there are any.
    pub open spec fn confine(self, limits: Option<Limits>) -> ClusterView {
        match limits {
            Some(l) => self.limit(l.min, l.max),
            None => self,
        }
    }

    /// The number of positions from `start` to `end` in steps of `separation`.
    pub open spec fn count(self, separation: int) -> nat {
        if self.start <= self.end {
            ((self.end - self.start) / separation + 1) as nat
        } else {
            0
        }
    }

    /// The positions from `start` to `end` in steps of `separation`.
    pub open spec fn positions(self, separation: int) -> Seq<int> {
        Seq::new(self.count(separation), |k: int| self.start + k * separation)
    }

    /// What holds of every cluster that the sweep makes: its length is a whole
    /// number of separations, and its least offset is no more than its greatest.
    pub open spec fn regular(self, separation: int) -> bool {
        &&& self.start <= self.end
        &&& (self.end - self.start) % separation == 0
        &&& self.min_offset <= self.max_offset
    }

    /// The offsets are centred on zero, as closely as whole numbers allow.
    pub open spec fn balanced(self) -> bool {
        -1 <= self.min_offset + self.max_offset <= 1
    }

    /// The cluster ends no higher than `limits.max`, and starts no lower than
    /// `limits.min` unless it is longer than the range.
    pub open spec fn honours(self, limits: Limits) -> bool {
        &&& self.end <= limits.max
        &&& self.end - self.start <= limits.max - limits.min ==> limits.min <= self.start
    }
}

/// The stack after `cluster` has arrived: while the topmost cluster is less
/// than one separation below `cluster`, it is taken off and merged into it;
/// then `cluster` goes on top.
pub open spec fn absorb(
    stack: Seq<ClusterView>,
    cluster: ClusterView,
    separation: int,
    limits: Option<Limits>,
) -> Seq<ClusterView>
    decreases stack.len(),
{
    if stack.len() > 0 && stack.last().end + separation > cluster.start {
        absorb(
            stack.drop_last(),
            ClusterView::merge(stack.last(), cluster, separation).confine(limits),
            separation,
            limits,
        )
    } else {
        stack.push(cluster)
    }
}

/// The stack of clusters after one pass over `preferred`, first label first.
pub open spec fn sweep(preferred: Seq<int>, separation: int, limits: Option<Limits>) -> Seq<
    ClusterView,
>
    decreases preferred.len(),
{
    if preferred.len() == 0 {
        Seq::empty()
    } else {
        absorb(
            sweep(preferred.drop_last(), separation, limits),
            ClusterView::single(preferred.last()).confine(limits),
            separation,
            limits,
        )
    }
}

/// The positions of all clusters of `stack`, bottom cluster first.
pub open spec fn flatten(stack: Seq<ClusterView>, separation: int) -> Seq<int>
    decreases stack.len(),
{
    if stack.len() == 0 {
        Seq::empty()
    } else {
        flatten(stack.drop_last(), separation) + stack.last().positions(separation)
    }
}

/// The number of labels that the clusters of `stack` hold together.
pub open spec fn members(stack: Seq<ClusterView>, separation: int) -> nat
    decreases stack.len(),
{
    if stack.len() == 0 {
        0
    } else {
        members(stack.drop_last(), separation) + stack.last().count(separation)
    }
}

/// The permitted positions for labels that would like to sit at `preferred`.
pub open spec fn placement(preferred: Seq<int>, separation: int, limits: Option<Limits>) -> Seq<
    int,
> {
    flatten(sweep(preferred, separation, limits), separation)
}

/// Whether no value is less than one before it.
pub open spec fn ascending(values: Seq<int>) -> bool {
    forall|i: int, j: int| 0 <= i <= j < values.len() ==> values[i] <= values[j]
}

/// Whether each value lies at least one separation after the one before.
pub open spec fn spaced(values: Seq<int>, separation: int) -> bool {
    forall|i: int| 0 < i < values.len() ==> values[i - 1] + separation <= #[trigger] values[i]
}

/// Whether all values are the same.
pub open spec fn level(values: Seq<int>) -> bool {
    forall|i: int| 0 <= i < values.len() ==> #[trigger] values[i] == values[0]
}

/// Whether every value lies within the limits, where there are any.
pub open spec fn inside(values: Seq<int>, limits: Option<Limits>) -> bool {
    limits matches Some(l) ==> forall|i: int|
        0 <= i < values.len() ==> l.min <= #[trigger] values[i] <= l.max
}

/// The sequence read as mathematical integers.
pub open spec fn ints(values: Seq<i32>) -> Seq<int> {
    values.map_values(|v: i32| v as int)
}

} // verus!
