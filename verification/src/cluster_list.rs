//! The stack of clusters that the sweep keeps.

use crate::cluster::{word, Cluster};
use crate::model::{flatten, ints, ClusterView};
use vstd::prelude::*;

verus! {

/// Represents a list of clusters, providing stack-like access.
pub struct ClusterList {
    /// The vector of clusters.
    vec: Vec<Cluster>,
    /// The minimum separation.
    separation: i32,
    /// The requested capacity.
    capacity: usize,
}

impl View for ClusterList {
    type V = Seq<ClusterView>;

    closed spec fn view(&self) -> Seq<ClusterView> {
        self.vec@.map_values(|cluster: Cluster| cluster@)
    }
}

/// A cluster holds `steps` positions where the step after that many from its
/// start is the first to pass its end.
proof fn lemma_count_steps(cluster: ClusterView, separation: int, steps: int)
    requires
        separation > 0,
        steps >= 1,
        cluster.start + (steps - 1) * separation <= cluster.end < cluster.start + steps
            * separation,
    ensures
        cluster.count(separation) == steps,
{
    let length = cluster.end - cluster.start;
    assert(steps * separation == (steps - 1) * separation + separation) by (nonlinear_arith);
    assert(0 <= (steps - 1) * separation) by (nonlinear_arith)
        requires
            steps >= 1,
            separation > 0,
    ;
    vstd::arithmetic::div_mod::lemma_fundamental_div_mod_converse(
        length,
        separation,
        steps - 1,
        length - (steps - 1) * separation,
    );
}

impl ClusterList {
    /// The minimum separation that the list was made with.
    pub closed spec fn separation(&self) -> int {
        self.separation as int
    }

    /// The capacity that the list was made with.
    pub closed spec fn capacity(&self) -> nat {
        self.capacity as nat
    }

    /// Creates a new list of clusters.
    ///
    /// Providing a capacity equal to the number of labels prevents reallocation
    /// of vectors in `push()` and `positions()`.
    pub fn new(separation: i32, capacity: usize) -> (list: ClusterList)
        ensures
            list@ == Seq::<ClusterView>::empty(),
            list.separation() == separation,
            list.capacity() == capacity,
    {
        ClusterList { vec: Vec::with_capacity(capacity), separation, capacity }
    }

    /// Pops and returns the last cluster from the list if it is not
    /// sufficiently separated from the specified cluster, and otherwise
    /// returns `None`.
    pub fn pop_if_not_separate(&mut self, cluster: Cluster) -> (popped: Option<Cluster>)
        requires
            old(self)@.len() > 0 ==> word(old(self)@.last().end + old(self).separation()),
        ensures
            final(self).separation() == old(self).separation(),
            final(self).capacity() == old(self).capacity(),
            match popped {
                Some(previous) => {
                    &&& old(self)@.len() > 0
                    &&& previous@ == old(self)@.last()
                    &&& previous@.end + old(self).separation() > cluster@.start
                    &&& final(self)@ == old(self)@.drop_last()
                },
                None => {
                    &&& final(self)@ == old(self)@
                    &&& old(self)@.len() > 0 ==> old(self)@.last().end + old(self).separation()
                        <= cluster@.start
                },
            },
    {
        if let Some(previous) = self.vec.last() {
            if previous.end + self.separation > cluster.start {
                return self.vec.pop();
            }
        }
        None
    }

    /// Pushes a cluster onto the end of the list.
    pub fn push(&mut self, cluster: Cluster)
        ensures
            final(self)@ == old(self)@.push(cluster@),
            final(self).separation() == old(self).separation(),
            final(self).capacity() == old(self).capacity(),
    {
        self.vec.push(cluster);
    }

    /// Transforms the list into a vector of permitted positions.
    pub fn positions(self) -> (positions: Vec<i32>)
        requires
            self.separation() > 0,
            forall|j: int|
                0 <= j < self@.len() && self@[j].start <= self@[j].end ==> word(
                    #[trigger] self@[j].end + self.separation(),
                ),
        ensures
            ints(positions@) == flatten(self@, self.separation()),
    {
        let ghost stack = self@;
        let separation = self.separation;
        let mut positions: Vec<i32> = Vec::with_capacity(self.capacity);

        for cluster in it: self.vec
            invariant
                separation > 0,
                it.seq().len() == stack.len(),
                forall|j: int| 0 <= j < stack.len() ==> (#[trigger] it.seq()[j])@ == stack[j],
                forall|j: int|
                    0 <= j < stack.len() && stack[j].start <= stack[j].end ==> word(
                        #[trigger] stack[j].end + separation,
                    ),
                ints(positions@) == flatten(stack.take(it.index() as int), separation as int),
        {
            let ghost done = positions@;
            let ghost below = stack.take(it.index() as int);
            let mut position = cluster.start;
            while position <= cluster.end
                invariant
                    separation > 0,
                    cluster@.start <= cluster@.end ==> word(cluster@.end + separation),
                    position >= cluster.start,
                    done.len() <= positions@.len(),
                    positions@.take(done.len() as int) == done,
                    position == cluster.start + (positions@.len() - done.len()) * separation,
                    positions@.len() > done.len() ==> position - separation <= cluster.end,
                    forall|i: int|
                        done.len() <= i < positions@.len() ==> #[trigger] positions@[i]
                            == cluster.start + (i - done.len()) * separation,
                decreases cluster.end - position + separation,
            {
                let ghost steps = positions@.len() - done.len();
                assert((steps + 1) * separation == steps * separation + separation)
                    by (nonlinear_arith);
                positions.push(position);
                position += separation;
            }
            proof {
                let steps = positions@.len() - done.len();
                if steps > 0 {
                    assert((steps - 1) * separation == steps * separation - separation)
                        by (nonlinear_arith);
                    lemma_count_steps(cluster@, separation as int, steps);
                } else {
                    assert(steps * separation == 0) by (nonlinear_arith)
                        requires
                            steps == 0,
                    ;
                }
                let next = stack.take(it.index() + 1);
                assert(next.drop_last() == below);
                let run = cluster@.positions(separation as int);
                assert forall|i: int| 0 <= i < positions@.len() implies ints(positions@)[i] == (
                ints(done) + run)[i] by {
                    if i >= done.len() {
                        assert(run[i - done.len()] == cluster@.start + (i - done.len())
                            * separation);
                    }
                }
            }
        }
        proof {
            assert(stack.take(stack.len() as int) == stack);
        }
        positions
    }
}

} // verus!
