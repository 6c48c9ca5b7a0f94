//! Paths over the grid, and the removal of corners from them.

use vstd::prelude::*;
use crate::vector::Vec3i;

verus! {

/// Why no path was found.
#[derive(Clone, Copy, Debug, PartialEq, Eq, Structural)]
pub enum PathfindingError {
    /// The tile of the start or of the end is blocked.
    Blocked,
    /// Every tile that can be reached from the start was visited, and the end
    /// was not among them.
    NoPath,
    /// The search gave up after visiting as many tiles as it is allowed to.
    IterationLimitExceeded,
}

/// A way over the grid: the centres of the tiles to walk through, from the
/// start to the end.
#[derive(Debug)]
pub struct Path {
    pub steps: Vec<Vec3i>,
}

impl View for Path {
    type V = Seq<Vec3i>;

    open spec fn view(&self) -> Seq<Vec3i> {
        self.steps@
    }
}

/// Whether the waypoint after `from` is a corner that can be cut: the
/// waypoints on either side of it differ in both X and Z.
pub open spec fn is_corner(steps: Seq<Vec3i>, from: int) -> bool {
    steps[from].x != steps[from + 2].x && steps[from].z != steps[from + 2].z
}

/// The waypoints that are left of `steps` once the corners from index `from`
/// on were cut. Where a corner is cut the scan goes on from the same index,
/// so the waypoint that moved up is looked at next.
pub open spec fn corners_cut(steps: Seq<Vec3i>, from: int) -> Seq<Vec3i>
    decreases steps.len() - from,
{
    if from < 0 || from + 2 >= steps.len() {
        steps
    } else if is_corner(steps, from) {
        corners_cut(steps.remove(from + 1), from)
    } else {
        corners_cut(steps, from + 1)
    }
}

/// Cutting corners keeps the first and the last waypoint and adds none.
pub proof fn lemma_corners_cut_keeps_ends(steps: Seq<Vec3i>, from: int)
    requires
        0 <= from,
    ensures
        corners_cut(steps, from).len() <= steps.len(),
        steps.len() > 0 ==> corners_cut(steps, from).len() > 0 && corners_cut(steps, from)[0]
            == steps[0] && corners_cut(steps, from).last() == steps.last(),
    decreases steps.len() - from,
{
    if from + 2 >= steps.len() {
    } else if is_corner(steps, from) {
        lemma_corners_cut_keeps_ends(steps.remove(from + 1), from);
    } else {
        lemma_corners_cut_keeps_ends(steps, from + 1);
    }
}

impl Path {
    /// Cut the corners of the path: wherever the waypoints before and after
    /// a waypoint differ in both X and Z, that waypoint is removed. Whether
    /// the shortcut crosses a blocked tile is not looked at.
    pub fn optimize_corners(&mut self)
        ensures
            final(self)@ == corners_cut(old(self)@, 0),
            final(self)@.len() <= old(self)@.len(),
            old(self)@.len() > 0 ==> final(self)@.len() > 0 && final(self)@[0] == old(self)@[0]
                && final(self)@.last() == old(self)@.last(),
    {
        proof {
            lemma_corners_cut_keeps_ends(self@, 0);
        }
        let mut i: usize = 0;
        while self.steps.len() >= 2 && i < self.steps.len() - 2
            invariant
                corners_cut(self@, i as int) == corners_cut(old(self)@, 0),
            decreases self.steps.len() - i,
        {
            let first_step = self.steps[i];
            let third_step = self.steps[i + 2];
            if first_step.x != third_step.x && first_step.z != third_step.z {
                self.steps.remove(i + 1);
            } else {
                i += 1;
            }
        }
    }
}

} // verus!
