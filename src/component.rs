//! The state the orchestration keeps besides the grid: the obstacles and
//! the two selected endpoints.
use vstd::prelude::*;
use crate::path_finder::{Coord, holds};

verus! {

/// Marks the camera that the grid is seen through.
pub struct Camera;

/// The cells currently blocked.
pub struct GridBlock {
    pub block: Vec<Coord>,
}

impl Default for GridBlock {
    fn default() -> (r: Self)
        ensures
            r.block@.len() == 0,
    {
        GridBlock { block: Vec::new() }
    }
}

impl GridBlock {
    /// Adds `c` to the obstacles, once.
    pub fn insert(&mut self, c: Coord)
        ensures
            forall|d: Coord| #[trigger] final(self).block@.contains(d) <==> (old(self).block@.contains(d) || d == c),
    {
        if !holds(&self.block, &c) {
            let ghost before = self.block@;
            self.block.push(c);
            proof {
                assert forall|d: Coord| #[trigger] self.block@.contains(d) <==> (before.contains(d) || d == c) by {
                    if d == c {
                        assert(self.block@[before.len() as int] == d);
                    }
                    if before.contains(d) {
                        let j = choose|j: int| 0 <= j < before.len() && before[j] == d;
                        assert(self.block@[j] == d);
                    }
                    if self.block@.contains(d) {
                        let j = choose|j: int| 0 <= j < self.block@.len() && self.block@[j] == d;
                        if j < before.len() {
                            assert(before[j] == d);
                        }
                    }
                }
            }
        }
    }

    /// Whether `c` is an obstacle.
    pub fn contains(&self, c: Coord) -> (r: bool)
        ensures
            r == self.block@.contains(c),
    {
        holds(&self.block, &c)
    }

    /// A copy of the obstacle list.
    pub fn to_vec(&self) -> (r: Vec<Coord>)
        ensures
            r@ == self.block@,
    {
        let mut r: Vec<Coord> = Vec::new();
        let mut k: usize = 0;
        while k < self.block.len()
            invariant
                k <= self.block.len(),
                r@ == self.block@.take(k as int),
            decreases self.block.len() - k,
        {
            r.push(self.block[k]);
            k = k + 1;
            assert(r@ == self.block@.take(k as int));
        }
        assert(self.block@.take(self.block.len() as int) == self.block@);
        r
    }

    /// Removes every obstacle.
    pub fn clear(&mut self)
        ensures
            final(self).block@.len() == 0,
    {
        self.block = Vec::new();
    }
}

/// The selected start and end cells, each unset until chosen.
pub struct GridPath {
    pub start_pos: Option<Coord>,
    pub end_pos: Option<Coord>,
}

impl Default for GridPath {
    fn default() -> (r: Self)
        ensures
            r.start_pos is None,
            r.end_pos is None,
    {
        GridPath { start_pos: None, end_pos: None }
    }
}

} // verus!
