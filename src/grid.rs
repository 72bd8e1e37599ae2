//! The grid of cells and the visual state of each.
use vstd::prelude::*;
use crate::path_finder::{Coord, in_grid, idx, lemma_idx};

verus! {

/// What a cell shows: nothing, an obstacle, a selected endpoint, or its
/// position along the current route.
#[derive(Clone, Copy, Debug, PartialEq, Eq, Structural)]
pub enum GridState {
    Idle,
    Blocked,
    Focus,
    Path(usize),
}

impl Default for GridState {
    fn default() -> (r: Self)
        ensures
            r == GridState::Idle,
    {
        GridState::Idle
    }
}

/// The colour a cell is drawn in.
#[derive(Clone, Copy, Debug, PartialEq, Eq, Structural)]
pub enum CellColor {
    Green,
    Red,
    White,
    Gray,
}

pub open spec fn color_of(s: GridState) -> CellColor {
    match s {
        GridState::Idle => CellColor::Green,
        GridState::Blocked => CellColor::Red,
        GridState::Focus => CellColor::White,
        GridState::Path(_) => CellColor::Gray,
    }
}

/// One cell: its column `x`, row `y`, drawn `size` in pixels, and state.
#[derive(Clone, Copy, Debug)]
pub struct Grid {
    pub x: usize,
    pub y: usize,
    pub size: u32,
    pub state: GridState,
}

impl Grid {
    pub fn new(x: usize, y: usize, size: u32) -> (r: Grid)
        ensures
            r.x == x,
            r.y == y,
            r.size == size,
            r.state == GridState::Idle,
    {
        Grid { x, y, size, state: GridState::default() }
    }

    pub fn color(&self) -> (r: CellColor)
        ensures
            r == color_of(self.state),
    {
        match self.state {
            GridState::Idle => CellColor::Green,
            GridState::Blocked => CellColor::Red,
            GridState::Focus => CellColor::White,
            GridState::Path(_) => CellColor::Gray,
        }
    }
}

/// All the cells of a `width` by `height` grid, in row-major order.
pub struct GridMap {
    width: usize,
    height: usize,
    cells: Vec<Grid>,
}

impl GridMap {
    /// The grid's `(width, height)`.
    pub closed spec fn dims(&self) -> (usize, usize) {
        (self.width, self.height)
    }

    /// The cell at `c`.
    pub closed spec fn cell_at(&self, c: Coord) -> Grid {
        self.cells@[idx(self.dims(), c)]
    }

    /// The state of the cell at `c`.
    pub open spec fn state_at(&self, c: Coord) -> GridState {
        self.cell_at(c).state
    }

    pub closed spec fn wf(&self) -> bool {
        &&& self.width <= i32::MAX
        &&& self.height <= i32::MAX
        &&& self.width * self.height <= usize::MAX
        &&& self.cells.len() == self.width * self.height
        &&& forall|c: Coord|
            in_grid(self.dims(), c) ==> {
                let g = #[trigger] self.cells@[idx(self.dims(), c)];
                g.x == c.0 && g.y == c.1
            }
    }

    /// A well-formed grid's dimensions fit its coordinates and its storage.
    pub proof fn lemma_dims(&self)
        requires
            self.wf(),
        ensures
            self.dims().0 <= i32::MAX,
            self.dims().1 <= i32::MAX,
            self.dims().0 * self.dims().1 <= usize::MAX,
    {
    }

    pub fn width(&self) -> (r: usize)
        ensures
            r == self.dims().0,
    {
        self.width
    }

    pub fn height(&self) -> (r: usize)
        ensures
            r == self.dims().1,
    {
        self.height
    }

    /// The cells in row-major order, for drawing.
    pub fn cells(&self) -> (r: &Vec<Grid>)
        requires
            self.wf(),
        ensures
            r@.len() == self.dims().0 * self.dims().1,
            forall|c: Coord| in_grid(self.dims(), c) ==> r@[idx(self.dims(), c)] == #[trigger] self.cell_at(c),
    {
        &self.cells
    }

    /// The cell at column `x`, row `y`.
    pub fn cell(&self, x: usize, y: usize) -> (r: Grid)
        requires
            self.wf(),
            x < self.dims().0,
            y < self.dims().1,
        ensures
            r == self.cell_at((x as i32, y as i32)),
            r.x == x,
            r.y == y,
    {
        proof {
            lemma_idx(self.dims(), (x as i32, y as i32));
        }
        self.cells[y * self.width + x]
    }
}

/// Builds a `width` by `height` grid of idle cells drawn `size` pixels wide.
pub fn build_grid(width: usize, height: usize, size: u32) -> (r: GridMap)
    requires
        width <= i32::MAX,
        height <= i32::MAX,
        width * height <= usize::MAX,
    ensures
        r.wf(),
        r.dims() == (width, height),
        forall|c: Coord|
            in_grid(r.dims(), c) ==> (#[trigger] r.cell_at(c)).size == size && r.cell_at(c).state
                == GridState::Idle,
        forall|c: Coord|
            in_grid(r.dims(), c) ==> (#[trigger] r.cell_at(c)).x == c.0 as usize && r.cell_at(c).y
                == c.1 as usize,
{
    let mut cells: Vec<Grid> = Vec::new();
    let mut y: usize = 0;
    while y < height
        invariant
            y <= height,
            width <= i32::MAX,
            height <= i32::MAX,
            width * height <= usize::MAX,
            cells.len() == y * width,
            forall|i: int| 0 <= i < cells.len() ==> (#[trigger] cells@[i]).size == size
                && cells@[i].state == GridState::Idle,
            forall|c: Coord|
                in_grid((width, height), c) && c.1 < y ==> {
                    let g = #[trigger] cells@[idx((width, height), c)];
                    g.x == c.0 && g.y == c.1
                },
        decreases height - y,
    {
        let mut x: usize = 0;
        proof {
            assert((y + 1) * width <= width * height) by (nonlinear_arith)
                requires
                    y < height,
            ;
        }
        while x < width
            invariant
                x <= width,
                y < height,
                width <= i32::MAX,
                height <= i32::MAX,
                (y + 1) * width <= width * height,
                width * height <= usize::MAX,
                cells.len() == y * width + x,
                forall|i: int| 0 <= i < cells.len() ==> (#[trigger] cells@[i]).size == size
                    && cells@[i].state == GridState::Idle,
                forall|c: Coord|
                    in_grid((width, height), c) && (c.1 < y || (c.1 == y && c.0 < x)) ==> {
                        let g = #[trigger] cells@[idx((width, height), c)];
                        g.x == c.0 && g.y == c.1
                    },
            decreases width - x,
        {
            proof {
                assert((y + 1) * width == y * width + width) by (nonlinear_arith);
            }
            let ghost before = cells@;
            cells.push(Grid::new(x, y, size));
            proof {
                assert forall|c: Coord|
                    in_grid((width, height), c) && (c.1 < y || (c.1 == y && c.0 < x + 1)) implies {
                        let g = #[trigger] cells@[idx((width, height), c)];
                        g.x == c.0 && g.y == c.1
                    } by {
                    lemma_idx((width, height), c);
                    if c.1 < y {
                        assert(idx((width, height), c) < y * width) by (nonlinear_arith)
                            requires
                                idx((width, height), c) == c.1 * width + c.0,
                                c.1 < y,
                                0 <= c.0 < width,
                        ;
                        assert(before[idx((width, height), c)] == cells@[idx((width, height), c)]);
                    } else if c.0 < x {
                        assert(before[idx((width, height), c)] == cells@[idx((width, height), c)]);
                    }
                }
            }
            x = x + 1;
        }
        proof {
            assert((y + 1) * width == y * width + width) by (nonlinear_arith);
        }
        y = y + 1;
    }
    proof {
        assert(height * width == width * height) by (nonlinear_arith);
    }
    let r = GridMap { width, height, cells };
    proof {
        assert forall|c: Coord| in_grid(r.dims(), c) implies (#[trigger] r.cell_at(c)).size == size
            && r.cell_at(c).state == GridState::Idle by {
            lemma_idx(r.dims(), c);
        }
        assert forall|c: Coord| in_grid(r.dims(), c) implies (#[trigger] r.cell_at(c)).x == c.0 as usize
            && r.cell_at(c).y == c.1 as usize by {
            lemma_idx(r.dims(), c);
        }
    }
    r
}

/// `a` and `b` are the same cell, whatever their states.
pub open spec fn same_place(a: Grid, b: Grid) -> bool {
    a.x == b.x && a.y == b.y && a.size == b.size
}

/// What the sweep before a search leaves of a state: obstacles stay.
pub open spec fn swept(s: GridState) -> GridState {
    if s == GridState::Blocked {
        GridState::Blocked
    } else {
        GridState::Idle
    }
}

impl GridMap {
    /// Sets the state of the cell at `c`.
    pub fn set_state(&mut self, c: Coord, state: GridState)
        requires
            old(self).wf(),
            in_grid(old(self).dims(), c),
        ensures
            final(self).wf(),
            final(self).dims() == old(self).dims(),
            final(self).state_at(c) == state,
            same_place(final(self).cell_at(c), old(self).cell_at(c)),
            forall|d: Coord|
                in_grid(old(self).dims(), d) && d != c ==> #[trigger] final(self).cell_at(d)
                    == old(self).cell_at(d),
    {
        proof {
            lemma_idx(self.dims(), c);
        }
        let i = (c.1 as usize) * self.width + (c.0 as usize);
        let mut g = self.cells[i];
        g.state = state;
        self.cells.set(i, g);
        proof {
            assert forall|d: Coord| in_grid(self.dims(), d) && d != c implies #[trigger] self.cell_at(d)
                == old(self).cell_at(d) by {
                lemma_idx(self.dims(), d);
            }
            assert forall|d: Coord| in_grid(self.dims(), d) implies {
                let g = #[trigger] self.cells@[idx(self.dims(), d)];
                g.x == d.0 && g.y == d.1
            } by {
                lemma_idx(self.dims(), d);
                assert(old(self).cells@[idx(self.dims(), d)].x == d.0);
            }
        }
    }

    /// Sets each cell to idle, all of them or all but the obstacles.
    fn sweep(&mut self, keep_blocked: bool)
        requires
            old(self).wf(),
        ensures
            final(self).wf(),
            final(self).dims() == old(self).dims(),
            forall|c: Coord|
                in_grid(old(self).dims(), c) ==> {
                    &&& same_place(#[trigger] final(self).cell_at(c), old(self).cell_at(c))
                    &&& final(self).state_at(c) == if keep_blocked {
                        swept(old(self).state_at(c))
                    } else {
                        GridState::Idle
                    }
                },
    {
        let n = self.cells.len();
        let mut i: usize = 0;
        while i < n
            invariant
                i <= n,
                n == self.cells.len(),
                self.width == old(self).width,
                self.height == old(self).height,
                n == old(self).cells.len(),
                forall|j: int|
                    0 <= j < n ==> {
                        let a = #[trigger] self.cells@[j];
                        let b = old(self).cells@[j];
                        &&& same_place(a, b)
                        &&& a.state == if j >= i {
                            b.state
                        } else if keep_blocked {
                            swept(b.state)
                        } else {
                            GridState::Idle
                        }
                    },
            decreases n - i,
        {
            let mut g = self.cells[i];
            if !keep_blocked || g.state != GridState::Blocked {
                g.state = GridState::Idle;
            }
            self.cells.set(i, g);
            i = i + 1;
        }
        proof {
            assert forall|c: Coord| in_grid(self.dims(), c) implies {
                &&& same_place(#[trigger] self.cell_at(c), old(self).cell_at(c))
                &&& self.state_at(c) == if keep_blocked {
                    swept(old(self).state_at(c))
                } else {
                    GridState::Idle
                }
            } by {
                lemma_idx(self.dims(), c);
            }
            assert forall|d: Coord| in_grid(self.dims(), d) implies {
                let g = #[trigger] self.cells@[idx(self.dims(), d)];
                g.x == d.0 && g.y == d.1
            } by {
                lemma_idx(self.dims(), d);
                assert(old(self).cells@[idx(self.dims(), d)].x == d.0);
            }
        }
    }

    /// Sets every cell that is not an obstacle back to idle.
    pub fn clean_path(&mut self)
        requires
            old(self).wf(),
        ensures
            final(self).wf(),
            final(self).dims() == old(self).dims(),
            forall|c: Coord|
                in_grid(old(self).dims(), c) ==> {
                    &&& same_place(#[trigger] final(self).cell_at(c), old(self).cell_at(c))
                    &&& final(self).state_at(c) == swept(old(self).state_at(c))
                },
    {
        self.sweep(true);
    }

    /// Sets every cell back to idle, obstacles included.
    pub fn clear(&mut self)
        requires
            old(self).wf(),
        ensures
            final(self).wf(),
            final(self).dims() == old(self).dims(),
            forall|c: Coord|
                in_grid(old(self).dims(), c) ==> {
                    &&& same_place(#[trigger] final(self).cell_at(c), old(self).cell_at(c))
                    &&& final(self).state_at(c) == GridState::Idle
                },
    {
        self.sweep(false);
    }

    /// Marks the `k`-th cell of `route` as step `k` of the path.
    pub fn stamp_route(&mut self, route: &Vec<Coord>)
        requires
            old(self).wf(),
            forall|k: int| 0 <= k < route.len() ==> in_grid(old(self).dims(), #[trigger] route@[k]),
            route@.no_duplicates(),
        ensures
            final(self).wf(),
            final(self).dims() == old(self).dims(),
            forall|k: int|
                0 <= k < route.len() ==> final(self).state_at(#[trigger] route@[k])
                    == GridState::Path(k as usize),
            forall|c: Coord|
                in_grid(old(self).dims(), c) ==> same_place(
                    #[trigger] final(self).cell_at(c),
                    old(self).cell_at(c),
                ),
            forall|c: Coord|
                in_grid(old(self).dims(), c) && !route@.contains(c) ==> #[trigger] final(self).cell_at(c)
                    == old(self).cell_at(c),
    {
        let mut i: usize = 0;
        while i < route.len()
            invariant
                i <= route.len(),
                self.wf(),
                self.dims() == old(self).dims(),
                forall|k: int| 0 <= k < route.len() ==> in_grid(old(self).dims(), #[trigger] route@[k]),
                route@.no_duplicates(),
                forall|k: int|
                    0 <= k < i ==> self.state_at(#[trigger] route@[k]) == GridState::Path(
                        k as usize,
                    ),
                forall|c: Coord|
                    in_grid(old(self).dims(), c) ==> same_place(
                        #[trigger] self.cell_at(c),
                        old(self).cell_at(c),
                    ),
                forall|c: Coord|
                    in_grid(old(self).dims(), c) && !route@.take(i as int).contains(c)
                        ==> #[trigger] self.cell_at(c) == old(self).cell_at(c),
            decreases route.len() - i,
        {
            let c = route[i];
            let ghost pre = *self;
            self.set_state(c, GridState::Path(i));
            proof {
                assert(route@.take(i + 1) == route@.take(i as int).push(c));
                assert forall|k: int| 0 <= k < i + 1 implies self.state_at(#[trigger] route@[k])
                    == GridState::Path(k as usize) by {
                    if k < i {
                        assert(route@[k] != c);
                    }
                }
                assert forall|d: Coord|
                    in_grid(old(self).dims(), d) && !route@.take(i + 1).contains(d) implies
                    #[trigger] self.cell_at(d) == old(self).cell_at(d) by {
                    assert(route@.take(i + 1)[i as int] == c);
                    if route@.take(i as int).contains(d) {
                        let j = choose|j: int| 0 <= j < i && route@.take(i as int)[j] == d;
                        assert(route@.take(i + 1)[j] == d);
                    }
                }
                assert forall|d: Coord| in_grid(old(self).dims(), d) implies same_place(
                    #[trigger] self.cell_at(d),
                    old(self).cell_at(d),
                ) by {
                    assert(same_place(pre.cell_at(d), old(self).cell_at(d)));
                }
            }
            i = i + 1;
        }
        proof {
            assert(route@.take(route.len() as int) == route@);
        }
    }
}

} // verus!
