//! The orchestration between the user's intents, the obstacles and the two
//! endpoints, the search, and the grid that shows its outcome.
use vstd::prelude::*;
use crate::component::{GridBlock, GridPath};
use crate::grid::{GridMap, GridState, build_grid, same_place, swept};
use crate::path_finder::{
    Coord, in_grid, is_route, lemma_search_outcome_same_cells, reachable, search, search_outcome,
};

verus! {

/// A search was asked for before both endpoints were chosen.
#[derive(Clone, Copy, Debug, PartialEq, Eq, Structural)]
pub enum PathError {
    EndpointsUnset,
}

/// The cells of a route, if there is one.
pub open spec fn route_view(o: Option<Vec<Coord>>) -> Option<Seq<Coord>> {
    match o {
        Some(v) => Some(v@),
        None => None,
    }
}

/// `after` shows the outcome `r` of a search from `s` to `e` around `blk`:
/// the `k`-th cell of a route found is marked as step `k`, and every other
/// cell holds `base`.
pub open spec fn shows(
    after: GridMap,
    base: spec_fn(Coord) -> GridState,
    r: Option<Seq<Coord>>,
    blk: Seq<Coord>,
    s: Coord,
    e: Coord,
) -> bool {
    let dims = after.dims();
    &&& (r is Some <==> reachable(dims, blk, s, e))
    &&& r matches Some(route) ==> {
        &&& is_route(dims, blk, s, e, route)
        &&& forall|k: int|
            0 <= k < route.len() ==> after.state_at(#[trigger] route[k]) == GridState::Path(
                k as usize,
            )
    }
    &&& forall|c: Coord|
        in_grid(dims, c) && !(r matches Some(route) && route.contains(c)) ==> #[trigger] after.state_at(c)
            == base(c)
}

/// What each cell of `g` shows once swept for a search, `c` standing as `s`.
pub open spec fn swept_with(g: GridMap, c: Coord, s: GridState) -> spec_fn(Coord) -> GridState {
    |d: Coord|
        if d == c {
            swept(s)
        } else {
            swept(g.state_at(d))
        }
}

/// The grid together with the obstacles and endpoints that drive its searches.
pub struct PathOrchestrator {
    pub grids: GridMap,
    pub block: GridBlock,
    pub path: GridPath,
}

impl PathOrchestrator {
    pub open spec fn wf(&self) -> bool {
        &&& self.grids.wf()
        &&& self.path.start_pos matches Some(s) ==> in_grid(self.grids.dims(), s)
        &&& self.path.end_pos matches Some(e) ==> in_grid(self.grids.dims(), e)
        &&& self.path.end_pos is Some ==> self.path.start_pos is Some
    }

    /// Both endpoints are chosen.
    pub open spec fn ready(&self) -> bool {
        self.path.start_pos is Some && self.path.end_pos is Some
    }

    /// An idle `width` by `height` grid with no obstacle and no endpoint.
    pub fn new(width: usize, height: usize, size: u32) -> (r: PathOrchestrator)
        requires
            width <= i32::MAX,
            height <= i32::MAX,
            width * height <= usize::MAX,
        ensures
            r.wf(),
            r.grids.dims() == (width, height),
            forall|c: Coord| in_grid(r.grids.dims(), c) ==> #[trigger] r.grids.state_at(c) == GridState::Idle,
            forall|c: Coord|
                in_grid(r.grids.dims(), c) ==> (#[trigger] r.grids.cell_at(c)).x == c.0 as usize
                    && r.grids.cell_at(c).y == c.1 as usize && r.grids.cell_at(c).size == size,
            r.block.block@.len() == 0,
            r.path.start_pos is None,
            r.path.end_pos is None,
    {
        PathOrchestrator {
            grids: build_grid(width, height, size),
            block: GridBlock::default(),
            path: GridPath::default(),
        }
    }

    /// Sweeps the old route off the grid, searches between the endpoints
    /// around the obstacles, and stamps the route found; fails, changing
    /// nothing, unless both endpoints are chosen.
    pub fn find_path(&mut self) -> (r: Result<Option<Vec<Coord>>, PathError>)
        requires
            old(self).wf(),
        ensures
            final(self).wf(),
            final(self).grids.dims() == old(self).grids.dims(),
            forall|c: Coord|
                in_grid(old(self).grids.dims(), c) ==> same_place(
                    #[trigger] final(self).grids.cell_at(c),
                    old(self).grids.cell_at(c),
                ),
            final(self).block == old(self).block,
            final(self).path == old(self).path,
            r is Err <==> !old(self).ready(),
            r is Err ==> final(self).grids == old(self).grids,
            r matches Ok(o) ==> route_view(o) == search_outcome(
                old(self).grids.dims(),
                old(self).path.start_pos->Some_0,
                old(self).path.end_pos->Some_0,
                old(self).block.block@,
            ),
            r matches Ok(o) ==> shows(
                final(self).grids,
                |c: Coord| swept(old(self).grids.state_at(c)),
                route_view(o),
                old(self).block.block@,
                old(self).path.start_pos->Some_0,
                old(self).path.end_pos->Some_0,
            ),
    {
        match (self.path.start_pos, self.path.end_pos) {
            (Some(s), Some(e)) => {
                self.grids.clean_path();
                let size = (self.grids.width(), self.grids.height());
                let blocks = self.block.to_vec();
                proof {
                    self.grids.lemma_dims();
                }
                let r = search(size, s, e, blocks);
                match &r {
                    Some(route) => {
                        self.grids.stamp_route(route);
                    },
                    None => {},
                }
                Ok(r)
            },
            _ => Err(PathError::EndpointsUnset),
        }
    }

    /// Blocks the cell `c`, and searches again when both endpoints are
    /// chosen; the cell is never part of the new route.
    pub fn block_cell(&mut self, c: Coord)
        requires
            old(self).wf(),
            in_grid(old(self).grids.dims(), c),
        ensures
            final(self).wf(),
            final(self).grids.dims() == old(self).grids.dims(),
            forall|c: Coord|
                in_grid(old(self).grids.dims(), c) ==> same_place(
                    #[trigger] final(self).grids.cell_at(c),
                    old(self).grids.cell_at(c),
                ),
            final(self).path == old(self).path,
            forall|d: Coord|
                #[trigger] final(self).block.block@.contains(d) <==> (old(self).block.block@.contains(d)
                    || d == c),
            final(self).grids.state_at(c) == GridState::Blocked,
            !old(self).ready() ==> forall|d: Coord|
                in_grid(old(self).grids.dims(), d) && d != c ==> #[trigger] final(self).grids.state_at(d)
                    == old(self).grids.state_at(d),
            old(self).ready() ==> shows(
                final(self).grids,
                swept_with(old(self).grids, c, GridState::Blocked),
                search_outcome(
                    old(self).grids.dims(),
                    old(self).path.start_pos->Some_0,
                    old(self).path.end_pos->Some_0,
                    final(self).block.block@,
                ),
                final(self).block.block@,
                old(self).path.start_pos->Some_0,
                old(self).path.end_pos->Some_0,
            ),
    {
        self.grids.set_state(c, GridState::Blocked);
        self.block.insert(c);
        if self.path.start_pos.is_some() && self.path.end_pos.is_some() {
            let ghost mid = self.grids;
            let r = self.find_path();
            proof {
                let o = route_view(r->Ok_0);
                let blk = self.block.block@;
                assert(blk.contains(c));
                if let Some(route) = o {
                    if route.contains(c) {
                        let k = choose|k: int| 0 <= k < route.len() && route[k] == c;
                        assert(!blk.contains(route[k]));
                    }
                }
                assert(self.grids.state_at(c) == swept(mid.state_at(c)));
                let base = swept_with(old(self).grids, c, GridState::Blocked);
                assert forall|d: Coord|
                    in_grid(self.grids.dims(), d) && !(o matches Some(route) && route.contains(d))
                        implies #[trigger] self.grids.state_at(d) == base(d) by {
                    assert(self.grids.state_at(d) == swept(mid.state_at(d)));
                }
                assert(shows(self.grids, base, o, blk, self.path.start_pos->Some_0, self.path.end_pos->Some_0));
            }
        }
    }

    /// Chooses `c` as the start, or as the end, in which case the search
    /// runs; a choice made while both are set begins a new selection.
    pub fn select_endpoint(&mut self, c: Coord)
        requires
            old(self).wf(),
            in_grid(old(self).grids.dims(), c),
        ensures
            final(self).wf(),
            final(self).grids.dims() == old(self).grids.dims(),
            forall|c: Coord|
                in_grid(old(self).grids.dims(), c) ==> same_place(
                    #[trigger] final(self).grids.cell_at(c),
                    old(self).grids.cell_at(c),
                ),
            final(self).block == old(self).block,
            (old(self).ready() || old(self).path.start_pos is None) ==> {
                &&& final(self).path.start_pos == Some(c)
                &&& final(self).path.end_pos is None
                &&& final(self).grids.state_at(c) == GridState::Focus
                &&& forall|d: Coord|
                    in_grid(old(self).grids.dims(), d) && d != c
                        ==> #[trigger] final(self).grids.state_at(d) == old(self).grids.state_at(d)
            },
            (!old(self).ready() && old(self).path.start_pos is Some) ==> {
                &&& final(self).path.start_pos == old(self).path.start_pos
                &&& final(self).path.end_pos == Some(c)
                &&& shows(
                    final(self).grids,
                    swept_with(old(self).grids, c, GridState::Focus),
                    search_outcome(
                        old(self).grids.dims(),
                        old(self).path.start_pos->Some_0,
                        c,
                        old(self).block.block@,
                    ),
                    old(self).block.block@,
                    old(self).path.start_pos->Some_0,
                    c,
                )
            },
    {
        if self.path.start_pos.is_some() && self.path.end_pos.is_some() {
            self.path.start_pos = None;
            self.path.end_pos = None;
        }
        if self.path.start_pos.is_none() {
            self.path.start_pos = Some(c);
            self.grids.set_state(c, GridState::Focus);
        } else if self.path.end_pos.is_none() {
            self.path.end_pos = Some(c);
            self.grids.set_state(c, GridState::Focus);
            let ghost mid = self.grids;
            let r = self.find_path();
            proof {
                let o = route_view(r->Ok_0);
                let base = swept_with(old(self).grids, c, GridState::Focus);
                assert forall|d: Coord|
                    in_grid(self.grids.dims(), d) && !(o matches Some(route) && route.contains(d))
                        implies #[trigger] self.grids.state_at(d) == base(d) by {
                    assert(self.grids.state_at(d) == swept(mid.state_at(d)));
                }
                assert(shows(self.grids, base, o, self.block.block@, self.path.start_pos->Some_0, c));
            }
        }
    }

    /// Forgets both endpoints and every obstacle, and sets every cell idle.
    pub fn clear_all(&mut self)
        requires
            old(self).wf(),
        ensures
            final(self).wf(),
            final(self).grids.dims() == old(self).grids.dims(),
            forall|c: Coord|
                in_grid(old(self).grids.dims(), c) ==> same_place(
                    #[trigger] final(self).grids.cell_at(c),
                    old(self).grids.cell_at(c),
                ),
            final(self).path.start_pos is None,
            final(self).path.end_pos is None,
            final(self).block.block@.len() == 0,
            forall|c: Coord|
                in_grid(old(self).grids.dims(), c) ==> #[trigger] final(self).grids.state_at(c)
                    == GridState::Idle,
    {
        self.path.start_pos = None;
        self.path.end_pos = None;
        self.block.clear();
        self.grids.clear();
    }
}

/// Two grids that each show a search between the same endpoints, around
/// obstacle lists that hold the same cells, over bases without path marks,
/// mark the same cells with the same steps. `clear_all` leaves an empty
/// obstacle list and `select_endpoint` states that its grid shows the search
/// around the list it holds, so choosing the same endpoints again after
/// `clear_all` marks what a search on a grid without obstacles marked.
pub proof fn lemma_same_search_same_marks(
    g1: GridMap,
    g2: GridMap,
    base1: spec_fn(Coord) -> GridState,
    base2: spec_fn(Coord) -> GridState,
    b1: Seq<Coord>,
    b2: Seq<Coord>,
    s: Coord,
    e: Coord,
)
    requires
        g1.dims() == g2.dims(),
        forall|c: Coord| b1.contains(c) <==> b2.contains(c),
        forall|c: Coord| !(#[trigger] base1(c) is Path),
        forall|c: Coord| !(#[trigger] base2(c) is Path),
        shows(g1, base1, search_outcome(g1.dims(), s, e, b1), b1, s, e),
        shows(g2, base2, search_outcome(g2.dims(), s, e, b2), b2, s, e),
    ensures
        forall|c: Coord|
            in_grid(g1.dims(), c) && ((#[trigger] g1.state_at(c)) is Path || g2.state_at(c) is Path)
                ==> g1.state_at(c) == g2.state_at(c),
{
    lemma_search_outcome_same_cells(g1.dims(), s, e, b1, b2);
    let o = search_outcome(g1.dims(), s, e, b1);
    assert forall|c: Coord|
        in_grid(g1.dims(), c) && ((#[trigger] g1.state_at(c)) is Path || g2.state_at(c) is Path)
            implies g1.state_at(c) == g2.state_at(c) by {
        if let Some(route) = o {
            if route.contains(c) {
                let k = choose|k: int| 0 <= k < route.len() && route[k] == c;
                assert(g1.state_at(route[k]) == GridState::Path(k as usize));
                assert(g2.state_at(route[k]) == GridState::Path(k as usize));
            } else {
                assert(g1.state_at(c) == base1(c));
                assert(g2.state_at(c) == base2(c));
            }
        } else {
            assert(g1.state_at(c) == base1(c));
            assert(g2.state_at(c) == base2(c));
        }
    }
}

} // verus!
