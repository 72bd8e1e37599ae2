use astar_fun::component::{GridBlock, GridPath};
use astar_fun::grid::{build_grid, CellColor, Grid, GridState};
use astar_fun::path_finder::Coord;
use astar_fun::system::{PathError, PathOrchestrator};

fn state(o: &PathOrchestrator, c: Coord) -> GridState {
    o.grids.cell(c.0 as usize, c.1 as usize).state
}

fn path_cells(o: &PathOrchestrator) -> Vec<(usize, Coord)> {
    let mut out = Vec::new();
    for g in o.grids.cells() {
        if let GridState::Path(step) = g.state {
            out.push((step, (g.x as i32, g.y as i32)));
        }
    }
    out.sort();
    out
}

#[test]
fn default_state_is_idle() {
    assert_eq!(GridState::default(), GridState::Idle);
    let g = Grid::new(3, 4, 50);
    assert_eq!((g.x, g.y, g.size, g.state), (3, 4, 50, GridState::Idle));
}

#[test]
fn colors_follow_states() {
    let mut g = Grid::new(0, 0, 50);
    assert_eq!(g.color(), CellColor::Green);
    g.state = GridState::Blocked;
    assert_eq!(g.color(), CellColor::Red);
    g.state = GridState::Focus;
    assert_eq!(g.color(), CellColor::White);
    g.state = GridState::Path(7);
    assert_eq!(g.color(), CellColor::Gray);
}

#[test]
fn build_grid_addresses_cells() {
    let m = build_grid(4, 3, 50);
    assert_eq!((m.width(), m.height()), (4, 3));
    assert_eq!(m.cells().len(), 12);
    for y in 0..3 {
        for x in 0..4 {
            let g = m.cell(x, y);
            assert_eq!((g.x, g.y, g.size, g.state), (x, y, 50, GridState::Idle));
        }
    }
}

#[test]
fn clean_path_keeps_obstacles() {
    let mut m = build_grid(3, 3, 10);
    m.set_state((0, 0), GridState::Blocked);
    m.set_state((1, 0), GridState::Focus);
    m.set_state((2, 0), GridState::Path(2));
    m.clean_path();
    assert_eq!(m.cell(0, 0).state, GridState::Blocked);
    assert_eq!(m.cell(1, 0).state, GridState::Idle);
    assert_eq!(m.cell(2, 0).state, GridState::Idle);
    m.clear();
    assert_eq!(m.cell(0, 0).state, GridState::Idle);
}

#[test]
fn stamp_route_numbers_steps() {
    let mut m = build_grid(3, 3, 10);
    m.stamp_route(&vec![(0, 0), (1, 1), (2, 1)]);
    assert_eq!(m.cell(0, 0).state, GridState::Path(0));
    assert_eq!(m.cell(1, 1).state, GridState::Path(1));
    assert_eq!(m.cell(2, 1).state, GridState::Path(2));
    assert_eq!(m.cell(2, 2).state, GridState::Idle);
}

#[test]
fn block_list_has_no_repeats() {
    let mut b = GridBlock::default();
    b.insert((1, 2));
    b.insert((1, 2));
    b.insert((3, 4));
    assert_eq!(b.block, vec![(1, 2), (3, 4)]);
    assert!(b.contains((3, 4)));
    assert!(!b.contains((4, 3)));
    b.clear();
    assert!(b.block.is_empty());
    let p = GridPath::default();
    assert_eq!((p.start_pos, p.end_pos), (None, None));
}

#[test]
fn find_path_needs_both_endpoints() {
    let mut o = PathOrchestrator::new(5, 5, 10);
    assert_eq!(o.find_path(), Err(PathError::EndpointsUnset));
    o.select_endpoint((0, 0));
    assert_eq!(o.find_path(), Err(PathError::EndpointsUnset));
}

#[test]
fn selecting_two_endpoints_stamps_route() {
    let mut o = PathOrchestrator::new(20, 20, 50);
    o.select_endpoint((0, 0));
    assert_eq!(state(&o, (0, 0)), GridState::Focus);
    assert_eq!(o.path.start_pos, Some((0, 0)));
    o.select_endpoint((3, 4));
    assert_eq!(o.path.end_pos, Some((3, 4)));
    let cells = path_cells(&o);
    assert_eq!(cells.len(), 5);
    assert_eq!(cells[0], (0, (0, 0)));
    assert_eq!(cells[4], (4, (3, 4)));
}

#[test]
fn third_selection_starts_over() {
    let mut o = PathOrchestrator::new(10, 10, 50);
    o.select_endpoint((0, 0));
    o.select_endpoint((4, 4));
    o.select_endpoint((7, 7));
    assert_eq!(o.path.start_pos, Some((7, 7)));
    assert_eq!(o.path.end_pos, None);
    assert_eq!(state(&o, (7, 7)), GridState::Focus);
}

#[test]
fn blocking_a_route_cell_reroutes() {
    let mut o = PathOrchestrator::new(20, 20, 50);
    o.select_endpoint((0, 0));
    o.select_endpoint((6, 0));
    assert!(path_cells(&o).iter().any(|&(_, c)| c == (3, 0)));
    o.block_cell((3, 0));
    assert_eq!(state(&o, (3, 0)), GridState::Blocked);
    let cells = path_cells(&o);
    assert!(!cells.iter().any(|&(_, c)| c == (3, 0)));
    assert_eq!(cells.first().unwrap().1, (0, 0));
    assert_eq!(cells.last().unwrap().1, (6, 0));
}

#[test]
fn blocking_without_endpoints_only_marks() {
    let mut o = PathOrchestrator::new(5, 5, 10);
    o.block_cell((2, 2));
    assert_eq!(state(&o, (2, 2)), GridState::Blocked);
    assert!(o.block.contains((2, 2)));
    assert!(path_cells(&o).is_empty());
}

#[test]
fn unreachable_end_leaves_no_path() {
    let mut o = PathOrchestrator::new(10, 10, 10);
    for y in 0..10 {
        o.block_cell((5, y));
    }
    o.select_endpoint((0, 0));
    o.select_endpoint((9, 9));
    assert!(path_cells(&o).is_empty());
    assert_eq!(state(&o, (5, 3)), GridState::Blocked);
}

#[test]
fn clear_all_then_reselect_gives_same_route() {
    let mut o = PathOrchestrator::new(20, 20, 50);
    o.select_endpoint((2, 3));
    o.select_endpoint((17, 11));
    let first = path_cells(&o);
    assert!(!first.is_empty());
    o.clear_all();
    assert!(path_cells(&o).is_empty());
    assert_eq!(o.path.start_pos, None);
    o.select_endpoint((2, 3));
    o.select_endpoint((17, 11));
    assert_eq!(path_cells(&o), first);
}

#[test]
fn clear_all_removes_obstacles() {
    let mut o = PathOrchestrator::new(5, 5, 10);
    o.block_cell((1, 1));
    o.clear_all();
    assert_eq!(state(&o, (1, 1)), GridState::Idle);
    assert!(o.block.block.is_empty());
}

#[test]
fn block_list_copy_matches() {
    let mut b = GridBlock::default();
    b.insert((0, 1));
    b.insert((2, 2));
    assert_eq!(b.to_vec(), vec![(0, 1), (2, 2)]);
}
