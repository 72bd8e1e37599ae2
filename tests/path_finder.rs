use astar_fun::path_finder::{a_star, calc_cost, holds, is_in_range, neighbor, search, Coord};

fn is_step(a: Coord, b: Coord) -> bool {
    a != b && (a.0 - b.0).abs() <= 1 && (a.1 - b.1).abs() <= 1
}

fn accumulated(route: &[Coord]) -> u64 {
    route.windows(2).map(|w| calc_cost(&w[0], &w[1])).sum()
}

fn column(x: i32, ys: std::ops::Range<i32>) -> Vec<Coord> {
    ys.map(|y| (x, y)).collect()
}

fn assert_valid(route: &[Coord], start: Coord, end: Coord, block: &[Coord]) {
    assert_eq!(route[0], start);
    assert_eq!(*route.last().unwrap(), end);
    for w in route.windows(2) {
        assert!(is_step(w[0], w[1]));
    }
    for (i, a) in route.iter().enumerate() {
        assert!(!block.contains(a));
        assert!(!route[i + 1..].contains(a));
    }
}

#[test]
fn test_cost_calc() {
    assert_eq!(calc_cost(&(10, 10), &(10, 15)), 50);
    assert_eq!(calc_cost(&(10, 10), &(12, 15)), 58);
}

#[test]
fn cost_is_symmetric() {
    let cells = [(0, 0), (3, 4), (-2, 7), (10, 10), (12, 15), (5, -9)];
    for a in cells {
        for b in cells {
            assert_eq!(calc_cost(&a, &b), calc_cost(&b, &a));
        }
    }
}

#[test]
fn cost_of_far_cells_does_not_overflow() {
    assert_eq!(calc_cost(&(i32::MIN, 0), &(i32::MAX, 0)), 10 * u32::MAX as u64);
    assert_eq!(calc_cost(&(0, 0), &(0, 0)), 0);
}

#[test]
fn in_range_bounds() {
    assert!(is_in_range((20, 20), &(0, 0)));
    assert!(is_in_range((20, 20), &(19, 19)));
    assert!(!is_in_range((20, 20), &(20, 0)));
    assert!(!is_in_range((20, 20), &(0, -1)));
}

#[test]
fn neighbors_inside_and_at_the_corner() {
    let mut inner = neighbor(&(5, 5), (20, 20));
    inner.sort();
    assert_eq!(inner, vec![(4, 4), (4, 5), (4, 6), (5, 4), (5, 6), (6, 4), (6, 5), (6, 6)]);
    let mut corner = neighbor(&(0, 0), (20, 20));
    corner.sort();
    assert_eq!(corner, vec![(0, 1), (1, 0), (1, 1)]);
}

#[test]
fn open_grid_scenario() {
    let route = a_star((20, 20), (0, 0), (3, 4), Vec::new());
    assert_eq!(route.len(), 5);
    assert_valid(&route, (0, 0), (3, 4), &[]);
    assert_eq!(accumulated(&route), 52);
    assert_eq!(accumulated(&route), calc_cost(&(0, 0), &(3, 4)));
}

#[test]
fn open_grid_cost_is_exact() {
    let pairs = [((0, 0), (19, 19)), ((7, 3), (2, 15)), ((19, 0), (0, 0)), ((4, 4), (4, 4))];
    for (s, e) in pairs {
        let route = a_star((20, 20), s, e, Vec::new());
        assert_valid(&route, s, e, &[]);
        assert_eq!(accumulated(&route), calc_cost(&s, &e));
    }
}

#[test]
fn full_wall_gives_start_only() {
    let wall = column(5, 0..20);
    assert_eq!(a_star((20, 20), (0, 0), (10, 10), wall.clone()), vec![(0, 0)]);
    assert_eq!(search((20, 20), (0, 0), (10, 10), wall), None);
}

#[test]
fn wall_with_gap_is_walked_around() {
    let wall = column(5, 0..19);
    let route = a_star((20, 20), (0, 0), (10, 10), wall.clone());
    assert!(route.len() > 1);
    assert_valid(&route, (0, 0), (10, 10), &wall);
    assert!(route.contains(&(5, 19)));
    assert!(!route.iter().any(|c| c.0 == 5 && c.1 < 19));
}

#[test]
fn same_arguments_same_route() {
    let block = vec![(3, 3), (3, 4), (4, 3), (8, 1), (2, 9)];
    let a = a_star((20, 20), (1, 1), (15, 12), block.clone());
    let b = a_star((20, 20), (1, 1), (15, 12), block.clone());
    assert_eq!(a, b);
    assert_valid(&a, (1, 1), (15, 12), &block);
}

#[test]
fn blocked_endpoints_give_no_route() {
    assert_eq!(a_star((20, 20), (0, 0), (5, 5), vec![(5, 5)]), vec![(0, 0)]);
    assert_eq!(a_star((20, 20), (0, 0), (5, 5), vec![(0, 0)]), vec![(0, 0)]);
    assert_eq!(search((20, 20), (0, 0), (5, 5), vec![(0, 0)]), None);
    assert_eq!(search((20, 20), (3, 3), (3, 3), vec![(3, 3)]), None);
}

#[test]
fn start_equal_to_end_is_a_one_cell_route() {
    assert_eq!(a_star((20, 20), (3, 3), (3, 3), Vec::new()), vec![(3, 3)]);
    assert_eq!(search((20, 20), (3, 3), (3, 3), Vec::new()), Some(vec![(3, 3)]));
}

#[test]
fn search_reports_route_found() {
    let block = vec![(1, 0), (1, 1)];
    let route = search((3, 3), (0, 0), (2, 0), block.clone()).unwrap();
    assert_valid(&route, (0, 0), (2, 0), &block);
    assert_eq!(route, vec![(0, 0), (0, 1), (1, 2), (2, 1), (2, 0)]);
}

#[test]
fn single_row_grid() {
    let route = a_star((5, 1), (0, 0), (4, 0), Vec::new());
    assert_eq!(route, vec![(0, 0), (1, 0), (2, 0), (3, 0), (4, 0)]);
    assert_eq!(a_star((5, 1), (0, 0), (4, 0), vec![(2, 0)]), vec![(0, 0)]);
}

#[test]
fn larger_open_grid_corner_to_corner() {
    let route = a_star((60, 60), (0, 0), (59, 40), Vec::new());
    assert_valid(&route, (0, 0), (59, 40), &[]);
    assert_eq!(route.len(), 60);
    assert_eq!(accumulated(&route), calc_cost(&(0, 0), &(59, 40)));
}

#[test]
fn holds_finds_listed_cells() {
    let block = vec![(1, 2), (3, 4)];
    assert!(holds(&block, &(3, 4)));
    assert!(!holds(&block, &(4, 3)));
    assert!(!holds(&Vec::new(), &(0, 0)));
}

#[test]
fn neighbors_come_in_column_then_row_order() {
    assert_eq!(
        neighbor(&(5, 5), (20, 20)),
        vec![(4, 4), (4, 5), (4, 6), (5, 4), (5, 6), (6, 4), (6, 5), (6, 6)]
    );
    assert_eq!(neighbor(&(0, 0), (20, 20)), vec![(0, 1), (1, 0), (1, 1)]);
    assert_eq!(neighbor(&(-5, 3), (20, 20)), Vec::<Coord>::new());
}

#[test]
fn obstacle_order_does_not_change_route() {
    let a = vec![(3, 3), (3, 4), (4, 3), (8, 1), (2, 9)];
    let mut b = a.clone();
    b.reverse();
    b.push((3, 3));
    assert_eq!(a_star((20, 20), (1, 1), (15, 12), a), a_star((20, 20), (1, 1), (15, 12), b));
}

#[test]
fn route_around_obstacles_is_cheapest() {
    // The wall leaves a gap at the top and one at the bottom; the top one is nearer.
    let wall = column(5, 1..19);
    let route = a_star((20, 20), (2, 4), (8, 4), wall.clone());
    assert_valid(&route, (2, 4), (8, 4), &wall);
    // Cheapest: diagonal up to (5,0) and back down: 3 diagonals + 1 straight
    // up, 1 straight across, 3 diagonals + 1 straight down.
    assert_eq!(accumulated(&route), calc_cost(&(2, 4), &(5, 0)) + calc_cost(&(5, 0), &(8, 4)));
}
