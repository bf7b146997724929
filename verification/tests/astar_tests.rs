use torus_astar::astar::setup_and_run_astar;
use torus_astar::heuristic::{heuristic, isqrt_u128};
use torus_astar::tile::{PathfindingEventType, PathfindingNode, Tile, TileType};
use torus_astar::torus::wrap_index;

fn make_grid(rows: usize, cols: usize, walls: &[usize], end_id: Option<usize>) -> Vec<Tile> {
    let mut grid: Vec<Tile> = Vec::new();
    for r in 0..rows {
        for c in 0..cols {
            let id: usize = r * cols + c;
            let tile_type: TileType = if walls.contains(&id) {
                TileType::Wall
            } else if end_id == Some(id) {
                TileType::End
            } else {
                TileType::Empty
            };
            grid.push(Tile {
                id,
                row: r,
                col: c,
                tile_type,
            });
        }
    }
    grid
}

fn ids(events: &[PathfindingNode]) -> Vec<usize> {
    events.iter().map(|e| e.tile_id).collect()
}

#[test]
fn determinism_repeated_calls() {
    let grid = make_grid(4, 4, &[5], Some(10));
    let a = setup_and_run_astar(&grid, 4, 4, 0, false);
    let b = setup_and_run_astar(&grid, 4, 4, 0, false);
    assert_eq!(a, b);
    let c = setup_and_run_astar(&grid, 4, 4, 0, true);
    let d = setup_and_run_astar(&grid, 4, 4, 0, true);
    assert_eq!(c, d);
}

#[test]
fn no_wall_tile_in_output() {
    let grid = make_grid(4, 4, &[5], Some(10));
    for aggressive in [false, true] {
        let out = setup_and_run_astar(&grid, 4, 4, 0, aggressive);
        let out_ids = ids(&out);
        assert!(!out_ids.contains(&5), "wall id appeared: {:?}", out_ids);
        assert!(!out_ids.contains(&10), "end id appeared: {:?}", out_ids);
        for e in &out {
            assert_eq!(e.event_type, PathfindingEventType::Visited);
        }
    }
}

#[test]
fn toroidal_wrap_index() {
    assert_eq!(wrap_index(0, -1, 5), 4);
    assert_eq!(wrap_index(4, 1, 5), 0);
    assert_eq!(wrap_index(2, 0, 5), 2);
    assert_eq!(wrap_index(2, 1, 5), 3);
    assert_eq!(wrap_index(2, -1, 5), 1);
    assert_eq!(wrap_index(0, -1, 1), 0);
    assert_eq!(wrap_index(0, 1, 1), 0);
}

#[test]
fn start_equals_end_empty_output() {
    let grid = make_grid(3, 3, &[], Some(4));
    let out = setup_and_run_astar(&grid, 3, 3, 4, false);
    assert!(out.is_empty());
    let out = setup_and_run_astar(&grid, 3, 3, 4, true);
    assert!(out.is_empty());
}

#[test]
fn aggressive_divergence() {
    // A wall on the direct diagonal forces a detour toward the end.
    let grid = make_grid(4, 4, &[5], Some(10));
    let normal = setup_and_run_astar(&grid, 4, 4, 0, false);
    let aggressive = setup_and_run_astar(&grid, 4, 4, 0, true);
    assert_ne!(normal, aggressive);
}

#[test]
fn three_by_three_scenario() {
    // 3x3 grid, ids row*3+col, no walls, start id 0 at (0,0), end (1,1) id 4.
    let grid = make_grid(3, 3, &[], Some(4));
    let out = setup_and_run_astar(&grid, 3, 3, 0, false);
    let out_ids = ids(&out);
    assert!(!out_ids.contains(&4), "end id recorded: {:?}", out_ids);
    for e in &out {
        assert_eq!(e.event_type, PathfindingEventType::Visited);
    }
    // The four cardinal neighbors of the end cost less than the diagonal
    // ones, so they are finalized first (ties broken by tile id), and the
    // search stops as soon as the end itself is popped.
    assert_eq!(out_ids, vec![0, 1, 2, 3, 6]);
}

#[test]
fn missing_end_defaults_to_origin() {
    // No End cell: the end position falls back to (0, 0), which here is
    // also the start, so the very first pop terminates the search.
    let grid = make_grid(3, 3, &[], None);
    let out = setup_and_run_astar(&grid, 3, 3, 0, false);
    assert!(out.is_empty());
}

#[test]
fn unknown_start_defaults_to_origin() {
    // No cell has the requested id: the start falls back to (0, 0), where
    // the End cell sits, so the search terminates at once.
    let grid = make_grid(3, 3, &[], Some(0));
    let out = setup_and_run_astar(&grid, 3, 3, 99, false);
    assert!(out.is_empty());
}

#[test]
fn unreachable_end_exhausts_frontier() {
    // The end at (2,2) is enclosed by its eight toroidal neighbors, all
    // walls; the frontier drains after every reachable cell is finalized.
    let walls: Vec<usize> = vec![5, 6, 7, 9, 11, 13, 14, 15];
    let grid = make_grid(4, 4, &walls, Some(10));
    let out = setup_and_run_astar(&grid, 4, 4, 0, false);
    let mut out_ids = ids(&out);
    out_ids.sort();
    assert_eq!(out_ids, vec![0, 1, 2, 3, 4, 8, 12]);
}

#[test]
fn wall_start_empty_output() {
    let grid = make_grid(3, 3, &[0], Some(4));
    let out = setup_and_run_astar(&grid, 3, 3, 0, false);
    assert!(out.is_empty());
}

#[test]
fn start_category_does_not_matter() {
    // The start is resolved by identifier, not by category.
    let mut grid = make_grid(3, 3, &[], Some(4));
    grid[0].tile_type = TileType::Start;
    let out = setup_and_run_astar(&grid, 3, 3, 0, false);
    assert_eq!(ids(&out), vec![0, 1, 2, 3, 6]);
}

#[test]
fn heuristic_values() {
    // Adjacent to the end: corrected deltas (1, 1), norm truncated to 1.
    assert_eq!(heuristic(0, 0, 1, 1, 3, 3), 1);
    // At the end itself.
    assert_eq!(heuristic(1, 1, 1, 1, 3, 3), 0);
    // Straight-line distance without wraparound.
    assert_eq!(heuristic(0, 0, 0, 2, 5, 5), 2);
}

#[test]
fn heuristic_cross_paired_wrap() {
    // The row delta is compared against half the column count: with
    // rows = 10, cols = 4, a row delta of 5 exceeds cols / 2 = 2 and is
    // replaced by cols - 5 = -1, giving a heuristic of 1.
    assert_eq!(heuristic(0, 0, 5, 0, 10, 4), 1);
}

#[test]
fn integer_square_root() {
    assert_eq!(isqrt_u128(0), 0);
    assert_eq!(isqrt_u128(1), 1);
    assert_eq!(isqrt_u128(2), 1);
    assert_eq!(isqrt_u128(3), 1);
    assert_eq!(isqrt_u128(4), 2);
    assert_eq!(isqrt_u128(15), 3);
    assert_eq!(isqrt_u128(16), 4);
    assert_eq!(isqrt_u128(1_000_000), 1000);
}
