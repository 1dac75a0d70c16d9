use conway::run_next_generation;
use conway::Cell;
use conway::CellCoord;
use conway::Colony;

fn coord(x: i32, y: i32) -> CellCoord {
    CellCoord { x, y }
}

fn seeded(points: &[(i32, i32)]) -> Colony {
    let mut colony = Colony::new();
    let mut coords: Vec<CellCoord> = Vec::new();
    for &(x, y) in points {
        coords.push(coord(x, y));
    }
    colony.seed(&coords);
    colony
}

fn live_points(colony: &Colony) -> Vec<(i32, i32)> {
    colony.cells.iter().map(|cell| (cell.coord.x, cell.coord.y)).collect()
}

fn assert_strictly_sorted(colony: &Colony) {
    for pair in colony.cells.windows(2) {
        let a = pair[0].coord;
        let b = pair[1].coord;
        assert!(a.x < b.x || (a.x == b.x && a.y < b.y));
    }
}

#[test]
fn cell_new_wraps_coordinate() {
    let cell = Cell::new(coord(7, -3));
    assert_eq!(cell.coord, coord(7, -3));
}

#[test]
fn colony_new_is_empty() {
    let colony = Colony::new();
    assert!(colony.cells.is_empty());
    assert!(colony.new_cells.is_empty());
    assert!(colony.neighbor_coords.is_empty());
}

#[test]
fn seed_sorts_and_dedups() {
    let colony = seeded(&[(5, 5), (0, 0), (5, 5), (0, 1), (5, 4), (0, 0)]);
    assert_eq!(live_points(&colony), vec![(0, 0), (0, 1), (5, 4), (5, 5)]);
}

#[test]
fn empty_colony_stays_empty() {
    let mut colony = Colony::new();
    run_next_generation(&mut colony);
    assert!(colony.cells.is_empty());
}

#[test]
fn isolated_cell_dies() {
    let mut colony = seeded(&[(0, 0)]);
    run_next_generation(&mut colony);
    assert!(colony.cells.is_empty());
}

#[test]
fn two_distant_cells_die() {
    let mut colony = seeded(&[(0, 0), (10, 10)]);
    run_next_generation(&mut colony);
    assert!(colony.cells.is_empty());
}

#[test]
fn block_is_a_still_life() {
    let mut colony = seeded(&[(0, 0), (1, 0), (0, 1), (1, 1)]);
    run_next_generation(&mut colony);
    assert_eq!(live_points(&colony), vec![(0, 0), (0, 1), (1, 0), (1, 1)]);
}

#[test]
fn tromino_becomes_block() {
    let mut colony = seeded(&[(0, 0), (1, 0), (0, 1)]);
    run_next_generation(&mut colony);
    assert_eq!(live_points(&colony), vec![(0, 0), (0, 1), (1, 0), (1, 1)]);
}

#[test]
fn blinker_oscillates() {
    let mut colony = seeded(&[(-1, 0), (0, 0), (1, 0)]);
    run_next_generation(&mut colony);
    assert_eq!(live_points(&colony), vec![(0, -1), (0, 0), (0, 1)]);
    run_next_generation(&mut colony);
    assert_eq!(live_points(&colony), vec![(-1, 0), (0, 0), (1, 0)]);
}

#[test]
fn glider_translates_after_four_generations() {
    let glider = [(1, 0), (2, 1), (0, 2), (1, 2), (2, 2)];
    let mut colony = seeded(&glider);
    for _ in 0..4 {
        run_next_generation(&mut colony);
        assert_strictly_sorted(&colony);
    }
    let translated = seeded(&[(2, 1), (3, 2), (1, 3), (2, 3), (3, 3)]);
    assert_eq!(live_points(&colony), live_points(&translated));
}

#[test]
fn output_stays_sorted_and_unique() {
    // An acorn-like scattered seed, deliberately given out of order.
    let mut colony = seeded(&[(6, 0), (1, 2), (0, 0), (1, 0), (4, 0), (5, 0), (3, 1)]);
    for _ in 0..8 {
        run_next_generation(&mut colony);
        assert_strictly_sorted(&colony);
    }
}

#[test]
fn block_survives_at_max_corner() {
    let max: i32 = i32::MAX;
    let mut colony = seeded(&[(max - 1, max - 1), (max - 1, max), (max, max - 1), (max, max)]);
    run_next_generation(&mut colony);
    assert_eq!(
        live_points(&colony),
        vec![(max - 1, max - 1), (max - 1, max), (max, max - 1), (max, max)]
    );
}

#[test]
fn block_survives_at_min_corner() {
    let min: i32 = i32::MIN;
    let mut colony = seeded(&[(min, min), (min, min + 1), (min + 1, min), (min + 1, min + 1)]);
    run_next_generation(&mut colony);
    assert_eq!(
        live_points(&colony),
        vec![(min, min), (min, min + 1), (min + 1, min), (min + 1, min + 1)]
    );
}

#[test]
fn lone_cell_at_max_edge_dies_without_overflow() {
    let mut colony = seeded(&[(i32::MAX, 0)]);
    run_next_generation(&mut colony);
    assert!(colony.cells.is_empty());
}

#[test]
fn blinker_clamped_against_max_edge() {
    // A vertical blinker touching the x = MAX border: its horizontal
    // phase would need x = MAX + 1, which is off the grid, so only the
    // in-range cells appear.
    let max: i32 = i32::MAX;
    let mut colony = seeded(&[(max, -1), (max, 0), (max, 1)]);
    run_next_generation(&mut colony);
    assert_eq!(live_points(&colony), vec![(max - 1, 0), (max, 0)]);
}
