use splix::field::{
    advance, edge_start_cells, enclosed_cells, grid_cell, has_point, path_bounds, split_captured,
    split_taken, touching, without_points, Direction, FIELD_MAX_X, FIELD_MAX_Y, FIELD_MIN_X,
    FIELD_MIN_Y,
};
use splix::region::{flood_region, has_cell, is_listed, SearchBox};
use splix::board::sort_by_id;

#[test]
fn advance_moves_a_quarter_of_the_speed_per_step() {
    assert_eq!(advance(400, 400, Some(Direction::Up), 3), (400, 397));
    assert_eq!(advance(400, 400, Some(Direction::Down), 3), (400, 403));
    assert_eq!(advance(400, 400, Some(Direction::Left), 3), (397, 400));
    assert_eq!(advance(400, 400, Some(Direction::Right), 3), (403, 400));
    assert_eq!(advance(400, 400, None, 3), (400, 400));
}

#[test]
fn advance_clamps_to_the_field() {
    assert_eq!(advance(1, 500, Some(Direction::Left), 3), (FIELD_MIN_X, 500));
    assert_eq!(advance(3199, 500, Some(Direction::Right), 3), (FIELD_MAX_X, 500));
    assert_eq!(advance(500, 181, Some(Direction::Up), 3), (500, FIELD_MIN_Y));
    assert_eq!(advance(500, 2399, Some(Direction::Down), 3), (500, FIELD_MAX_Y));
    // A position outside the field is pulled back in even without a heading.
    assert_eq!(advance(-50, 5000, None, 3), (FIELD_MIN_X, FIELD_MAX_Y));
}

#[test]
fn move_law_every_move_stays_in_the_field() {
    for &(x, y) in &[(0i64, 0i64), (-1000, 9000), (3200, 2400), (1600, 100)] {
        for d in [None, Some(Direction::Up), Some(Direction::Down), Some(Direction::Left), Some(Direction::Right)] {
            let (nx, ny) = advance(x, y, d, 5);
            assert!(FIELD_MIN_X <= nx && nx <= FIELD_MAX_X);
            assert!(FIELD_MIN_Y <= ny && ny <= FIELD_MAX_Y);
        }
    }
}

#[test]
fn grid_cell_floors_to_twenty_pixels() {
    assert_eq!(grid_cell(400, 400), (100, 100));
    assert_eq!(grid_cell(79, 81), (0, 20));
    assert_eq!(grid_cell(3200, 2400), (800, 600));
    assert_eq!(grid_cell(-1, -80), (-20, -20));
    assert_eq!(grid_cell(-81, 0), (-40, 0));
}

#[test]
fn path_bounds_gives_the_box() {
    assert_eq!(path_bounds(&vec![(20, 40), (60, 0), (40, 80)]), (20, 60, 0, 80));
    assert_eq!(path_bounds(&vec![(-20, 5)]), (-20, -20, 5, 5));
}

#[test]
fn touching_means_within_one_cell() {
    assert!(touching(&vec![(0, 0)], &vec![(20, 20)]));
    assert!(touching(&vec![(100, 100), (0, 0)], &vec![(-20, 0)]));
    assert!(!touching(&vec![(0, 0)], &vec![(40, 0)]));
    assert!(!touching(&vec![(0, 0)], &vec![(0, 21)]));
    assert!(!touching(&vec![], &vec![(0, 0)]));
    assert!(!touching(&vec![(0, 0)], &vec![]));
}

#[test]
fn has_point_and_without_points() {
    let v = vec![(0, 0), (20, 0), (40, 0), (20, 0)];
    assert!(has_point(&v, (40, 0)));
    assert!(!has_point(&v, (0, 20)));
    assert_eq!(without_points(&v, &vec![(20, 0), (60, 60)]), vec![(0, 0), (40, 0)]);
    assert_eq!(without_points(&v, &vec![]), v);
}

#[test]
fn edge_start_cells_ring_the_box() {
    let mut cells = edge_start_cells(20, 40, 60, 80);
    cells.sort();
    let mut want = vec![
        (20, 40), (40, 40), (20, 100), (40, 100), (0, 60), (0, 80), (60, 60), (60, 80),
    ];
    want.sort();
    assert_eq!(cells, want);
}

#[test]
fn enclosed_cells_are_unreached_and_off_the_boundary() {
    let visited = vec![(20i64, 20i64), (60, 20)];
    let boundary = vec![(40, 20), (40, 40)];
    // Lattice of the box x 20..=60, y 20..=40, row by row.
    assert_eq!(enclosed_cells(20, 60, 20, 40, &visited, &boundary), vec![(20, 40), (60, 40)]);
}

#[test]
fn split_captured_and_split_taken_partition_in_order() {
    let v = vec![(0, 0), (20, 20), (100, 100), (40, 20)];
    let visited = vec![(40i64, 20i64)];
    let (kept, gone) = split_captured(&v, 0, 60, 0, 60, &visited);
    assert_eq!(kept, vec![(100, 100), (40, 20)]);
    assert_eq!(gone, vec![(0, 0), (20, 20)]);

    let t = vec![(20, 20), (100, 100)];
    let (kept, gone) = split_taken(&v, 0, 60, 0, 60, &t);
    assert_eq!(kept, vec![(0, 0), (100, 100), (40, 20)]);
    assert_eq!(gone, vec![(20, 20)]);
}

#[test]
fn flood_region_stops_at_walls_and_the_box() {
    // A wall around (40, 40) keeps the flood out of it.
    let wall = vec![
        (20, 20), (40, 20), (60, 20), (20, 40), (60, 40), (20, 60), (40, 60), (60, 60),
    ];
    let b = SearchBox { x_lo: 0, x_hi: 80, y_lo: 0, y_hi: 80 };
    let got = flood_region(&b, &vec![(0, 0)], &wall);
    assert!(has_cell(&got, (0, 0)));
    assert!(has_cell(&got, (80, 80)));
    assert!(has_cell(&got, (0, 40)));
    assert!(!has_cell(&got, (40, 40)));
    assert!(!has_cell(&got, (20, 20)));
    assert!(!has_cell(&got, (100, 0)));
    // 25 lattice cells in the box, 8 blocked, 1 walled in.
    assert_eq!(got.len(), 16);
    let mut sorted = got.clone();
    sorted.sort();
    sorted.dedup();
    assert_eq!(sorted.len(), got.len());
    // A blocked or out-of-box start reaches nothing.
    assert!(flood_region(&b, &vec![(20, 20), (200, 0)], &wall).is_empty());
}

#[test]
fn flood_region_moves_diagonally() {
    // Diagonal steps slip between two blocked cells.
    let blocked = vec![(20, 0), (0, 20)];
    let b = SearchBox { x_lo: 0, x_hi: 20, y_lo: 0, y_hi: 20 };
    let got = flood_region(&b, &vec![(0, 0)], &blocked);
    assert_eq!(got, vec![(0, 0), (20, 20)]);
}

#[test]
fn is_listed_and_has_cell_look_up_exactly() {
    assert!(is_listed(&vec![(20, 40)], 20, 40));
    assert!(!is_listed(&vec![(20, 40)], 40, 20));
    assert!(has_cell(&vec![(1i64, 2i64)], (1, 2)));
    assert!(!has_cell(&vec![(1i64, 2i64)], (2, 1)));
}

#[test]
fn sort_by_id_orders_entries() {
    let e = vec![(3u32, 5usize, (1u8, 1u8, 1u8)), (1, 7, (2, 2, 2)), (2, 0, (3, 3, 3))];
    assert_eq!(
        sort_by_id(&e),
        vec![(1, 7, (2, 2, 2)), (2, 0, (3, 3, 3)), (3, 5, (1, 1, 1))]
    );
    assert!(sort_by_id(&vec![]).is_empty());
}

#[test]
fn flood_region_visits_in_breadth_first_order() {
    // From (0, 0): the eight steps in order (left, right, up, down, then
    // the diagonals), each new in-box cell entered as it comes off the queue.
    let b = SearchBox { x_lo: 0, x_hi: 40, y_lo: 0, y_hi: 0 };
    assert_eq!(flood_region(&b, &vec![(20, 0)], &vec![]), vec![(20, 0), (0, 0), (40, 0)]);
    let b = SearchBox { x_lo: 0, x_hi: 20, y_lo: 0, y_hi: 20 };
    assert_eq!(
        flood_region(&b, &vec![(0, 0)], &vec![]),
        vec![(0, 0), (20, 0), (0, 20), (20, 20)]
    );
    // Starts are taken in their order, repeats skipped.
    assert_eq!(
        flood_region(&b, &vec![(20, 20), (0, 0), (20, 20)], &vec![]),
        vec![(20, 20), (0, 0), (0, 20), (20, 0)]
    );
}
