use collision_mesh::mesh::{build, BuildError};
use collision_mesh::plates::{row_plates, Plate};
use collision_mesh::rects::{find_plate, Rect};
use collision_mesh::tiles::{GridCoord, TileSet};

fn tiles(cells: &[(i32, i32)]) -> TileSet {
    let mut t = TileSet::new();
    for &(x, y) in cells {
        t.insert(GridCoord { x, y });
    }
    t
}

fn sorted(mut rs: Vec<Rect>) -> Vec<Rect> {
    rs.sort_by_key(|r| (r.bottom, r.left, r.top, r.right));
    rs
}

fn rect(left: i32, right: i32, bottom: i32, top: i32) -> Rect {
    Rect { left, right, bottom, top }
}

/// Checks that `rs` covers exactly `cells` inside the grid, each cell once.
fn assert_exact_cover(rs: &[Rect], cells: &[(i32, i32)], width: i32, height: i32) {
    for y in 0..height {
        for x in 0..width {
            let n = rs
                .iter()
                .filter(|r| r.left <= x && x <= r.right && r.bottom <= y && y <= r.top)
                .count();
            let expected = if cells.contains(&(x, y)) { 1 } else { 0 };
            assert_eq!(n, expected, "cell ({}, {})", x, y);
        }
    }
    for r in rs {
        assert!(0 <= r.left && r.left <= r.right && r.right < width);
        assert!(0 <= r.bottom && r.bottom <= r.top && r.top < height);
    }
}

#[test]
fn full_three_by_two_is_one_rect() {
    let t = tiles(&[(0, 0), (1, 0), (2, 0), (0, 1), (1, 1), (2, 1)]);
    let rs = build(3, 2, &t).unwrap();
    assert_eq!(rs, vec![rect(0, 2, 0, 1)]);
    let b = rs[0].collider_box(10);
    assert_eq!(b.twice_center_x as f32 / 2.0, 15.0);
    assert_eq!(b.twice_center_y as f32 / 2.0, 10.0);
    assert_eq!(b.twice_half_width as f32 / 2.0, 15.0);
    assert_eq!(b.twice_half_height as f32 / 2.0, 10.0);
}

#[test]
fn gap_in_row_gives_two_cells() {
    let t = tiles(&[(0, 0), (2, 0)]);
    let rs = sorted(build(3, 2, &t).unwrap());
    assert_eq!(rs, vec![rect(0, 0, 0, 0), rect(2, 2, 0, 0)]);
    let b0 = rs[0].collider_box(10);
    let b1 = rs[1].collider_box(10);
    assert_eq!((b0.twice_center_x as f32 / 2.0, b0.twice_center_y as f32 / 2.0), (5.0, 5.0));
    assert_eq!((b1.twice_center_x as f32 / 2.0, b1.twice_center_y as f32 / 2.0), (25.0, 5.0));
    assert_eq!((b0.twice_half_width, b0.twice_half_height), (10, 10));
}

#[test]
fn empty_row_between_is_not_merged() {
    let t = tiles(&[(0, 0), (0, 2)]);
    let rs = sorted(build(1, 3, &t).unwrap());
    assert_eq!(rs, vec![rect(0, 0, 0, 0), rect(0, 0, 2, 2)]);
}

#[test]
fn out_of_bounds_cell_is_rejected() {
    let t = tiles(&[(3, 0)]);
    assert_eq!(build(3, 2, &t), Err(BuildError::InvalidInput));
}

#[test]
fn cell_above_or_below_grid_is_rejected() {
    assert_eq!(build(3, 2, &tiles(&[(0, 2)])), Err(BuildError::InvalidInput));
    assert_eq!(build(3, 2, &tiles(&[(0, -1)])), Err(BuildError::InvalidInput));
    assert_eq!(build(3, 2, &tiles(&[(-1, 0)])), Err(BuildError::InvalidInput));
}

#[test]
fn negative_side_is_rejected() {
    assert_eq!(build(-1, 2, &TileSet::new()), Err(BuildError::InvalidInput));
    assert_eq!(build(2, -1, &TileSet::new()), Err(BuildError::InvalidInput));
}

#[test]
fn empty_set_gives_no_rects() {
    assert_eq!(build(4, 4, &TileSet::new()), Ok(vec![]));
    assert_eq!(build(0, 0, &TileSet::new()), Ok(vec![]));
}

#[test]
fn single_cell_gives_one_unit_rect() {
    let rs = build(5, 5, &tiles(&[(3, 4)])).unwrap();
    assert_eq!(rs, vec![rect(3, 3, 4, 4)]);
}

#[test]
fn full_grid_collapses_to_one_rect() {
    let mut cells = Vec::new();
    for y in 0..4 {
        for x in 0..7 {
            cells.push((x, y));
        }
    }
    let rs = build(7, 4, &tiles(&cells)).unwrap();
    assert_eq!(rs, vec![rect(0, 6, 0, 3)]);
}

#[test]
fn l_shape_splits_where_rows_differ() {
    let cells = [(0, 0), (1, 0), (0, 1)];
    let rs = sorted(build(2, 2, &tiles(&cells)).unwrap());
    assert_eq!(rs, vec![rect(0, 1, 0, 0), rect(0, 0, 1, 1)]);
}

#[test]
fn narrower_row_starts_a_new_rect() {
    let cells = [(0, 0), (1, 0), (2, 0), (0, 1), (1, 1), (2, 1), (0, 2), (1, 2)];
    let rs = sorted(build(3, 3, &tiles(&cells)).unwrap());
    assert_eq!(rs, vec![rect(0, 2, 0, 1), rect(0, 1, 2, 2)]);
}

#[test]
fn irregular_shape_is_covered_exactly_once() {
    let cells = [
        (0, 0), (1, 0), (2, 0), (4, 0), (5, 0),
        (1, 1), (2, 1), (4, 1), (5, 1),
        (1, 2), (2, 2), (3, 2), (4, 2), (5, 2),
        (0, 3), (5, 3),
        (0, 4), (1, 4), (5, 4),
    ];
    let rs = build(6, 5, &tiles(&cells)).unwrap();
    assert_exact_cover(&rs, &cells, 6, 5);
    assert_eq!(
        sorted(rs),
        vec![
            rect(0, 2, 0, 0),
            rect(4, 5, 0, 1),
            rect(1, 2, 1, 1),
            rect(1, 5, 2, 2),
            rect(0, 0, 3, 3),
            rect(5, 5, 3, 4),
            rect(0, 1, 4, 4),
        ]
    );
}

#[test]
fn same_input_gives_same_rects() {
    let cells = [(0, 0), (1, 0), (1, 1), (2, 1), (2, 2), (0, 2)];
    let a = build(3, 3, &tiles(&cells)).unwrap();
    let b = build(3, 3, &tiles(&cells)).unwrap();
    assert_eq!(sorted(a), sorted(b));
}

#[test]
fn disjoint_classes_are_built_apart() {
    let walls = [(0, 0), (1, 0), (2, 0), (0, 1), (2, 1)];
    let spikes = [(1, 1), (1, 2)];
    let wall_rects = build(3, 3, &tiles(&walls)).unwrap();
    let spike_rects = build(3, 3, &tiles(&spikes)).unwrap();
    assert_exact_cover(&wall_rects, &walls, 3, 3);
    assert_exact_cover(&spike_rects, &spikes, 3, 3);
    assert_eq!(spike_rects, vec![rect(1, 1, 1, 2)]);
}

#[test]
fn row_scan_closes_run_at_right_edge() {
    let t = tiles(&[(0, 1), (1, 1), (3, 1), (4, 1), (2, 0)]);
    assert_eq!(
        row_plates(&t, 5, 1),
        vec![Plate { left: 0, right: 1 }, Plate { left: 3, right: 4 }]
    );
    assert_eq!(row_plates(&t, 5, 0), vec![Plate { left: 2, right: 2 }]);
    assert_eq!(row_plates(&t, 5, 2), vec![]);
}

#[test]
fn find_plate_matches_both_columns() {
    let row = vec![Plate { left: 0, right: 1 }, Plate { left: 3, right: 4 }];
    assert_eq!(find_plate(&row, Plate { left: 3, right: 4 }), Some(1));
    assert_eq!(find_plate(&row, Plate { left: 3, right: 5 }), None);
    assert_eq!(find_plate(&row, Plate { left: 0, right: 1 }), Some(0));
}

#[test]
fn tile_set_insert_and_contains() {
    let mut t = TileSet::new();
    assert!(!t.contains(GridCoord { x: 1, y: 2 }));
    assert!(t.insert(GridCoord { x: 1, y: 2 }));
    assert!(!t.insert(GridCoord { x: 1, y: 2 }));
    assert!(t.contains(GridCoord { x: 1, y: 2 }));
    assert!(!t.contains(GridCoord { x: 2, y: 1 }));
}

#[test]
fn fits_grid_checks_every_cell() {
    let t = tiles(&[(0, 0), (2, 1), (1, 1)]);
    assert!(t.fits_grid(3, 2));
    assert!(!t.fits_grid(2, 2));
    assert!(!t.fits_grid(3, 1));
    assert!(TileSet::new().fits_grid(0, 0));
}

#[test]
fn collider_box_of_offset_rect() {
    let b = rect(2, 4, 1, 1).collider_box(16);
    assert_eq!(b.twice_center_x, 7 * 16);
    assert_eq!(b.twice_center_y, 3 * 16);
    assert_eq!(b.twice_half_width, 3 * 16);
    assert_eq!(b.twice_half_height, 16);
}
