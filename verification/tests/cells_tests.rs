use bolivar_core::cells::{CellCorners, build_cells};
use bolivar_core::table::{HEdgeId, IntersectionIdx, VEdgeId};

fn inter(v: &[u32], h: &[u32]) -> IntersectionIdx {
    IntersectionIdx {
        v: v.iter().map(|&e| VEdgeId(e)).collect(),
        h: h.iter().map(|&e| HEdgeId(e)).collect(),
    }
}

fn corners(top_left: usize, top_right: usize, bottom_left: usize) -> CellCorners {
    CellCorners { top_left, top_right, bottom_left }
}

#[test]
fn cells_of_non_consecutive_edges() {
    // Vertical edges at x = 0 and x = 10 from 0 to 10; horizontal edges at
    // y = 0 and y = 10 across, and at y = 5 from 0 to 4 only. The points
    // (x, y) in order: (0,0) (0,5) (0,10) (10,0) (10,10), with x ranked
    // 0, 10 and y ranked 0, 5, 10.
    let points = vec![(0, 0), (0, 1), (0, 2), (1, 0), (1, 2)];
    let inters = vec![
        inter(&[0], &[0]),
        inter(&[0], &[1]),
        inter(&[0], &[2]),
        inter(&[1], &[0]),
        inter(&[1], &[2]),
    ];
    // One cell, (0,0)-(10,10): the short edge at y = 5 closes none.
    assert_eq!(build_cells(&points, &inters), vec![corners(0, 3, 2)]);
}

#[test]
fn cells_need_connected_edges() {
    // The left side is broken between y = 4 and y = 6: edges at x = 0 from
    // 0 to 4 and from 6 to 10, at x = 10 from 0 to 10; horizontal edges at
    // y = 2 and y = 8 across. Points: (0,2) (0,8) (10,2) (10,8).
    let points = vec![(0, 0), (0, 1), (1, 0), (1, 1)];
    let inters = vec![inter(&[0], &[0]), inter(&[1], &[1]), inter(&[2], &[0]), inter(&[2], &[1])];
    assert!(build_cells(&points, &inters).is_empty());
}

#[test]
fn cells_of_a_two_by_two_grid() {
    // Lines at x = 0, 1, 2 and y = 0, 1, 2, each spanning the grid.
    let mut points = Vec::new();
    let mut inters = Vec::new();
    for x in 0..3u32 {
        for y in 0..3u32 {
            points.push((x as u64, y as u64));
            inters.push(inter(&[x], &[y]));
        }
    }
    assert_eq!(
        build_cells(&points, &inters),
        vec![corners(0, 3, 1), corners(1, 4, 2), corners(3, 6, 4), corners(4, 7, 5)]
    );
}

#[test]
fn cells_take_the_nearest_closing_corner() {
    // A tall cell whose right side has an extra point: the first point
    // below that closes the cell is taken.
    let points = vec![(0, 0), (0, 2), (1, 0), (1, 1), (1, 2)];
    let inters = vec![inter(&[0], &[0]), inter(&[0], &[2]), inter(&[1], &[0]), inter(&[1], &[1]), inter(&[1], &[2])];
    assert_eq!(build_cells(&points, &inters), vec![corners(0, 2, 1)]);
}

#[test]
fn cells_of_no_points() {
    assert!(build_cells(&Vec::new(), &Vec::new()).is_empty());
}

#[test]
fn cells_walk_sorted_edge_lists() {
    // The points share edge 5 on the left, but the walk over the unsorted
    // list [7, 5] and [5] advances past 5 without meeting it.
    let points = vec![(0, 0), (0, 1), (1, 0), (1, 1)];
    let inters = vec![inter(&[7, 5], &[0]), inter(&[5], &[1]), inter(&[2], &[0]), inter(&[2], &[1])];
    assert!(build_cells(&points, &inters).is_empty());
    let sorted = vec![inter(&[5, 7], &[0]), inter(&[5], &[1]), inter(&[2], &[0]), inter(&[2], &[1])];
    assert_eq!(build_cells(&points, &sorted), vec![corners(0, 2, 1)]);
}

use bolivar_core::cells::group_cells;

fn grid_cells(x0: u64, y0: u64) -> Vec<(u64, u64, u64, u64)> {
    vec![
        (x0, y0, x0 + 1, y0 + 1),
        (x0, y0 + 1, x0 + 1, y0 + 2),
        (x0 + 1, y0, x0 + 2, y0 + 1),
        (x0 + 1, y0 + 1, x0 + 2, y0 + 2),
    ]
}

#[test]
fn cells_of_two_separate_tables() {
    // Two 2x2 grids, the second far below and to the right of the first:
    // x and y are ranked 0, 10, 20 and 100, 110, 120.
    let mut cells = grid_cells(0, 0);
    cells.extend(grid_cells(3, 3));
    let tables = group_cells(&cells);
    assert_eq!(tables.len(), 2);
    assert_eq!(tables[0].len(), 4);
    assert_eq!(tables[1].len(), 4);
}

#[test]
fn tables_follow_shared_corners_breadth_first() {
    let cells = grid_cells(0, 0);
    assert_eq!(group_cells(&cells), vec![vec![0, 1, 2, 3]]);
    // Through the top-right cell first: its corners reach the other three.
    let reordered = vec![cells[3], cells[2], cells[1], cells[0]];
    assert_eq!(group_cells(&reordered), vec![vec![0, 1, 2, 3]]);
}

#[test]
fn tables_are_ordered_by_top_then_left() {
    // A table lower on the page but listed first comes second.
    let mut cells = grid_cells(0, 5);
    cells.extend(grid_cells(5, 0));
    let tables = group_cells(&cells);
    assert_eq!(tables, vec![vec![4, 5, 6, 7], vec![0, 1, 2, 3]]);
}

#[test]
fn single_cells_are_not_tables() {
    let cells = vec![(0, 0, 1, 1), (5, 5, 6, 6), (10, 0, 11, 1), (11, 0, 12, 1)];
    assert_eq!(group_cells(&cells), vec![vec![2, 3]]);
    assert!(group_cells(&Vec::new()).is_empty());
}
