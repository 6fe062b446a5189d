//! Scenario and property tests for the spatial hash grid.

use superdupergrid::cells::PositionVector;
use superdupergrid::grid::SpatialHashGrid;

fn pos(x: u32, y: u32) -> PositionVector {
    PositionVector::new(x, y)
}

/// Count how many times `val` occurs in a result.
fn occurrences(r: &[u32], val: u32) -> usize {
    r.iter().filter(|&&e| e == val).count()
}

#[test]
fn single_cell_entities_see_each_other() {
    // Cell size 16x16. Entity 0 at (0,0) radius 4: diameter 8, one cell.
    // Entity 1 at (20,20) radius 4: one cell, a different one.
    let mut g = SpatialHashGrid::new(1, 4);
    g.insert(0, pos(0, 0), 4);
    g.insert(1, pos(20, 20), 4);
    let r = g.query_radius(0, pos(0, 0), 4);
    assert_eq!(r, Vec::<u32>::new());

    // Entity 2 at (1,1) radius 4 shares entity 0's cell.
    g.insert(2, pos(1, 1), 4);
    let r = g.query_radius(0, pos(0, 0), 4);
    assert_eq!(r, vec![2]);
    let r = g.query_radius(2, pos(1, 1), 4);
    assert_eq!(r, vec![0]);
}

#[test]
fn straddling_entity_returned_once() {
    // Entity 3 at (15,15) radius 8: diameter 16 straddles 4 cells under
    // shift 4, so it is recorded in 4 buckets and must not carry the
    // single-cell flag.
    let mut g = SpatialHashGrid::new(1, 4);
    g.insert(3, pos(15, 15), 8);

    // A single-cell probe overlapping one of those cells sees it once.
    g.insert(4, pos(0, 0), 4);
    let r = g.query_radius(4, pos(0, 0), 4);
    assert_eq!(r, vec![3]);

    // A multi-cell probe covering all 4 cells still sees it exactly once;
    // were the flag wrongly set, it would be returned once per bucket.
    let r = g.query_rect(99, pos(0, 0), 31, 31);
    assert_eq!(occurrences(&r, 3), 1);
    let r = g.query_radius(99, pos(0, 0), 16);
    assert_eq!(occurrences(&r, 3), 1);
}

#[test]
fn insert_then_delete_restores_queries() {
    let mut g = SpatialHashGrid::new(1, 4);
    g.insert(5, pos(0, 0), 4);
    g.insert(7, pos(40, 40), 4);
    let before_a = g.query_radius(100, pos(0, 0), 4);
    let before_b = g.query_radius(100, pos(40, 40), 4);

    g.insert(9, pos(2, 2), 4);
    g.delete(9);

    assert_eq!(g.query_radius(100, pos(0, 0), 4), before_a);
    assert_eq!(g.query_radius(100, pos(40, 40), 4), before_b);
}

#[test]
fn delete_straddling_entity_removes_it_everywhere() {
    let mut g = SpatialHashGrid::new(1, 4);
    g.insert(3, pos(15, 15), 8);
    g.insert(4, pos(0, 0), 4);
    g.delete(3);
    assert_eq!(g.query_radius(4, pos(0, 0), 4), Vec::<u32>::new());
    assert_eq!(g.query_rect(99, pos(0, 0), 31, 31), vec![4]);
}

#[test]
fn non_overlapping_entities_not_returned() {
    let mut g = SpatialHashGrid::new(1, 4);
    g.insert(10, pos(0, 0), 4);
    g.insert(11, pos(100, 100), 4);
    let r = g.query_radius(10, pos(0, 0), 4);
    assert_eq!(occurrences(&r, 11), 0);
    let r = g.query_radius(11, pos(100, 100), 4);
    assert_eq!(occurrences(&r, 10), 0);
}

#[test]
fn overlapping_entities_returned_once_each() {
    // Two straddling entities share cells; each query returns the other
    // exactly once despite multiple shared buckets.
    let mut g = SpatialHashGrid::new(1, 4);
    g.insert(20, pos(15, 15), 8);
    g.insert(21, pos(14, 14), 8);
    let r = g.query_radius(20, pos(15, 15), 8);
    assert_eq!(occurrences(&r, 21), 1);
    let r = g.query_radius(21, pos(14, 14), 8);
    assert_eq!(occurrences(&r, 20), 1);
}

#[test]
fn reinsert_same_position_keeps_query_results() {
    let mut g = SpatialHashGrid::new(1, 4);
    g.insert(30, pos(15, 15), 8);
    g.insert(31, pos(0, 0), 4);
    let before = g.query_radius(31, pos(0, 0), 4);

    g.reinsert(30, pos(15, 15), 8);

    assert_eq!(g.query_radius(31, pos(0, 0), 4), before);
    let r = g.query_rect(99, pos(0, 0), 31, 31);
    assert_eq!(occurrences(&r, 30), 1);
}

#[test]
fn reinsert_moves_entity() {
    let mut g = SpatialHashGrid::new(1, 4);
    g.insert(40, pos(0, 0), 4);
    g.insert(41, pos(1, 1), 4);
    assert_eq!(g.query_radius(41, pos(1, 1), 4), vec![40]);

    g.reinsert(40, pos(100, 100), 4);
    assert_eq!(g.query_radius(41, pos(1, 1), 4), Vec::<u32>::new());
    assert_eq!(g.query_radius(99, pos(100, 100), 4), vec![40]);
}

#[test]
fn clear_empties_queries_and_keeps_count() {
    let mut g = SpatialHashGrid::new(1, 4);
    let n = g.count();
    g.insert(50, pos(0, 0), 4);
    g.insert(51, pos(15, 15), 8);
    g.clear();
    assert_eq!(g.count(), n);
    assert_eq!(g.query_radius(99, pos(0, 0), 16), Vec::<u32>::new());
    assert_eq!(g.query_rect(99, pos(0, 0), 200, 200), Vec::<u32>::new());
}

#[test]
fn capacity_formula() {
    // next_power_of_two(1 * 1000) + 1 and next_power_of_two(2 * 1000) + 1.
    let g = SpatialHashGrid::new(1, 4);
    assert_eq!(g.count(), 1025);
    let g = SpatialHashGrid::new(2, 4);
    assert_eq!(g.count(), 2049);
}

#[test]
fn query_rect_uses_extents_from_corner() {
    let mut g = SpatialHashGrid::new(1, 4);
    g.insert(60, pos(32, 0), 4);
    // A rect from (0,0) of width 16 reaches cell column 1 (coordinate 16),
    // not column 2 where entity 60 lives.
    assert_eq!(g.query_rect(99, pos(0, 0), 16, 0), Vec::<u32>::new());
    // Width 32 reaches column 2.
    assert_eq!(g.query_rect(99, pos(0, 0), 32, 0), vec![60]);
}

#[test]
fn aliasing_slots_share_a_bucket() {
    // Capacity is 1025, and the key of cell (0, c) reduces to c % 1025, so
    // cell (0, 1025) shares slot 0 with cell (0, 0): world y = 1025 * 16.
    // The alias is an accepted approximation, not an error: the query
    // reports the far entity as a candidate.
    let mut g = SpatialHashGrid::new(1, 4);
    g.insert(70, pos(0, 16400), 4);
    assert_eq!(g.query_radius(99, pos(0, 0), 4), vec![70]);
}

#[test]
fn radius_zero_still_occupies_one_cell() {
    let mut g = SpatialHashGrid::new(1, 4);
    g.insert(80, pos(5, 5), 0);
    assert_eq!(g.query_radius(99, pos(0, 0), 4), vec![80]);
}

#[test]
fn saturating_extent_at_coordinate_ceiling() {
    // A box whose far corner overflows the coordinate space stops at the
    // ceiling instead of wrapping.
    let mut g = SpatialHashGrid::new(1, 30);
    g.insert(90, pos(u32::MAX - 1, u32::MAX - 1), u32::MAX);
    let r = g.query_radius(99, pos(u32::MAX - 1, u32::MAX - 1), 1);
    assert_eq!(occurrences(&r, 90), 1);
}

#[test]
fn position_vector_holds_coordinates() {
    let p = PositionVector::new(3, 9);
    assert_eq!(p.x, 3);
    assert_eq!(p.y, 9);
    assert_eq!(p, PositionVector::new(3, 9));
}
