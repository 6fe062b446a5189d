//! Tests of entity-id packing and cell-bound derivation.

use superdupergrid::cells::compute_cell_bounds;
use superdupergrid::cells::flagged;
use superdupergrid::cells::pack;
use superdupergrid::cells::unpack;

#[test]
fn pack_sets_bit_31_only_when_ideal() {
    assert_eq!(pack(5, true), 0x8000_0005);
    assert_eq!(pack(5, false), 5);
    assert_eq!(pack(0, true), 0x8000_0000);
    assert_eq!(pack(0x7FFF_FFFF, true), u32::MAX);
}

#[test]
fn unpack_masks_the_flag() {
    assert_eq!(unpack(0x8000_0005), 5);
    assert_eq!(unpack(5), 5);
    assert_eq!(unpack(u32::MAX), 0x7FFF_FFFF);
    assert_eq!(unpack(pack(123, true)), 123);
    assert_eq!(unpack(pack(123, false)), 123);
}

#[test]
fn flagged_reads_bit_31() {
    assert!(flagged(0x8000_0000));
    assert!(flagged(pack(7, true)));
    assert!(!flagged(pack(7, false)));
    assert!(!flagged(0x7FFF_FFFF));
}

#[test]
fn cell_bounds_shift_and_saturate() {
    assert_eq!(compute_cell_bounds(0, 8, 4), (0, 0));
    assert_eq!(compute_cell_bounds(15, 16, 4), (0, 1));
    assert_eq!(compute_cell_bounds(20, 8, 4), (1, 1));
    assert_eq!(compute_cell_bounds(u32::MAX - 1, u32::MAX, 4), (
        (u32::MAX - 1) >> 4,
        u32::MAX >> 4,
    ));
}
