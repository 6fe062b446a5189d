//! Cell addressing and entity-id packing.
//!
//! World coordinates are unsigned integers; a right shift by the grid's
//! `shift` maps a coordinate to its cell, so cells are squares of side
//! `2^shift`. An entity id occupies the low 31 bits of a packed 32-bit
//! value; bit 31 is set when the entity's bounding box lay in exactly one
//! cell at insertion time ("ideal"), which lets queries skip
//! de-duplication for it.

use vstd::prelude::*;

verus! {

/// An immutable 2D point in world coordinates.
#[derive(Debug, Clone, Copy, PartialEq, Eq, Structural)]
pub struct PositionVector {
    pub x: u32,
    pub y: u32,
}

impl PositionVector {
    /// Build a point from its two coordinates.
    pub fn new(x: u32, y: u32) -> (r: Self)
        ensures
            r.x == x,
            r.y == y,
    {
        PositionVector { x, y }
    }
}

/// True when a packed id carries the single-cell flag in bit 31.
pub open spec fn is_flagged(p: u32) -> bool {
    p >= 0x8000_0000
}

/// The entity id of a packed value: its low 31 bits.
pub open spec fn unpack_id(p: u32) -> u32 {
    if p >= 0x8000_0000 {
        (p - 0x8000_0000) as u32
    } else {
        p
    }
}

/// A 31-bit entity id with the single-cell flag in bit 31.
pub open spec fn pack_id(id: u32, ideal: bool) -> u32
    recommends
        id < 0x8000_0000,
{
    if ideal {
        (id + 0x8000_0000) as u32
    } else {
        id
    }
}

/// Pack an entity id with the single-cell flag.
pub fn pack(id: u32, ideal: bool) -> (p: u32)
    requires
        id < 0x8000_0000,
    ensures
        p == pack_id(id, ideal),
{
    let f: u32 = if ideal {
        1
    } else {
        0
    };
    let p = id | (f << 31u32);
    proof {
        assert(id < 0x8000_0000u32 ==> (id | (1u32 << 31u32)) == (id + 0x8000_0000u32) as u32)
            by (bit_vector);
        assert((id | (0u32 << 31u32)) == id) by (bit_vector);
    }
    p
}

/// The entity id of a packed value.
pub fn unpack(p: u32) -> (id: u32)
    ensures
        id == unpack_id(p),
        id < 0x8000_0000,
{
    let id = p & 0x7FFF_FFFF;
    proof {
        assert((p & 0x7FFF_FFFFu32) == (if p >= 0x8000_0000u32 {
            (p - 0x8000_0000u32) as u32
        } else {
            p
        })) by (bit_vector);
    }
    id
}

/// True when a packed value carries the single-cell flag.
pub fn flagged(p: u32) -> (b: bool)
    ensures
        b == is_flagged(p),
{
    let b = (p & 0x8000_0000) != 0;
    proof {
        assert(((p & 0x8000_0000u32) != 0) == (p >= 0x8000_0000u32)) by (bit_vector);
    }
    b
}

/// The inclusive cell range of the box `[p, p + extent]` along one axis:
/// the extent saturates at the coordinate ceiling, then both corners are
/// shifted down to cell coordinates.
pub open spec fn cell_bounds(p: u32, extent: u32, shift: u32) -> (u32, u32)
    recommends
        shift < 32,
{
    (p >> shift, p.saturating_add(extent) >> shift)
}

/// True when a cell range covers exactly one cell.
pub open spec fn range_is_ideal(sx: u32, sy: u32, ex: u32, ey: u32) -> bool {
    sx == ex && sy == ey
}

/// The cells of one grid row, from column `sx` to `ex` inclusive.
pub open spec fn row_cells(y: int, sx: int, ex: int) -> Seq<(u32, u32)>
    recommends
        0 <= sx <= ex <= u32::MAX,
        0 <= y <= u32::MAX,
{
    if sx > ex {
        Seq::empty()
    } else {
        Seq::new((ex - sx + 1) as nat, |i: int| ((sx + i) as u32, y as u32))
    }
}

/// The cells of the inclusive range `(sx, sy)`–`(ex, ey)`, row by row.
pub open spec fn range_cells(sx: int, sy: int, ex: int, ey: int) -> Seq<(u32, u32)>
    recommends
        0 <= sx <= ex <= u32::MAX,
        0 <= sy <= ey <= u32::MAX,
    decreases ey + 1 - sy,
{
    if sy > ey {
        Seq::empty()
    } else {
        row_cells(sy, sx, ex) + range_cells(sx, sy + 1, ex, ey)
    }
}

/// Shifting preserves order: a larger coordinate never lands in an
/// earlier cell.
pub proof fn lemma_shift_monotonic(a: u32, b: u32, s: u32)
    requires
        a <= b,
        s < 32,
    ensures
        a >> s <= b >> s,
{
    assert(a <= b && s < 32 ==> (a >> s) <= (b >> s)) by (bit_vector);
}

/// One axis' cell bounds, executable form.
pub fn compute_cell_bounds(p: u32, extent: u32, shift: u32) -> (r: (u32, u32))
    requires
        shift < 32,
    ensures
        r == cell_bounds(p, extent, shift),
        r.0 <= r.1,
{
    let lo = p >> shift;
    let hi = p.saturating_add(extent) >> shift;
    proof {
        lemma_shift_monotonic(p, p.saturating_add(extent), shift);
    }
    (lo, hi)
}

} // verus!
