//! The spatial hash grid: two fixed tables, one keyed by cell coordinate
//! (which packed entity ids occupy the cell), one keyed by entity id
//! (which cells the entity was inserted into, kept solely so deletion and
//! reinsertion need not re-derive the bounding box).
//!
//! The abstract state is a [`GridView`]; every mutation's contract states
//! the new view as a function of the old one, and every query's contract
//! states the returned sequence as a function of the view.

use vstd::prelude::*;

use crate::cells::flagged;
use crate::cells::is_flagged;
use crate::cells::pack;
use crate::cells::pack_id;
use crate::cells::range_cells;
use crate::cells::range_is_ideal;
use crate::cells::row_cells;
use crate::cells::unpack;
use crate::cells::unpack_id;
use crate::cells::compute_cell_bounds;
use crate::cells::cell_bounds;
use crate::cells::PositionVector;
use crate::table::slot_of;
use crate::table::vector_key;
use crate::table::is_table_capacity;
use crate::table::Slot;
use crate::table::Table;

verus! {

/// One cell's bucket: the packed entity ids recorded in the cell, in
/// insertion order.
pub struct Entry(pub Vec<u32>);

impl View for Entry {
    type V = Seq<u32>;

    open spec fn view(&self) -> Seq<u32> {
        self.0@
    }
}

impl Slot for Entry {
    open spec fn empty_view() -> Seq<u32> {
        Seq::empty()
    }

    fn empty() -> (r: Self)
        ensures
            r@ == Self::empty_view(),
    {
        Entry(Vec::new())
    }
}

/// One entity's occupancy record: the cells it was inserted into, in
/// insertion order.
pub struct CellRecord(pub Vec<(u32, u32)>);

impl View for CellRecord {
    type V = Seq<(u32, u32)>;

    open spec fn view(&self) -> Seq<(u32, u32)> {
        self.0@
    }
}

impl Slot for CellRecord {
    open spec fn empty_view() -> Seq<(u32, u32)> {
        Seq::empty()
    }

    fn empty() -> (r: Self)
        ensures
            r@ == Self::empty_view(),
    {
        CellRecord(Vec::new())
    }
}

/// The abstract state of a grid: the buckets of the cell table, the
/// occupancy records of the entity table, and the cell-size exponent.
#[verifier::ext_equal]
pub ghost struct GridView {
    pub grid: Seq<Seq<u32>>,
    pub maps: Seq<Seq<(u32, u32)>>,
    pub shift: u32,
}

/// A view a well-formed grid can have: both tables have at least one slot
/// and the cell size is a representable power of two.
pub open spec fn view_wf(v: GridView) -> bool {
    &&& v.grid.len() >= 1
    &&& v.maps.len() >= 1
    &&& v.shift < 32
}

/// The slot of the cell table that a cell coordinate selects.
pub open spec fn grid_slot(len: nat, x: u32, y: u32) -> int
    recommends
        len >= 1,
{
    slot_of(len, vector_key(x, y))
}

/// The slot of the entity table that an entity id selects.
pub open spec fn map_slot(len: nat, id: u32) -> int
    recommends
        len >= 1,
{
    slot_of(len, id as u64)
}

/// Append a packed id to the bucket of one cell.
pub open spec fn bucket_push(g: Seq<Seq<u32>>, c: (u32, u32), p: u32) -> Seq<Seq<u32>>
    recommends
        g.len() >= 1,
{
    let s = grid_slot(g.len(), c.0, c.1);
    g.update(s, g[s].push(p))
}

/// Append a packed id to the bucket of every listed cell, in order.
pub open spec fn buckets_insert(g: Seq<Seq<u32>>, cells: Seq<(u32, u32)>, p: u32) -> Seq<Seq<u32>>
    recommends
        g.len() >= 1,
    decreases cells.len(),
{
    if cells.len() == 0 {
        g
    } else {
        buckets_insert(bucket_push(g, cells[0], p), cells.drop_first(), p)
    }
}

/// The cells an insertion at `pos` with each axis' extent `ew`, `eh`
/// touches, in row-major order.
pub open spec fn touched_cells(pos: PositionVector, ew: u32, eh: u32, shift: u32) -> Seq<(u32, u32)>
    recommends
        shift < 32,
{
    let xb = cell_bounds(pos.x, ew, shift);
    let yb = cell_bounds(pos.y, eh, shift);
    range_cells(xb.0 as int, yb.0 as int, xb.1 as int, yb.1 as int)
}

/// True when the box at `pos` with extents `ew`, `eh` lies in one cell.
pub open spec fn probe_ideal(pos: PositionVector, ew: u32, eh: u32, shift: u32) -> bool
    recommends
        shift < 32,
{
    let xb = cell_bounds(pos.x, ew, shift);
    let yb = cell_bounds(pos.y, eh, shift);
    range_is_ideal(xb.0, yb.0, xb.1, yb.1)
}

/// The extent an entity of the given radius covers along each axis: its
/// diameter, saturating at the coordinate ceiling. The box starts at the
/// entity's position; it is not centered on it.
pub open spec fn diameter(radius: u32) -> u32 {
    radius.saturating_add(radius)
}

/// The state after inserting an entity: its packed id (flagged when the
/// box lies in one cell) is appended to every touched cell's bucket, and
/// the touched cells are appended to the entity's occupancy record.
pub open spec fn insert_model(v: GridView, id: u32, pos: PositionVector, ew: u32, eh: u32) -> GridView
    recommends
        view_wf(v),
        id < 0x8000_0000,
{
    let cells = touched_cells(pos, ew, eh, v.shift);
    let p = pack_id(id, probe_ideal(pos, ew, eh, v.shift));
    let ms = map_slot(v.maps.len(), id);
    GridView {
        grid: buckets_insert(v.grid, cells, p),
        maps: v.maps.update(ms, v.maps[ms] + cells),
        shift: v.shift,
    }
}

/// Remove the first element of a bucket whose unpacked id is `id`; the
/// bucket is unchanged when no element matches.
pub open spec fn remove_first_match(b: Seq<u32>, id: u32) -> Seq<u32>
    decreases b.len(),
{
    if b.len() == 0 {
        b
    } else if unpack_id(b[0]) == id {
        b.drop_first()
    } else {
        seq![b[0]] + remove_first_match(b.drop_first(), id)
    }
}

/// True when some element of the bucket unpacks to `id`.
pub open spec fn bucket_has(b: Seq<u32>, id: u32) -> bool {
    exists|j: int| 0 <= j < b.len() && unpack_id(b[j]) == id
}

/// Remove one match of `id` from the bucket of every listed cell, in order.
pub open spec fn buckets_delete(g: Seq<Seq<u32>>, cells: Seq<(u32, u32)>, id: u32) -> Seq<Seq<u32>>
    recommends
        g.len() >= 1,
    decreases cells.len(),
{
    if cells.len() == 0 {
        g
    } else {
        let s = grid_slot(g.len(), cells[0].0, cells[0].1);
        buckets_delete(g.update(s, remove_first_match(g[s], id)), cells.drop_first(), id)
    }
}

/// True when every listed cell's bucket still holds a match for `id` when
/// its turn comes; deleting an entity that was never inserted, or whose
/// record was corrupted by slot sharing, violates this.
pub open spec fn buckets_deletable(g: Seq<Seq<u32>>, cells: Seq<(u32, u32)>, id: u32) -> bool
    recommends
        g.len() >= 1,
    decreases cells.len(),
{
    cells.len() == 0 || {
        let s = grid_slot(g.len(), cells[0].0, cells[0].1);
        bucket_has(g[s], id) && buckets_deletable(
            g.update(s, remove_first_match(g[s], id)),
            cells.drop_first(),
            id,
        )
    }
}

/// True when the entity can be deleted without a contract violation.
pub open spec fn grid_deletable(v: GridView, id: u32) -> bool
    recommends
        view_wf(v),
{
    buckets_deletable(v.grid, v.maps[map_slot(v.maps.len(), id)], id)
}

/// The state after deleting an entity: one match of its id is removed from
/// the bucket of every cell in its occupancy record, and the record's slot
/// is cleared.
pub open spec fn delete_model(v: GridView, id: u32) -> GridView
    recommends
        view_wf(v),
{
    let ms = map_slot(v.maps.len(), id);
    GridView {
        grid: buckets_delete(v.grid, v.maps[ms], id),
        maps: v.maps.update(ms, Seq::empty()),
        shift: v.shift,
    }
}

/// The state after clearing: every bucket and every occupancy record is
/// empty; both capacities and the cell size are unchanged.
pub open spec fn clear_model(v: GridView) -> GridView {
    GridView {
        grid: Seq::new(v.grid.len(), |i: int| Seq::empty()),
        maps: Seq::new(v.maps.len(), |i: int| Seq::empty()),
        shift: v.shift,
    }
}

/// One step of a query's scan over a bucket element: the queried entity
/// itself is skipped; an element inserted as single-cell, or any element
/// under a single-cell probe, cannot recur, so its unpacked id is appended
/// outright; otherwise the unpacked id is appended only when not already
/// in the result.
pub open spec fn query_step(acc: Seq<u32>, e: u32, qid: u32, ideal: bool) -> Seq<u32> {
    let u = unpack_id(e);
    if u == qid {
        acc
    } else if is_flagged(e) || ideal {
        acc.push(u)
    } else if acc.contains(u) {
        acc
    } else {
        acc.push(u)
    }
}

/// Scan one bucket in order, accumulating results.
pub open spec fn query_bucket(acc: Seq<u32>, b: Seq<u32>, qid: u32, ideal: bool) -> Seq<u32>
    decreases b.len(),
{
    if b.len() == 0 {
        acc
    } else {
        query_bucket(query_step(acc, b[0], qid, ideal), b.drop_first(), qid, ideal)
    }
}

/// Scan the buckets of the listed cells in order, accumulating results.
pub open spec fn query_cells(
    acc: Seq<u32>,
    g: Seq<Seq<u32>>,
    cells: Seq<(u32, u32)>,
    qid: u32,
    ideal: bool,
) -> Seq<u32>
    recommends
        g.len() >= 1,
    decreases cells.len(),
{
    if cells.len() == 0 {
        acc
    } else {
        query_cells(
            query_bucket(acc, g[grid_slot(g.len(), cells[0].0, cells[0].1)], qid, ideal),
            g,
            cells.drop_first(),
            qid,
            ideal,
        )
    }
}

/// The ids a region query returns: the unpacked ids found in the buckets
/// of the probe's cells, the probe's own entity excluded, de-duplicated
/// where a repeat is possible.
pub open spec fn query_model(v: GridView, qid: u32, pos: PositionVector, ew: u32, eh: u32) -> Seq<
    u32,
>
    recommends
        view_wf(v),
{
    query_cells(
        Seq::empty(),
        v.grid,
        touched_cells(pos, ew, eh, v.shift),
        qid,
        probe_ideal(pos, ew, eh, v.shift),
    )
}

/// A row of cells unrolls one cell at a time.
pub proof fn lemma_row_cells_unfold(y: int, sx: int, ex: int)
    requires
        0 <= sx <= ex <= u32::MAX,
        0 <= y <= u32::MAX,
    ensures
        row_cells(y, sx, ex) == seq![(sx as u32, y as u32)] + row_cells(y, sx + 1, ex),
{
    assert(row_cells(y, sx, ex) =~= seq![(sx as u32, y as u32)] + row_cells(y, sx + 1, ex));
}

/// Removing the first match is removing at the first matching index.
pub proof fn lemma_remove_first_match_at(b: Seq<u32>, id: u32, j: int)
    requires
        0 <= j < b.len(),
        unpack_id(b[j]) == id,
        forall|k: int| 0 <= k < j ==> unpack_id(b[k]) != id,
    ensures
        remove_first_match(b, id) == b.remove(j),
    decreases j,
{
    if j == 0 {
        assert(b.drop_first() =~= b.remove(0));
    } else {
        assert(forall|k: int|
            0 <= k < j - 1 ==> unpack_id(#[trigger] b.drop_first()[k]) != id);
        lemma_remove_first_match_at(b.drop_first(), id, j - 1);
        assert(seq![b[0]] + b.drop_first().remove(j - 1) =~= b.remove(j));
    }
}

/// The grid itself: cell buckets, per-entity occupancy records, and the
/// cell-size exponent.
pub struct SpatialHashGrid {
    grid: Table<Entry>,
    maps: Table<CellRecord>,
    shift: u32,
}

impl View for SpatialHashGrid {
    type V = GridView;

    closed spec fn view(&self) -> GridView {
        GridView { grid: self.grid@, maps: self.maps@, shift: self.shift }
    }
}

impl SpatialHashGrid {
    /// Both tables are well formed and the cell size is representable.
    pub closed spec fn wf(&self) -> bool {
        &&& self.grid.wf()
        &&& self.maps.wf()
        &&& self.shift < 32
    }

    /// Create a grid whose two tables each have
    /// `next_power_of_two(size * 1000) + 1` slots, with cells of side
    /// `2^shift`.
    pub fn new(size: usize, shift: u32) -> (r: Self)
        requires
            1 <= size,
            size * 2000 <= usize::MAX,
            shift < 32,
        ensures
            r.wf(),
            view_wf(r@),
            r@.shift == shift,
            is_table_capacity(size as nat, r@.grid.len()),
            r@.maps.len() == r@.grid.len(),
            forall|i: int| 0 <= i < r@.grid.len() ==> r@.grid[i] == Seq::<u32>::empty(),
            forall|i: int| 0 <= i < r@.maps.len() ==> r@.maps[i] == Seq::<(u32, u32)>::empty(),
    {
        let grid = Table::new(size);
        let maps = Table::new(size);
        proof {
            crate::table::lemma_table_capacity_unique(size as nat, grid@.len(), maps@.len());
        }
        SpatialHashGrid { grid, maps, shift }
    }

    /// The number of slots of the cell table, which never changes.
    pub fn count(&self) -> (c: usize)
        requires
            self.wf(),
        ensures
            c == self@.grid.len(),
    {
        self.grid.count()
    }

    /// Reset every bucket and every occupancy record; capacities and cell
    /// size are unchanged.
    pub fn clear(&mut self)
        requires
            old(self).wf(),
        ensures
            final(self).wf(),
            final(self)@ == clear_model(old(self)@),
    {
        self.grid.clear();
        self.maps.clear();
        proof {
            assert(self@.grid =~= clear_model(old(self)@).grid);
            assert(self@.maps =~= clear_model(old(self)@).maps);
            assert(self@ =~= clear_model(old(self)@));
        }
    }

    /// Insert an entity whose bounding box starts at `position` and spans
    /// the entity's diameter along each axis: its packed id is appended to
    /// the bucket of every touched cell, and the touched cells to its
    /// occupancy record. Inserting an id that is already present corrupts
    /// its record; delete it first.
    pub fn insert(&mut self, id: u32, position: PositionVector, radius: u32)
        requires
            old(self).wf(),
            id < 0x8000_0000,
        ensures
            final(self).wf(),
            final(self)@ == insert_model(
                old(self)@,
                id,
                position,
                diameter(radius),
                diameter(radius),
            ),
    {
        let d = radius.saturating_add(radius);
        self.insert_box(id, position, d, d);
    }

    /// Insert with an explicit extent along each axis.
    fn insert_box(&mut self, id: u32, position: PositionVector, ew: u32, eh: u32)
        requires
            old(self).wf(),
            id < 0x8000_0000,
        ensures
            final(self).wf(),
            final(self)@ == insert_model(old(self)@, id, position, ew, eh),
    {
        let (sx, ex) = compute_cell_bounds(position.x, ew, self.shift);
        let (sy, ey) = compute_cell_bounds(position.y, eh, self.shift);
        let is_ideal = sx == ex && sy == ey;
        let packed = pack(id, is_ideal);

        let ghost g0 = self.grid@;
        let ghost m0 = self.maps@;
        let ghost shift0 = self.shift;
        let ghost all_cells = touched_cells(position, ew, eh, self.shift);
        proof {
            assert(Seq::<(u32, u32)>::empty() + all_cells =~= all_cells);
        }

        let mut cells: Vec<(u32, u32)> = Vec::new();
        let mut y64: u64 = sy as u64;
        while y64 <= ey as u64
            invariant
                self.wf(),
                self.shift == shift0,
                self.maps@ == m0,
                self.grid@.len() == g0.len(),
                sy as u64 <= y64 <= ey as u64 + 1,
                sx <= ex,
                packed == pack_id(id, probe_ideal(position, ew, eh, shift0)),
                buckets_insert(
                    self.grid@,
                    range_cells(sx as int, y64 as int, ex as int, ey as int),
                    packed,
                ) == buckets_insert(g0, all_cells, packed),
                cells@ + range_cells(sx as int, y64 as int, ex as int, ey as int) == all_cells,
            decreases ey as int + 1 - y64,
        {
            let y = y64 as u32;
            let mut x64: u64 = sx as u64;
            while x64 <= ex as u64
                invariant
                    self.wf(),
                    self.shift == shift0,
                    self.maps@ == m0,
                    self.grid@.len() == g0.len(),
                    sx as u64 <= x64 <= ex as u64 + 1,
                    y == y64,
                    sy as u64 <= y64 <= ey as u64,
                    sx <= ex,
                    packed == pack_id(id, probe_ideal(position, ew, eh, shift0)),
                    buckets_insert(
                        self.grid@,
                        row_cells(y as int, x64 as int, ex as int) + range_cells(
                            sx as int,
                            y64 as int + 1,
                            ex as int,
                            ey as int,
                        ),
                        packed,
                    ) == buckets_insert(g0, all_cells, packed),
                    cells@ + (row_cells(y as int, x64 as int, ex as int) + range_cells(
                        sx as int,
                        y64 as int + 1,
                        ex as int,
                        ey as int,
                    )) == all_cells,
                decreases ex as int + 1 - x64,
            {
                let x = x64 as u32;
                let ghost gpre = self.grid@;
                let ghost cellspre = cells@;
                let cell = self.grid.get_vector_mut(x, y);
                cell.0.push(packed);
                cells.push((x, y));
                proof {
                    let c = (x, y);
                    let row_rest = row_cells(y as int, x64 as int + 1, ex as int);
                    let rows_rest = range_cells(
                        sx as int,
                        y64 as int + 1,
                        ex as int,
                        ey as int,
                    );
                    lemma_row_cells_unfold(y as int, x64 as int, ex as int);
                    assert(self.grid@ =~= bucket_push(gpre, c, packed));
                    let whole = row_cells(y as int, x64 as int, ex as int) + rows_rest;
                    assert(whole =~= seq![c] + (row_rest + rows_rest));
                    assert(whole[0] == c);
                    assert(whole.drop_first() =~= row_rest + rows_rest);
                    assert(buckets_insert(gpre, whole, packed) == buckets_insert(
                        bucket_push(gpre, c, packed),
                        row_rest + rows_rest,
                        packed,
                    ));
                    assert(cells@ + (row_rest + rows_rest) =~= cellspre + whole);
                }
                x64 = x64 + 1;
            }
            proof {
                assert(row_cells(y as int, x64 as int, ex as int) =~= Seq::<(u32, u32)>::empty());
                assert(Seq::<(u32, u32)>::empty() + range_cells(
                    sx as int,
                    y64 as int + 1,
                    ex as int,
                    ey as int,
                ) =~= range_cells(sx as int, y64 as int + 1, ex as int, ey as int));
            }
            y64 = y64 + 1;
        }
        proof {
            assert(range_cells(sx as int, y64 as int, ex as int, ey as int)
                =~= Seq::<(u32, u32)>::empty());
            assert(cells@ + Seq::<(u32, u32)>::empty() =~= cells@);
            assert(cells@ == all_cells);
            assert(self.grid@ == buckets_insert(g0, all_cells, packed));
        }
        let m = self.maps.get_scalar_mut(id);
        m.0.append(&mut cells);
        proof {
            assert(self@ =~= insert_model(old(self)@, id, position, ew, eh));
        }
    }

    /// Delete an entity: remove one match of its id from the bucket of
    /// every cell in its occupancy record, then clear the record's slot.
    pub fn delete(&mut self, id: u32)
        requires
            old(self).wf(),
            grid_deletable(old(self)@, id),
        ensures
            final(self).wf(),
            final(self)@ == delete_model(old(self)@, id),
    {
        let ghost g0 = self.grid@;
        let ghost m0 = self.maps@;
        let ghost shift0 = self.shift;
        let ghost all_cells = m0[map_slot(m0.len(), id)];

        let mut cells: Vec<(u32, u32)> = Vec::new();
        {
            let rec = self.maps.get_scalar(id);
            let n = rec.0.len();
            let mut i: usize = 0;
            while i < n
                invariant
                    i <= n,
                    n == rec.0@.len(),
                    rec.0@ == all_cells,
                    cells@ == all_cells.take(i as int),
                decreases n - i,
            {
                cells.push(rec.0[i]);
                proof {
                    assert(cells@ =~= all_cells.take(i + 1));
                }
                i = i + 1;
            }
            proof {
                assert(all_cells.take(n as int) =~= all_cells);
            }
        }

        let count = cells.len();
        let mut i: usize = 0;
        while i < count
            invariant
                self.wf(),
                self.shift == shift0,
                self.maps@ == m0,
                self.grid@.len() == g0.len(),
                i <= count,
                count == cells@.len(),
                cells@ == all_cells,
                buckets_delete(self.grid@, all_cells.skip(i as int), id) == buckets_delete(
                    g0,
                    all_cells,
                    id,
                ),
                buckets_deletable(self.grid@, all_cells.skip(i as int), id),
            decreases count - i,
        {
            let (x, y) = cells[i];
            proof {
                assert(all_cells.skip(i as int)[0] == (x, y));
            }
            let j = {
                let bucket = self.grid.get_vector(x, y);
                find_match(&bucket.0, id)
            };
            let ghost gpre = self.grid@;
            let ghost s = grid_slot(gpre.len(), x, y);
            let cell = self.grid.get_vector_mut(x, y);
            cell.0.remove(j);
            proof {
                lemma_remove_first_match_at(gpre[s], id, j as int);
                assert(self.grid@ =~= gpre.update(s, remove_first_match(gpre[s], id)));
                assert(all_cells.skip(i as int).drop_first() =~= all_cells.skip(i + 1));
            }
            i = i + 1;
        }
        proof {
            assert(all_cells.skip(count as int) =~= Seq::<(u32, u32)>::empty());
        }
        let m = self.maps.get_scalar_mut(id);
        m.0.clear();
        proof {
            assert(self@ =~= delete_model(old(self)@, id));
        }
    }

    /// Move an entity: delete it, then insert it at the new position. The
    /// full cost is paid even when the cell membership is unchanged.
    pub fn reinsert(&mut self, id: u32, position: PositionVector, radius: u32)
        requires
            old(self).wf(),
            id < 0x8000_0000,
            grid_deletable(old(self)@, id),
        ensures
            final(self).wf(),
            final(self)@ == insert_model(
                delete_model(old(self)@, id),
                id,
                position,
                diameter(radius),
                diameter(radius),
            ),
    {
        self.delete(id);
        self.insert(id, position, radius);
    }

    /// The entities recorded in any cell of the square probe box of side
    /// the probe's diameter, starting at `position`: every returned id is
    /// unpacked, the probing entity is excluded, and no id that could
    /// recur is returned twice.
    pub fn query_radius(&self, entity_id: u32, position: PositionVector, radius: u32) -> (r: Vec<
        u32,
    >)
        requires
            self.wf(),
        ensures
            r@ == query_model(self@, entity_id, position, diameter(radius), diameter(radius)),
    {
        let d = radius.saturating_add(radius);
        self.query_box(entity_id, position, d, d)
    }

    /// The entities recorded in any cell of the rectangular probe box
    /// `[position, position + (width, height)]`, under the same exclusion
    /// and de-duplication rules as the radius query.
    pub fn query_rect(&self, entity_id: u32, position: PositionVector, width: u32, height: u32) -> (r: Vec<u32>)
        requires
            self.wf(),
        ensures
            r@ == query_model(self@, entity_id, position, width, height),
    {
        self.query_box(entity_id, position, width, height)
    }

    /// Scan the buckets of every cell the probe box touches.
    fn query_box(&self, qid: u32, position: PositionVector, ew: u32, eh: u32) -> (r: Vec<u32>)
        requires
            self.wf(),
        ensures
            r@ == query_model(self@, qid, position, ew, eh),
    {
        let (sx, ex) = compute_cell_bounds(position.x, ew, self.shift);
        let (sy, ey) = compute_cell_bounds(position.y, eh, self.shift);
        let is_ideal = sx == ex && sy == ey;
        let ghost g = self.grid@;
        let ghost all_cells = touched_cells(position, ew, eh, self.shift);
        let ghost total = query_cells(Seq::empty(), g, all_cells, qid, is_ideal);

        let mut result: Vec<u32> = Vec::new();
        let mut y64: u64 = sy as u64;
        while y64 <= ey as u64
            invariant
                self.wf(),
                g == self.grid@,
                sy as u64 <= y64 <= ey as u64 + 1,
                sx <= ex,
                is_ideal == probe_ideal(position, ew, eh, self.shift),
                query_cells(
                    result@,
                    g,
                    range_cells(sx as int, y64 as int, ex as int, ey as int),
                    qid,
                    is_ideal,
                ) == total,
            decreases ey as int + 1 - y64,
        {
            let y = y64 as u32;
            let mut x64: u64 = sx as u64;
            while x64 <= ex as u64
                invariant
                    self.wf(),
                    g == self.grid@,
                    sx as u64 <= x64 <= ex as u64 + 1,
                    y == y64,
                    sy as u64 <= y64 <= ey as u64,
                    sx <= ex,
                    is_ideal == probe_ideal(position, ew, eh, self.shift),
                    query_cells(
                        result@,
                        g,
                        row_cells(y as int, x64 as int, ex as int) + range_cells(
                            sx as int,
                            y64 as int + 1,
                            ex as int,
                            ey as int,
                        ),
                        qid,
                        is_ideal,
                    ) == total,
                decreases ex as int + 1 - x64,
            {
                let x = x64 as u32;
                let ghost rpre = result@;
                let ghost row_rest = row_cells(y as int, x64 as int + 1, ex as int);
                let ghost rows_rest = range_cells(sx as int, y64 as int + 1, ex as int, ey as int);
                let ghost whole = row_cells(y as int, x64 as int, ex as int) + rows_rest;
                let region = self.grid.get_vector(x, y);
                let ghost b = region@;
                proof {
                    let c = (x, y);
                    lemma_row_cells_unfold(y as int, x64 as int, ex as int);
                    assert(whole =~= seq![c] + (row_rest + rows_rest));
                    assert(whole[0] == c);
                    assert(whole.drop_first() =~= row_rest + rows_rest);
                    assert(query_cells(rpre, g, whole, qid, is_ideal) == query_cells(
                        query_bucket(rpre, b, qid, is_ideal),
                        g,
                        row_rest + rows_rest,
                        qid,
                        is_ideal,
                    ));
                    assert(b.skip(0) =~= b);
                }
                let n = region.0.len();
                let mut j: usize = 0;
                while j < n
                    invariant
                        j <= n,
                        n == region.0@.len(),
                        region@ == b,
                        b == g[grid_slot(g.len(), x, y)],
                        query_cells(
                            query_bucket(result@, b.skip(j as int), qid, is_ideal),
                            g,
                            row_rest + rows_rest,
                            qid,
                            is_ideal,
                        ) == total,
                    decreases n - j,
                {
                    let e = region.0[j];
                    let u = unpack(e);
                    let ghost racc = result@;
                    if u != qid {
                        if flagged(e) || is_ideal {
                            result.push(u);
                        } else if !contains_id(&result, u) {
                            result.push(u);
                        }
                    }
                    proof {
                        assert(b.skip(j as int)[0] == b[j as int]);
                        assert(b.skip(j as int).drop_first() =~= b.skip(j + 1));
                        assert(result@ == query_step(racc, b[j as int], qid, is_ideal));
                    }
                    j = j + 1;
                }
                proof {
                    assert(b.skip(n as int) =~= Seq::<u32>::empty());
                }
                x64 = x64 + 1;
            }
            proof {
                assert(row_cells(y as int, x64 as int, ex as int) =~= Seq::<(u32, u32)>::empty());
                assert(Seq::<(u32, u32)>::empty() + range_cells(
                    sx as int,
                    y64 as int + 1,
                    ex as int,
                    ey as int,
                ) =~= range_cells(sx as int, y64 as int + 1, ex as int, ey as int));
            }
            y64 = y64 + 1;
        }
        proof {
            assert(range_cells(sx as int, y64 as int, ex as int, ey as int)
                =~= Seq::<(u32, u32)>::empty());
        }
        result
    }
}

/// Find the index of the first bucket element whose unpacked id is `id`.
fn find_match(v: &Vec<u32>, id: u32) -> (j: usize)
    requires
        bucket_has(v@, id),
    ensures
        j < v@.len(),
        unpack_id(v@[j as int]) == id,
        forall|k: int| 0 <= k < j ==> unpack_id(v@[k]) != id,
{
    let n = v.len();
    let mut j: usize = 0;
    while j < n
        invariant
            j <= n,
            n == v@.len(),
            bucket_has(v@, id),
            forall|k: int| 0 <= k < j ==> unpack_id(v@[k]) != id,
        decreases n - j,
    {
        if unpack(v[j]) == id {
            return j;
        }
        j = j + 1;
    }
    proof {
        let w = choose|w: int| 0 <= w < v@.len() && unpack_id(v@[w]) == id;
        assert(false);
    }
    0
}

/// True when the result sequence already holds the id.
fn contains_id(v: &Vec<u32>, x: u32) -> (b: bool)
    ensures
        b == v@.contains(x),
{
    let n = v.len();
    let mut j: usize = 0;
    while j < n
        invariant
            j <= n,
            n == v@.len(),
            forall|k: int| 0 <= k < j ==> v@[k] != x,
        decreases n - j,
    {
        if v[j] == x {
            return true;
        }
        j = j + 1;
    }
    false
}

} // verus!
