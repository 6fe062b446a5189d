//! General properties of the grid, stated over the abstract state and
//! proved once for all inputs.

use vstd::prelude::*;

use crate::cells::is_flagged;
use crate::cells::unpack_id;
use crate::cells::pack_id;
use crate::cells::PositionVector;
use crate::grid::bucket_has;
use crate::grid::bucket_push;
use crate::grid::buckets_delete;
use crate::grid::buckets_deletable;
use crate::grid::buckets_insert;
use crate::grid::clear_model;
use crate::grid::delete_model;
use crate::grid::grid_deletable;
use crate::grid::grid_slot;
use crate::grid::insert_model;
use crate::grid::map_slot;
use crate::grid::probe_ideal;
use crate::grid::query_bucket;
use crate::grid::query_cells;
use crate::grid::query_model;
use crate::grid::query_step;
use crate::grid::remove_first_match;
use crate::grid::touched_cells;
use crate::grid::GridView;
use crate::grid::view_wf;

verus! {

/// The sequence `p` repeated `n` times.
pub open spec fn repeated(p: u32, n: nat) -> Seq<u32> {
    Seq::new(n, |i: int| p)
}

/// How many of the listed cells select table slot `s`.
pub open spec fn cell_hits(cells: Seq<(u32, u32)>, len: nat, s: int) -> nat
    decreases cells.len(),
{
    if cells.len() == 0 {
        0
    } else {
        (if grid_slot(len, cells[0].0, cells[0].1) == s {
            1nat
        } else {
            0nat
        }) + cell_hits(cells.drop_first(), len, s)
    }
}

/// Inserting appends the packed id to each touched slot once per hit.
pub proof fn lemma_buckets_insert_characterized(g: Seq<Seq<u32>>, cells: Seq<(u32, u32)>, p: u32)
    requires
        g.len() >= 1,
    ensures
        buckets_insert(g, cells, p).len() == g.len(),
        forall|s: int|
            0 <= s < g.len() ==> #[trigger] buckets_insert(g, cells, p)[s] == g[s] + repeated(
                p,
                cell_hits(cells, g.len(), s),
            ),
    decreases cells.len(),
{
    if cells.len() == 0 {
        assert forall|s: int| 0 <= s < g.len() implies #[trigger] buckets_insert(g, cells, p)[s]
            == g[s] + repeated(p, cell_hits(cells, g.len(), s)) by {
            assert(g[s] + repeated(p, 0) =~= g[s]);
        }
    } else {
        let g1 = bucket_push(g, cells[0], p);
        let s0 = grid_slot(g.len(), cells[0].0, cells[0].1);
        lemma_buckets_insert_characterized(g1, cells.drop_first(), p);
        assert forall|s: int| 0 <= s < g.len() implies #[trigger] buckets_insert(g, cells, p)[s]
            == g[s] + repeated(p, cell_hits(cells, g.len(), s)) by {
            let krest = cell_hits(cells.drop_first(), g.len(), s);
            if s == s0 {
                assert(g1[s] == g[s].push(p));
                assert(g[s].push(p) + repeated(p, krest) =~= g[s] + repeated(p, krest + 1));
            } else {
                assert(g1[s] == g[s]);
            }
        }
    }
}

/// Removing the first match from a bucket whose only matches are `k`
/// trailing copies of `p` drops exactly one copy.
pub proof fn lemma_remove_first_match_of_suffix(a: Seq<u32>, p: u32, id: u32, k: nat)
    requires
        unpack_id(p) == id,
        !bucket_has(a, id),
        k >= 1,
    ensures
        remove_first_match(a + repeated(p, k), id) == a + repeated(p, (k - 1) as nat),
    decreases a.len(),
{
    let whole = a + repeated(p, k);
    if a.len() == 0 {
        assert(whole =~= repeated(p, k));
        assert(unpack_id(whole[0]) == id);
        assert(whole.drop_first() =~= a + repeated(p, (k - 1) as nat));
    } else {
        assert(unpack_id(whole[0]) != id) by {
            assert(whole[0] == a[0]);
            assert(!(0 <= 0 < a.len() && unpack_id(a[0]) == id));
        }
        assert(!bucket_has(a.drop_first(), id)) by {
            assert forall|j: int| 0 <= j < a.drop_first().len() implies unpack_id(
                #[trigger] a.drop_first()[j],
            ) != id by {
                assert(a.drop_first()[j] == a[j + 1]);
            }
        }
        lemma_remove_first_match_of_suffix(a.drop_first(), p, id, k);
        assert(whole.drop_first() =~= a.drop_first() + repeated(p, k));
        assert(seq![whole[0]] + (a.drop_first() + repeated(p, (k - 1) as nat)) =~= a + repeated(
            p,
            (k - 1) as nat,
        ));
    }
}

/// Deleting with a record whose hits account exactly for the appended
/// copies restores the original buckets.
pub proof fn lemma_buckets_delete_restores(
    g: Seq<Seq<u32>>,
    g0: Seq<Seq<u32>>,
    cells: Seq<(u32, u32)>,
    p: u32,
    id: u32,
)
    requires
        g.len() == g0.len(),
        g.len() >= 1,
        unpack_id(p) == id,
        forall|s: int| 0 <= s < g0.len() ==> !bucket_has(#[trigger] g0[s], id),
        forall|s: int|
            0 <= s < g.len() ==> #[trigger] g[s] == g0[s] + repeated(
                p,
                cell_hits(cells, g.len(), s),
            ),
    ensures
        buckets_deletable(g, cells, id),
        buckets_delete(g, cells, id) == g0,
    decreases cells.len(),
{
    if cells.len() == 0 {
        assert forall|s: int| 0 <= s < g.len() implies g[s] == g0[s] by {
            assert(g0[s] + repeated(p, 0) =~= g0[s]);
        }
        assert(g =~= g0);
    } else {
        let s0 = grid_slot(g.len(), cells[0].0, cells[0].1);
        let k = cell_hits(cells, g.len(), s0);
        assert(k >= 1);
        assert(bucket_has(g[s0], id)) by {
            assert(g[s0] == g0[s0] + repeated(p, k));
            assert(unpack_id(g[s0][g0[s0].len() as int]) == id);
        }
        lemma_remove_first_match_of_suffix(g0[s0], p, id, k);
        let g1 = g.update(s0, remove_first_match(g[s0], id));
        assert forall|s: int|
            0 <= s < g1.len() implies #[trigger] g1[s] == g0[s] + repeated(
            p,
            cell_hits(cells.drop_first(), g1.len(), s),
        ) by {
            if s == s0 {
                assert(cell_hits(cells, g.len(), s) == 1 + cell_hits(
                    cells.drop_first(),
                    g.len(),
                    s,
                ));
            } else {
                assert(cell_hits(cells, g.len(), s) == cell_hits(
                    cells.drop_first(),
                    g.len(),
                    s,
                ));
            }
        }
        lemma_buckets_delete_restores(g1, g0, cells.drop_first(), p, id);
    }
}

/// Identifiers survive packing: the low bits of a packed id are the id.
pub proof fn lemma_pack_unpack(id: u32, ideal: bool)
    requires
        id < 0x8000_0000,
    ensures
        unpack_id(pack_id(id, ideal)) == id,
{
}

/// Inserting an absent entity and at once deleting it restores the grid
/// to the state it was in before the insert.
pub proof fn lemma_insert_then_delete_restores(
    v: GridView,
    id: u32,
    pos: PositionVector,
    ew: u32,
    eh: u32,
)
    requires
        view_wf(v),
        id < 0x8000_0000,
        v.maps[map_slot(v.maps.len(), id)] == Seq::<(u32, u32)>::empty(),
        forall|s: int| 0 <= s < v.grid.len() ==> !bucket_has(#[trigger] v.grid[s], id),
    ensures
        grid_deletable(insert_model(v, id, pos, ew, eh), id),
        delete_model(insert_model(v, id, pos, ew, eh), id) == v,
{
    let cells = touched_cells(pos, ew, eh, v.shift);
    let p = pack_id(id, probe_ideal(pos, ew, eh, v.shift));
    lemma_pack_unpack(id, probe_ideal(pos, ew, eh, v.shift));
    let ms = map_slot(v.maps.len(), id);
    let v1 = insert_model(v, id, pos, ew, eh);
    assert(v1.maps[ms] =~= cells) by {
        assert(Seq::<(u32, u32)>::empty() + cells =~= cells);
    }
    lemma_buckets_insert_characterized(v.grid, cells, p);
    lemma_buckets_delete_restores(v1.grid, v.grid, cells, p, id);
    let v2 = delete_model(v1, id);
    assert(v2.maps =~= v.maps);
    assert(v2 =~~= v);
}

/// After `clear`, every bucket is empty, so a scan accumulates nothing.
pub proof fn lemma_query_on_empty_buckets(
    acc: Seq<u32>,
    g: Seq<Seq<u32>>,
    cells: Seq<(u32, u32)>,
    qid: u32,
    ideal: bool,
)
    requires
        g.len() >= 1,
        forall|i: int| 0 <= i < g.len() ==> #[trigger] g[i] == Seq::<u32>::empty(),
    ensures
        query_cells(acc, g, cells, qid, ideal) == acc,
    decreases cells.len(),
{
    if cells.len() > 0 {
        let s = grid_slot(g.len(), cells[0].0, cells[0].1);
        assert(g[s] == Seq::<u32>::empty());
        lemma_query_on_empty_buckets(acc, g, cells.drop_first(), qid, ideal);
    }
}

/// Clearing empties every later query while the slot count stays as it
/// was: any probe on the cleared grid returns the empty sequence.
pub proof fn lemma_clear_then_query_empty(
    v: GridView,
    qid: u32,
    pos: PositionVector,
    ew: u32,
    eh: u32,
)
    requires
        view_wf(v),
    ensures
        query_model(clear_model(v), qid, pos, ew, eh) == Seq::<u32>::empty(),
        clear_model(v).grid.len() == v.grid.len(),
        clear_model(v).maps.len() == v.maps.len(),
{
    let vc = clear_model(v);
    lemma_query_on_empty_buckets(
        Seq::empty(),
        vc.grid,
        touched_cells(pos, ew, eh, vc.shift),
        qid,
        probe_ideal(pos, ew, eh, vc.shift),
    );
}

/// Membership in a pushed sequence.
pub proof fn lemma_push_contains(s: Seq<u32>, v: u32, x: u32)
    ensures
        s.push(v).contains(x) <==> (s.contains(x) || x == v),
{
    if x == v {
        assert(s.push(v)[s.len() as int] == v);
    }
    if s.contains(x) {
        let j = choose|j: int| 0 <= j < s.len() && s[j] == x;
        assert(s.push(v)[j] == x);
    }
    if s.push(v).contains(x) {
        let j = choose|j: int| 0 <= j < s.push(v).len() && s.push(v)[j] == x;
        if j < s.len() {
            assert(s[j] == x);
        }
    }
}

/// True when some bucket of a listed cell holds an element unpacking to
/// `val`.
pub open spec fn cells_have(g: Seq<Seq<u32>>, cells: Seq<(u32, u32)>, val: u32) -> bool
    recommends
        g.len() >= 1,
{
    exists|i: int|
        0 <= i < cells.len() && bucket_has(
            g[grid_slot(g.len(), #[trigger] cells[i].0, cells[i].1)],
            val,
        )
}

/// What one bucket scan adds to the result: exactly the unpacked ids of
/// its elements, the probe's own id excluded.
pub proof fn lemma_query_bucket_membership(
    acc: Seq<u32>,
    b: Seq<u32>,
    qid: u32,
    ideal: bool,
    val: u32,
)
    ensures
        query_bucket(acc, b, qid, ideal).contains(val) <==> (acc.contains(val) || (val != qid
            && bucket_has(b, val))),
    decreases b.len(),
{
    if b.len() > 0 {
        let acc1 = query_step(acc, b[0], qid, ideal);
        lemma_query_bucket_membership(acc1, b.drop_first(), qid, ideal, val);
        lemma_push_contains(acc, unpack_id(b[0]), val);
        assert(bucket_has(b, val) <==> (unpack_id(b[0]) == val || bucket_has(
            b.drop_first(),
            val,
        ))) by {
            if bucket_has(b, val) {
                let j = choose|j: int| 0 <= j < b.len() && unpack_id(b[j]) == val;
                if j > 0 {
                    assert(unpack_id(b.drop_first()[j - 1]) == val);
                }
            }
            if bucket_has(b.drop_first(), val) {
                let j = choose|j: int|
                    0 <= j < b.drop_first().len() && unpack_id(b.drop_first()[j]) == val;
                assert(unpack_id(b[j + 1]) == val);
            }
        }
    }
}

/// What a whole query returns: an id is in the result exactly when it is
/// not the probe's own and some probed bucket holds it.
pub proof fn lemma_query_cells_membership(
    acc: Seq<u32>,
    g: Seq<Seq<u32>>,
    cells: Seq<(u32, u32)>,
    qid: u32,
    ideal: bool,
    val: u32,
)
    requires
        g.len() >= 1,
    ensures
        query_cells(acc, g, cells, qid, ideal).contains(val) <==> (acc.contains(val) || (val
            != qid && cells_have(g, cells, val))),
    decreases cells.len(),
{
    if cells.len() > 0 {
        let b = g[grid_slot(g.len(), cells[0].0, cells[0].1)];
        let acc1 = query_bucket(acc, b, qid, ideal);
        lemma_query_bucket_membership(acc, b, qid, ideal, val);
        lemma_query_cells_membership(acc1, g, cells.drop_first(), qid, ideal, val);
        assert(cells_have(g, cells, val) <==> (bucket_has(b, val) || cells_have(
            g,
            cells.drop_first(),
            val,
        ))) by {
            if cells_have(g, cells, val) {
                let i = choose|i: int|
                    0 <= i < cells.len() && bucket_has(
                        g[grid_slot(g.len(), #[trigger] cells[i].0, cells[i].1)],
                        val,
                    );
                if i > 0 {
                    assert(cells.drop_first()[i - 1] == cells[i]);
                    assert(cells_have(g, cells.drop_first(), val));
                }
            }
            if cells_have(g, cells.drop_first(), val) {
                let i = choose|i: int|
                    0 <= i < cells.drop_first().len() && bucket_has(
                        g[grid_slot(
                            g.len(),
                            #[trigger] cells.drop_first()[i].0,
                            cells.drop_first()[i].1,
                        )],
                        val,
                    );
                assert(cells[i + 1] == cells.drop_first()[i]);
                assert(cells_have(g, cells, val));
            }
            if bucket_has(b, val) && cells.len() > 0 {
                assert(bucket_has(
                    g[grid_slot(g.len(), cells[0].0, cells[0].1)],
                    val,
                ));
                assert(cells_have(g, cells, val));
            }
        }
    }
}

/// A query returns an id exactly when it differs from the probing
/// entity's and some bucket of the probed region holds it: in particular
/// an entity recorded in no probed bucket is never returned.
pub proof fn lemma_query_membership(
    v: GridView,
    qid: u32,
    pos: PositionVector,
    ew: u32,
    eh: u32,
    val: u32,
)
    requires
        view_wf(v),
    ensures
        query_model(v, qid, pos, ew, eh).contains(val) <==> (val != qid && cells_have(
            v.grid,
            touched_cells(pos, ew, eh, v.shift),
            val,
        )),
{
    lemma_query_cells_membership(
        Seq::empty(),
        v.grid,
        touched_cells(pos, ew, eh, v.shift),
        qid,
        probe_ideal(pos, ew, eh, v.shift),
        val,
    );
}

/// No listed cell selects slot `s`, so none hits it.
pub proof fn lemma_cell_hits_zero(cells: Seq<(u32, u32)>, len: nat, s: int)
    requires
        forall|i: int|
            0 <= i < cells.len() ==> grid_slot(len, #[trigger] cells[i].0, cells[i].1) != s,
    ensures
        cell_hits(cells, len, s) == 0,
    decreases cells.len(),
{
    if cells.len() > 0 {
        assert(forall|i: int|
            0 <= i < cells.drop_first().len() ==> grid_slot(
                len,
                #[trigger] cells.drop_first()[i].0,
                cells.drop_first()[i].1,
            ) != s);
        lemma_cell_hits_zero(cells.drop_first(), len, s);
    }
}

/// An entity inserted into cells that share no table slot with a probe
/// region's cells is never returned by that probe, if it was absent
/// before the insertion.
pub proof fn lemma_separated_entity_not_returned(
    v: GridView,
    b_id: u32,
    b_pos: PositionVector,
    b_ew: u32,
    b_eh: u32,
    qid: u32,
    q_pos: PositionVector,
    q_ew: u32,
    q_eh: u32,
)
    requires
        view_wf(v),
        b_id < 0x8000_0000,
        forall|s: int| 0 <= s < v.grid.len() ==> !bucket_has(#[trigger] v.grid[s], b_id),
        forall|i: int, j: int|
            0 <= i < touched_cells(b_pos, b_ew, b_eh, v.shift).len() && 0 <= j < touched_cells(
                q_pos,
                q_ew,
                q_eh,
                v.shift,
            ).len() ==> grid_slot(
                v.grid.len(),
                #[trigger] touched_cells(b_pos, b_ew, b_eh, v.shift)[i].0,
                touched_cells(b_pos, b_ew, b_eh, v.shift)[i].1,
            ) != grid_slot(
                v.grid.len(),
                #[trigger] touched_cells(q_pos, q_ew, q_eh, v.shift)[j].0,
                touched_cells(q_pos, q_ew, q_eh, v.shift)[j].1,
            ),
    ensures
        !query_model(
            insert_model(v, b_id, b_pos, b_ew, b_eh),
            qid,
            q_pos,
            q_ew,
            q_eh,
        ).contains(b_id),
{
    let bcells = touched_cells(b_pos, b_ew, b_eh, v.shift);
    let qcells = touched_cells(q_pos, q_ew, q_eh, v.shift);
    let p = pack_id(b_id, probe_ideal(b_pos, b_ew, b_eh, v.shift));
    let v1 = insert_model(v, b_id, b_pos, b_ew, b_eh);
    lemma_buckets_insert_characterized(v.grid, bcells, p);
    assert(!cells_have(v1.grid, qcells, b_id)) by {
        assert forall|j: int| 0 <= j < qcells.len() implies !bucket_has(
            v1.grid[grid_slot(v1.grid.len(), #[trigger] qcells[j].0, qcells[j].1)],
            b_id,
        ) by {
            let s = grid_slot(v.grid.len(), qcells[j].0, qcells[j].1);
            assert(forall|i: int|
                0 <= i < bcells.len() ==> grid_slot(
                    v.grid.len(),
                    #[trigger] bcells[i].0,
                    bcells[i].1,
                ) != s);
            lemma_cell_hits_zero(bcells, v.grid.len(), s);
            assert(0 <= s < v.grid.len());
            assert(v1.grid[s] == v.grid[s] + repeated(p, 0));
            assert(v1.grid[s] =~= v.grid[s]);
        }
    }
    lemma_query_membership(v1, qid, q_pos, q_ew, q_eh, b_id);
}

/// How many elements of a result sequence equal `x`.
pub open spec fn occ_of(s: Seq<u32>, x: u32) -> nat
    decreases s.len(),
{
    if s.len() == 0 {
        0
    } else {
        (if s[0] == x {
            1nat
        } else {
            0nat
        }) + occ_of(s.drop_first(), x)
    }
}

/// How many elements of a bucket unpack to `val`.
pub open spec fn bucket_count(b: Seq<u32>, val: u32) -> nat
    decreases b.len(),
{
    if b.len() == 0 {
        0
    } else {
        (if unpack_id(b[0]) == val {
            1nat
        } else {
            0nat
        }) + bucket_count(b.drop_first(), val)
    }
}

/// How many elements of the probed buckets unpack to `val`, counted once
/// per listed cell.
pub open spec fn cells_count(g: Seq<Seq<u32>>, cells: Seq<(u32, u32)>, val: u32) -> nat
    recommends
        g.len() >= 1,
    decreases cells.len(),
{
    if cells.len() == 0 {
        0
    } else {
        bucket_count(g[grid_slot(g.len(), cells[0].0, cells[0].1)], val) + cells_count(
            g,
            cells.drop_first(),
            val,
        )
    }
}

/// Appending changes the count of `x` by one exactly when the appended
/// element is `x`.
pub proof fn lemma_occ_push(s: Seq<u32>, v: u32, x: u32)
    ensures
        occ_of(s.push(v), x) == occ_of(s, x) + (if v == x {
            1nat
        } else {
            0nat
        }),
    decreases s.len(),
{
    if s.len() == 0 {
        assert(s.push(v)[0] == v);
        assert(s.push(v).drop_first() =~= Seq::<u32>::empty());
        assert(occ_of(s.push(v).drop_first(), x) == 0);
    } else {
        assert(s.push(v)[0] == s[0]);
        assert(s.push(v).drop_first() =~= s.drop_first().push(v));
        lemma_occ_push(s.drop_first(), v, x);
    }
}

/// A sequence holds `x` exactly when it holds it at least once.
pub proof fn lemma_occ_contains(s: Seq<u32>, x: u32)
    ensures
        occ_of(s, x) >= 1 <==> s.contains(x),
    decreases s.len(),
{
    if s.len() > 0 {
        lemma_occ_contains(s.drop_first(), x);
        if s.contains(x) {
            let j = choose|j: int| 0 <= j < s.len() && s[j] == x;
            if j > 0 {
                assert(s.drop_first()[j - 1] == x);
            }
        }
        if s.drop_first().contains(x) {
            let j = choose|j: int| 0 <= j < s.drop_first().len() && s.drop_first()[j] == x;
            assert(s[j + 1] == x);
        }
    }
}

/// No element of a bucket unpacks to `val` exactly when the count is
/// zero.
pub proof fn lemma_bucket_count_zero(b: Seq<u32>, val: u32)
    ensures
        bucket_count(b, val) == 0 <==> !bucket_has(b, val),
    decreases b.len(),
{
    if b.len() > 0 {
        lemma_bucket_count_zero(b.drop_first(), val);
        if bucket_has(b, val) {
            let j = choose|j: int| 0 <= j < b.len() && unpack_id(b[j]) == val;
            if j > 0 {
                assert(unpack_id(b.drop_first()[j - 1]) == val);
            }
        }
        if bucket_has(b.drop_first(), val) {
            let j = choose|j: int|
                0 <= j < b.drop_first().len() && unpack_id(b.drop_first()[j]) == val;
            assert(unpack_id(b[j + 1]) == val);
        }
    }
}

/// A scan step on an element that does not unpack to `val` leaves the
/// count and membership of `val` unchanged.
pub proof fn lemma_query_step_other(acc: Seq<u32>, e: u32, qid: u32, ideal: bool, val: u32)
    requires
        unpack_id(e) != val,
    ensures
        occ_of(query_step(acc, e, qid, ideal), val) == occ_of(acc, val),
        query_step(acc, e, qid, ideal).contains(val) == acc.contains(val),
{
    let u = unpack_id(e);
    lemma_occ_push(acc, u, val);
    lemma_push_contains(acc, u, val);
}

/// Scanning a bucket with no match of `val` leaves its count and
/// membership unchanged.
pub proof fn lemma_query_bucket_no_match(acc: Seq<u32>, b: Seq<u32>, qid: u32, ideal: bool, val: u32)
    requires
        bucket_count(b, val) == 0,
    ensures
        occ_of(query_bucket(acc, b, qid, ideal), val) == occ_of(acc, val),
        query_bucket(acc, b, qid, ideal).contains(val) == acc.contains(val),
    decreases b.len(),
{
    if b.len() > 0 {
        lemma_query_step_other(acc, b[0], qid, ideal, val);
        lemma_query_bucket_no_match(query_step(acc, b[0], qid, ideal), b.drop_first(), qid, ideal, val);
    }
}

/// Scanning the probed buckets with no match of `val` anywhere leaves
/// its count and membership unchanged.
pub proof fn lemma_query_cells_no_match(
    acc: Seq<u32>,
    g: Seq<Seq<u32>>,
    cells: Seq<(u32, u32)>,
    qid: u32,
    ideal: bool,
    val: u32,
)
    requires
        g.len() >= 1,
        cells_count(g, cells, val) == 0,
    ensures
        occ_of(query_cells(acc, g, cells, qid, ideal), val) == occ_of(acc, val),
        query_cells(acc, g, cells, qid, ideal).contains(val) == acc.contains(val),
    decreases cells.len(),
{
    if cells.len() > 0 {
        let b = g[grid_slot(g.len(), cells[0].0, cells[0].1)];
        lemma_query_bucket_no_match(acc, b, qid, ideal, val);
        lemma_query_cells_no_match(
            query_bucket(acc, b, qid, ideal),
            g,
            cells.drop_first(),
            qid,
            ideal,
            val,
        );
    }
}

/// Scanning a bucket holding exactly one match of `val`, into a result
/// that does not yet hold it, yields it exactly once.
pub proof fn lemma_query_bucket_single(acc: Seq<u32>, b: Seq<u32>, qid: u32, ideal: bool, val: u32)
    requires
        val != qid,
        bucket_count(b, val) == 1,
        occ_of(acc, val) == 0,
    ensures
        occ_of(query_bucket(acc, b, qid, ideal), val) == 1,
    decreases b.len(),
{
    lemma_occ_contains(acc, val);
    let acc1 = query_step(acc, b[0], qid, ideal);
    if unpack_id(b[0]) == val {
        lemma_occ_push(acc, val, val);
        assert(occ_of(acc1, val) == 1);
        lemma_query_bucket_no_match(acc1, b.drop_first(), qid, ideal, val);
    } else {
        lemma_query_step_other(acc, b[0], qid, ideal, val);
        lemma_query_bucket_single(acc1, b.drop_first(), qid, ideal, val);
    }
}

/// Scanning the probed buckets holding exactly one match of `val` in all,
/// into a result not yet holding it, yields it exactly once.
pub proof fn lemma_query_cells_single(
    acc: Seq<u32>,
    g: Seq<Seq<u32>>,
    cells: Seq<(u32, u32)>,
    qid: u32,
    ideal: bool,
    val: u32,
)
    requires
        g.len() >= 1,
        val != qid,
        cells_count(g, cells, val) == 1,
        occ_of(acc, val) == 0,
    ensures
        occ_of(query_cells(acc, g, cells, qid, ideal), val) == 1,
    decreases cells.len(),
{
    let b = g[grid_slot(g.len(), cells[0].0, cells[0].1)];
    let acc1 = query_bucket(acc, b, qid, ideal);
    if bucket_count(b, val) == 1 {
        lemma_query_bucket_single(acc, b, qid, ideal, val);
        lemma_query_cells_no_match(acc1, g, cells.drop_first(), qid, ideal, val);
    } else {
        lemma_query_bucket_no_match(acc, b, qid, ideal, val);
        lemma_query_cells_single(acc1, g, cells.drop_first(), qid, ideal, val);
    }
}

/// True when every stored element unpacking to `val` is unflagged, i.e.
/// the entity was never inserted as single-cell.
pub open spec fn val_unflagged_everywhere(g: Seq<Seq<u32>>, val: u32) -> bool {
    forall|s: int, j: int|
        0 <= s < g.len() && 0 <= j < g[s].len() && unpack_id(#[trigger] g[s][j]) == val
            ==> !is_flagged(g[s][j])
}

/// Scanning a bucket whose matches of `val` are all unflagged, under a
/// multi-cell probe, yields `val` exactly once when the result holds it
/// or the bucket does, and keeps it at most once.
pub proof fn lemma_query_bucket_dedup(acc: Seq<u32>, b: Seq<u32>, qid: u32, val: u32)
    requires
        val != qid,
        forall|j: int|
            0 <= j < b.len() && unpack_id(#[trigger] b[j]) == val ==> !is_flagged(b[j]),
        occ_of(acc, val) == (if acc.contains(val) {
            1nat
        } else {
            0nat
        }),
    ensures
        occ_of(query_bucket(acc, b, qid, false), val) == (if acc.contains(val) || bucket_count(
            b,
            val,
        ) >= 1 {
            1nat
        } else {
            0nat
        }),
        query_bucket(acc, b, qid, false).contains(val) == (acc.contains(val) || bucket_count(
            b,
            val,
        ) >= 1),
    decreases b.len(),
{
    if b.len() == 0 {
    } else {
        let acc1 = query_step(acc, b[0], qid, false);
        if unpack_id(b[0]) == val {
            assert(!is_flagged(b[0]));
            if acc.contains(val) {
                assert(acc1 == acc);
            } else {
                lemma_occ_push(acc, val, val);
                lemma_push_contains(acc, val, val);
            }
        } else {
            lemma_query_step_other(acc, b[0], qid, false, val);
        }
        assert(forall|j: int|
            0 <= j < b.drop_first().len() && unpack_id(#[trigger] b.drop_first()[j]) == val
                ==> !is_flagged(b.drop_first()[j]));
        lemma_query_bucket_dedup(acc1, b.drop_first(), qid, val);
    }
}

/// Scanning the probed buckets, all of whose matches of `val` are
/// unflagged, under a multi-cell probe, yields `val` exactly once
/// whenever any probed bucket holds it.
pub proof fn lemma_query_cells_dedup(
    acc: Seq<u32>,
    g: Seq<Seq<u32>>,
    cells: Seq<(u32, u32)>,
    qid: u32,
    val: u32,
)
    requires
        g.len() >= 1,
        val != qid,
        val_unflagged_everywhere(g, val),
        occ_of(acc, val) == (if acc.contains(val) {
            1nat
        } else {
            0nat
        }),
    ensures
        occ_of(query_cells(acc, g, cells, qid, false), val) == (if acc.contains(val)
            || cells_count(g, cells, val) >= 1 {
            1nat
        } else {
            0nat
        }),
        query_cells(acc, g, cells, qid, false).contains(val) == (acc.contains(val)
            || cells_count(g, cells, val) >= 1),
    decreases cells.len(),
{
    if cells.len() > 0 {
        let s = grid_slot(g.len(), cells[0].0, cells[0].1);
        let b = g[s];
        lemma_query_bucket_dedup(acc, b, qid, val);
        lemma_query_cells_dedup(query_bucket(acc, b, qid, false), g, cells.drop_first(), qid, val);
    }
}

/// An entity recorded exactly once across the probed buckets is returned
/// exactly once, whatever its flag and whatever the probe's shape.
pub proof fn lemma_query_returns_once_single(
    v: GridView,
    qid: u32,
    pos: PositionVector,
    ew: u32,
    eh: u32,
    val: u32,
)
    requires
        view_wf(v),
        val != qid,
        cells_count(v.grid, touched_cells(pos, ew, eh, v.shift), val) == 1,
    ensures
        occ_of(query_model(v, qid, pos, ew, eh), val) == 1,
{
    lemma_query_cells_single(
        Seq::empty(),
        v.grid,
        touched_cells(pos, ew, eh, v.shift),
        qid,
        probe_ideal(pos, ew, eh, v.shift),
        val,
    );
}

/// An entity stored only unflagged (inserted as multi-cell), present in
/// the probed buckets however many times, is returned exactly once by a
/// multi-cell probe.
pub proof fn lemma_query_returns_once_dedup(
    v: GridView,
    qid: u32,
    pos: PositionVector,
    ew: u32,
    eh: u32,
    val: u32,
)
    requires
        view_wf(v),
        val != qid,
        !probe_ideal(pos, ew, eh, v.shift),
        val_unflagged_everywhere(v.grid, val),
        cells_count(v.grid, touched_cells(pos, ew, eh, v.shift), val) >= 1,
    ensures
        occ_of(query_model(v, qid, pos, ew, eh), val) == 1,
{
    lemma_query_cells_dedup(
        Seq::empty(),
        v.grid,
        touched_cells(pos, ew, eh, v.shift),
        qid,
        val,
    );
}

/// A cell among the listed ones selects slot `s`, so the hits there are
/// positive.
pub proof fn lemma_cell_hits_positive(cells: Seq<(u32, u32)>, len: nat, s: int, i: int)
    requires
        0 <= i < cells.len(),
        grid_slot(len, cells[i].0, cells[i].1) == s,
    ensures
        cell_hits(cells, len, s) >= 1,
    decreases i,
{
    if i > 0 {
        assert(cells.drop_first()[i - 1] == cells[i]);
        lemma_cell_hits_positive(cells.drop_first(), len, s, i - 1);
    }
}

/// The total count over the listed cells is at least any one visited
/// bucket's count.
pub proof fn lemma_cells_count_at_least(
    g: Seq<Seq<u32>>,
    cells: Seq<(u32, u32)>,
    val: u32,
    j: int,
)
    requires
        g.len() >= 1,
        0 <= j < cells.len(),
    ensures
        cells_count(g, cells, val) >= bucket_count(
            g[grid_slot(g.len(), cells[j].0, cells[j].1)],
            val,
        ),
    decreases j,
{
    if j > 0 {
        assert(cells.drop_first()[j - 1] == cells[j]);
        lemma_cells_count_at_least(g, cells.drop_first(), val, j - 1);
    }
}

/// A multi-cell entity freshly inserted into a region that shares a table
/// slot with a multi-cell probe region is returned by that probe exactly
/// once, however many of its cells the probe covers.
pub proof fn lemma_inserted_straddler_returned_once(
    v: GridView,
    b_id: u32,
    b_pos: PositionVector,
    b_ew: u32,
    b_eh: u32,
    qid: u32,
    q_pos: PositionVector,
    q_ew: u32,
    q_eh: u32,
    bi: int,
    qj: int,
)
    requires
        view_wf(v),
        b_id < 0x8000_0000,
        b_id != qid,
        forall|s: int| 0 <= s < v.grid.len() ==> !bucket_has(#[trigger] v.grid[s], b_id),
        !probe_ideal(b_pos, b_ew, b_eh, v.shift),
        !probe_ideal(q_pos, q_ew, q_eh, v.shift),
        0 <= bi < touched_cells(b_pos, b_ew, b_eh, v.shift).len(),
        0 <= qj < touched_cells(q_pos, q_ew, q_eh, v.shift).len(),
        grid_slot(
            v.grid.len(),
            touched_cells(b_pos, b_ew, b_eh, v.shift)[bi].0,
            touched_cells(b_pos, b_ew, b_eh, v.shift)[bi].1,
        ) == grid_slot(
            v.grid.len(),
            touched_cells(q_pos, q_ew, q_eh, v.shift)[qj].0,
            touched_cells(q_pos, q_ew, q_eh, v.shift)[qj].1,
        ),
    ensures
        occ_of(
            query_model(insert_model(v, b_id, b_pos, b_ew, b_eh), qid, q_pos, q_ew, q_eh),
            b_id,
        ) == 1,
{
    let bcells = touched_cells(b_pos, b_ew, b_eh, v.shift);
    let qcells = touched_cells(q_pos, q_ew, q_eh, v.shift);
    let p = pack_id(b_id, probe_ideal(b_pos, b_ew, b_eh, v.shift));
    assert(p == b_id);
    assert(unpack_id(p) == b_id);
    assert(!is_flagged(p));
    let v1 = insert_model(v, b_id, b_pos, b_ew, b_eh);
    lemma_buckets_insert_characterized(v.grid, bcells, p);
    assert forall|s: int, j: int|
        0 <= s < v1.grid.len() && 0 <= j < v1.grid[s].len() && unpack_id(
            #[trigger] v1.grid[s][j],
        ) == b_id implies !is_flagged(v1.grid[s][j]) by {
        assert(v1.grid[s] == v.grid[s] + repeated(p, cell_hits(bcells, v.grid.len(), s)));
        if j < v.grid[s].len() {
            assert(v1.grid[s][j] == v.grid[s][j]);
            assert(!bucket_has(v.grid[s], b_id));
        } else {
            assert(v1.grid[s][j] == p);
        }
    }
    let s = grid_slot(v.grid.len(), qcells[qj].0, qcells[qj].1);
    lemma_cell_hits_positive(bcells, v.grid.len(), s, bi);
    assert(bucket_has(v1.grid[s], b_id)) by {
        assert(v1.grid[s] == v.grid[s] + repeated(p, cell_hits(bcells, v.grid.len(), s)));
        assert(unpack_id(v1.grid[s][v.grid[s].len() as int]) == b_id);
    }
    lemma_bucket_count_has(v1.grid[s], b_id);
    lemma_cells_count_at_least(v1.grid, qcells, b_id, qj);
    lemma_query_returns_once_dedup(v1, qid, q_pos, q_ew, q_eh, b_id);
}

/// A bucket scan appends only unpacked ids to a result of unpacked ids.
pub proof fn lemma_query_bucket_normalized(acc: Seq<u32>, b: Seq<u32>, qid: u32, ideal: bool)
    requires
        forall|i: int| 0 <= i < acc.len() ==> #[trigger] acc[i] < 0x8000_0000,
    ensures
        forall|i: int|
            0 <= i < query_bucket(acc, b, qid, ideal).len() ==> #[trigger] query_bucket(
                acc,
                b,
                qid,
                ideal,
            )[i] < 0x8000_0000,
    decreases b.len(),
{
    let r = query_bucket(acc, b, qid, ideal);
    if b.len() == 0 {
        assert forall|i: int| 0 <= i < r.len() implies #[trigger] r[i] < 0x8000_0000 by {
            assert(r[i] == acc[i]);
        }
    } else {
        let acc1 = query_step(acc, b[0], qid, ideal);
        let u = unpack_id(b[0]);
        assert(u < 0x8000_0000);
        if acc1 != acc {
            assert(acc1 == acc.push(u));
            assert forall|i: int| 0 <= i < acc1.len() implies #[trigger] acc1[i]
                < 0x8000_0000 by {
                if i < acc.len() {
                    assert(acc1[i] == acc[i]);
                } else {
                    assert(acc1[i] == u);
                }
            }
        }
        lemma_query_bucket_normalized(acc1, b.drop_first(), qid, ideal);
        let r1 = query_bucket(acc1, b.drop_first(), qid, ideal);
        assert forall|i: int| 0 <= i < r.len() implies #[trigger] r[i] < 0x8000_0000 by {
            assert(r[i] == r1[i]);
        }
    }
}

/// A scan of many buckets appends only unpacked ids.
pub proof fn lemma_query_cells_normalized(
    acc: Seq<u32>,
    g: Seq<Seq<u32>>,
    cells: Seq<(u32, u32)>,
    qid: u32,
    ideal: bool,
)
    requires
        g.len() >= 1,
        forall|i: int| 0 <= i < acc.len() ==> #[trigger] acc[i] < 0x8000_0000,
    ensures
        forall|i: int|
            0 <= i < query_cells(acc, g, cells, qid, ideal).len() ==> #[trigger] query_cells(
                acc,
                g,
                cells,
                qid,
                ideal,
            )[i] < 0x8000_0000,
    decreases cells.len(),
{
    let r = query_cells(acc, g, cells, qid, ideal);
    if cells.len() == 0 {
        assert forall|i: int| 0 <= i < r.len() implies #[trigger] r[i] < 0x8000_0000 by {
            assert(r[i] == acc[i]);
        }
    } else {
        let b = g[grid_slot(g.len(), cells[0].0, cells[0].1)];
        lemma_query_bucket_normalized(acc, b, qid, ideal);
        let acc1 = query_bucket(acc, b, qid, ideal);
        lemma_query_cells_normalized(acc1, g, cells.drop_first(), qid, ideal);
        let r1 = query_cells(acc1, g, cells.drop_first(), qid, ideal);
        assert forall|i: int| 0 <= i < r.len() implies #[trigger] r[i] < 0x8000_0000 by {
            assert(r[i] == r1[i]);
        }
    }
}

/// Every id a query returns is normalized: the single-cell flag is masked
/// off before an id reaches the result, on every path.
pub proof fn lemma_query_returns_unpacked_ids(
    v: GridView,
    qid: u32,
    pos: PositionVector,
    ew: u32,
    eh: u32,
)
    requires
        view_wf(v),
    ensures
        forall|i: int|
            0 <= i < query_model(v, qid, pos, ew, eh).len() ==> #[trigger] query_model(
                v,
                qid,
                pos,
                ew,
                eh,
            )[i] < 0x8000_0000,
{
    lemma_query_cells_normalized(
        Seq::empty(),
        v.grid,
        touched_cells(pos, ew, eh, v.shift),
        qid,
        probe_ideal(pos, ew, eh, v.shift),
    );
}

/// The bucket without the elements that unpack to `id`, order kept.
pub open spec fn without_id(b: Seq<u32>, id: u32) -> Seq<u32>
    decreases b.len(),
{
    if b.len() == 0 {
        b
    } else if unpack_id(b[0]) == id {
        without_id(b.drop_first(), id)
    } else {
        seq![b[0]] + without_id(b.drop_first(), id)
    }
}

/// Dropping the `id` elements keeps the membership of every other id.
pub proof fn lemma_without_id_membership(b: Seq<u32>, id: u32, val: u32)
    requires
        val != id,
    ensures
        bucket_has(without_id(b, id), val) == bucket_has(b, val),
    decreases b.len(),
{
    if b.len() > 0 {
        lemma_without_id_membership(b.drop_first(), id, val);
        assert(bucket_has(b, val) <==> (unpack_id(b[0]) == val || bucket_has(
            b.drop_first(),
            val,
        ))) by {
            if bucket_has(b, val) {
                let j = choose|j: int| 0 <= j < b.len() && unpack_id(b[j]) == val;
                if j > 0 {
                    assert(unpack_id(b.drop_first()[j - 1]) == val);
                }
            }
            if bucket_has(b.drop_first(), val) {
                let j = choose|j: int|
                    0 <= j < b.drop_first().len() && unpack_id(b.drop_first()[j]) == val;
                assert(unpack_id(b[j + 1]) == val);
            }
        }
        if unpack_id(b[0]) != id {
            let w = seq![b[0]] + without_id(b.drop_first(), id);
            assert(bucket_has(w, val) <==> (unpack_id(b[0]) == val || bucket_has(
                without_id(b.drop_first(), id),
                val,
            ))) by {
                if bucket_has(w, val) {
                    let j = choose|j: int| 0 <= j < w.len() && unpack_id(w[j]) == val;
                    if j > 0 {
                        assert(w[j] == without_id(b.drop_first(), id)[j - 1]);
                    }
                }
                if bucket_has(without_id(b.drop_first(), id), val) {
                    let j = choose|j: int|
                        0 <= j < without_id(b.drop_first(), id).len() && unpack_id(
                            without_id(b.drop_first(), id)[j],
                        ) == val;
                    assert(unpack_id(w[j + 1]) == val);
                }
                if unpack_id(b[0]) == val {
                    assert(unpack_id(w[0]) == val);
                }
            }
        }
    }
}

/// Removing the first match drops the match count by one and leaves the
/// other elements as they were.
pub proof fn lemma_remove_first_match_counts(b: Seq<u32>, id: u32)
    requires
        bucket_count(b, id) >= 1,
    ensures
        bucket_count(remove_first_match(b, id), id) == bucket_count(b, id) - 1,
        without_id(remove_first_match(b, id), id) == without_id(b, id),
    decreases b.len(),
{
    if unpack_id(b[0]) == id {
    } else {
        lemma_remove_first_match_counts(b.drop_first(), id);
        let r = seq![b[0]] + remove_first_match(b.drop_first(), id);
        assert(r[0] == b[0]);
        assert(r.drop_first() =~= remove_first_match(b.drop_first(), id));
    }
}

/// Deleting with a record whose hits match the stored counts removes the
/// entity everywhere and keeps every other element.
pub proof fn lemma_buckets_delete_counts(g: Seq<Seq<u32>>, cells: Seq<(u32, u32)>, id: u32)
    requires
        g.len() >= 1,
        forall|s: int|
            0 <= s < g.len() ==> bucket_count(#[trigger] g[s], id) == cell_hits(
                cells,
                g.len(),
                s,
            ),
    ensures
        buckets_deletable(g, cells, id),
        buckets_delete(g, cells, id).len() == g.len(),
        forall|s: int|
            0 <= s < g.len() ==> bucket_count(#[trigger] buckets_delete(g, cells, id)[s], id)
                == 0,
        forall|s: int|
            0 <= s < g.len() ==> without_id(#[trigger] buckets_delete(g, cells, id)[s], id)
                == without_id(g[s], id),
    decreases cells.len(),
{
    if cells.len() == 0 {
    } else {
        let s0 = grid_slot(g.len(), cells[0].0, cells[0].1);
        assert(cell_hits(cells, g.len(), s0) >= 1);
        lemma_bucket_count_zero(g[s0], id);
        lemma_remove_first_match_counts(g[s0], id);
        let g1 = g.update(s0, remove_first_match(g[s0], id));
        assert forall|s: int| 0 <= s < g1.len() implies bucket_count(#[trigger] g1[s], id)
            == cell_hits(cells.drop_first(), g1.len(), s) by {
            if s == s0 {
                assert(cell_hits(cells, g.len(), s) == 1 + cell_hits(
                    cells.drop_first(),
                    g.len(),
                    s,
                ));
            } else {
                assert(cell_hits(cells, g.len(), s) == cell_hits(
                    cells.drop_first(),
                    g.len(),
                    s,
                ));
            }
        }
        lemma_buckets_delete_counts(g1, cells.drop_first(), id);
    }
}

/// Membership in a concatenation of buckets.
pub proof fn lemma_bucket_has_concat(a: Seq<u32>, b: Seq<u32>, val: u32)
    ensures
        bucket_has(a + b, val) <==> (bucket_has(a, val) || bucket_has(b, val)),
{
    if bucket_has(a, val) {
        let j = choose|j: int| 0 <= j < a.len() && unpack_id(a[j]) == val;
        assert(unpack_id((a + b)[j]) == val);
    }
    if bucket_has(b, val) {
        let j = choose|j: int| 0 <= j < b.len() && unpack_id(b[j]) == val;
        assert(unpack_id((a + b)[a.len() + j]) == val);
    }
    if bucket_has(a + b, val) {
        let j = choose|j: int| 0 <= j < (a + b).len() && unpack_id((a + b)[j]) == val;
        if j < a.len() {
            assert(unpack_id(a[j]) == val);
        } else {
            assert(unpack_id(b[j - a.len()]) == val);
        }
    }
}

/// A run of one packed id holds exactly that id, when it is not empty.
pub proof fn lemma_repeated_has(p: u32, k: nat, val: u32)
    ensures
        bucket_has(repeated(p, k), val) <==> (k >= 1 && unpack_id(p) == val),
{
    if k >= 1 && unpack_id(p) == val {
        assert(unpack_id(repeated(p, k)[0]) == val);
    }
}

/// A bucket holds an id exactly when its count of it is positive.
pub proof fn lemma_bucket_count_has(b: Seq<u32>, val: u32)
    ensures
        bucket_count(b, val) >= 1 <==> bucket_has(b, val),
{
    lemma_bucket_count_zero(b, val);
}

/// Reinserting an entity at an unchanged position and extent restores the
/// occupancy records exactly and answers every query with the same set of
/// ids as before, provided the entity's record is intact: its recorded
/// cells are exactly its box's cells and its stored copies are accounted
/// for by those cells, one per hit.
pub proof fn lemma_reinsert_unchanged_equivalent(
    v: GridView,
    id: u32,
    pos: PositionVector,
    ew: u32,
    eh: u32,
    qid: u32,
    q_pos: PositionVector,
    q_ew: u32,
    q_eh: u32,
    val: u32,
)
    requires
        view_wf(v),
        id < 0x8000_0000,
        v.maps[map_slot(v.maps.len(), id)] == touched_cells(pos, ew, eh, v.shift),
        forall|s: int|
            0 <= s < v.grid.len() ==> bucket_count(#[trigger] v.grid[s], id) == cell_hits(
                touched_cells(pos, ew, eh, v.shift),
                v.grid.len(),
                s,
            ),
    ensures
        grid_deletable(v, id),
        insert_model(delete_model(v, id), id, pos, ew, eh).maps == v.maps,
        insert_model(delete_model(v, id), id, pos, ew, eh).shift == v.shift,
        query_model(insert_model(delete_model(v, id), id, pos, ew, eh), qid, q_pos, q_ew, q_eh)
            .contains(val) == query_model(v, qid, q_pos, q_ew, q_eh).contains(val),
{
    let ms = map_slot(v.maps.len(), id);
    let cells = touched_cells(pos, ew, eh, v.shift);
    let ideal = probe_ideal(pos, ew, eh, v.shift);
    let p = pack_id(id, ideal);
    lemma_pack_unpack(id, ideal);
    lemma_buckets_delete_counts(v.grid, cells, id);
    let v1 = delete_model(v, id);
    let v2 = insert_model(v1, id, pos, ew, eh);
    assert(v1.maps[ms] == Seq::<(u32, u32)>::empty());
    assert(v2.maps[ms] =~= cells) by {
        assert(Seq::<(u32, u32)>::empty() + cells =~= cells);
    }
    assert(v2.maps =~~= v.maps);
    lemma_buckets_insert_characterized(v1.grid, cells, p);
    assert forall|s: int| 0 <= s < v.grid.len() implies bucket_has(#[trigger] v2.grid[s], val)
        == bucket_has(v.grid[s], val) by {
        let k = cell_hits(cells, v.grid.len(), s);
        assert(v2.grid[s] == v1.grid[s] + repeated(p, k));
        lemma_bucket_has_concat(v1.grid[s], repeated(p, k), val);
        lemma_repeated_has(p, k, val);
        if val == id {
            lemma_bucket_count_has(v1.grid[s], id);
            lemma_bucket_count_has(v.grid[s], id);
        } else {
            lemma_without_id_membership(v1.grid[s], id, val);
            lemma_without_id_membership(v.grid[s], id, val);
        }
    }
    let qcells = touched_cells(q_pos, q_ew, q_eh, v.shift);
    assert(cells_have(v2.grid, qcells, val) == cells_have(v.grid, qcells, val)) by {
        if cells_have(v2.grid, qcells, val) {
            let i = choose|i: int|
                0 <= i < qcells.len() && bucket_has(
                    v2.grid[grid_slot(v2.grid.len(), #[trigger] qcells[i].0, qcells[i].1)],
                    val,
                );
            assert(bucket_has(
                v.grid[grid_slot(v.grid.len(), qcells[i].0, qcells[i].1)],
                val,
            ));
        }
        if cells_have(v.grid, qcells, val) {
            let i = choose|i: int|
                0 <= i < qcells.len() && bucket_has(
                    v.grid[grid_slot(v.grid.len(), #[trigger] qcells[i].0, qcells[i].1)],
                    val,
                );
            assert(bucket_has(
                v2.grid[grid_slot(v2.grid.len(), qcells[i].0, qcells[i].1)],
                val,
            ));
        }
    }
    lemma_query_membership(v2, qid, q_pos, q_ew, q_eh, val);
    lemma_query_membership(v, qid, q_pos, q_ew, q_eh, val);
}

} // verus!
