use vstd::prelude::*;
use crate::state::geometry::{CellRange, add_to_cells, remove_from_cells, range_cells, ids_in, ids_in_range};

verus! {

/// One operation on the spatial index, as `SpatialIndex::insert`, `remove`
/// and `clear` perform it.
#[derive(Clone, Copy, PartialEq, Eq, Debug, Structural)]
pub enum IndexOp {
    /// Record the id over the range.
    Insert(u64, CellRange),
    /// Forget the id over the range.
    Remove(u64, CellRange),
    /// Forget everything.
    Clear,
}

/// The abstract index after one operation.
pub open spec fn index_step(m: Map<(i32, i32), Set<u64>>, op: IndexOp) -> Map<(i32, i32), Set<u64>> {
    match op {
        IndexOp::Insert(id, r) => add_to_cells(m, id, range_cells(r)),
        IndexOp::Remove(id, r) => remove_from_cells(m, id, range_cells(r)),
        IndexOp::Clear => Map::<(i32, i32), Set<u64>>::empty(),
    }
}

/// The abstract index after the operations of `ops`, first to last.
pub open spec fn index_after(m: Map<(i32, i32), Set<u64>>, ops: Seq<IndexOp>) -> Map<(i32, i32), Set<u64>>
    decreases ops.len(),
{
    if ops.len() == 0 {
        m
    } else {
        index_after(index_step(m, ops[0]), ops.drop_first())
    }
}

/// The live entries (each id with the range it was recorded over) after one
/// operation.
pub open spec fn live_step(l: Map<u64, CellRange>, op: IndexOp) -> Map<u64, CellRange> {
    match op {
        IndexOp::Insert(id, r) => l.insert(id, r),
        IndexOp::Remove(id, _) => l.remove(id),
        IndexOp::Clear => Map::<u64, CellRange>::empty(),
    }
}

/// The live entries after the operations of `ops`, first to last.
pub open spec fn live_after(l: Map<u64, CellRange>, ops: Seq<IndexOp>) -> Map<u64, CellRange>
    decreases ops.len(),
{
    if ops.len() == 0 {
        l
    } else {
        live_after(live_step(l, ops[0]), ops.drop_first())
    }
}

/// The operation is used as intended on the live entries `l`: an id is
/// recorded only while it is not live, and a live id is forgotten with the
/// range it was recorded over (forgetting an id that is not live is allowed
/// and changes nothing).
pub open spec fn op_fits(l: Map<u64, CellRange>, op: IndexOp) -> bool {
    match op {
        IndexOp::Insert(id, _) => !l.contains_key(id),
        IndexOp::Remove(id, r) => l.contains_key(id) ==> l[id] == r,
        IndexOp::Clear => true,
    }
}

/// Every operation of `ops` is used as intended, in turn.
pub open spec fn ops_fit(l: Map<u64, CellRange>, ops: Seq<IndexOp>) -> bool
    decreases ops.len(),
{
    ops.len() == 0 || (op_fits(l, ops[0]) && ops_fit(live_step(l, ops[0]), ops.drop_first()))
}

/// The index `m` records exactly the live entries `l`: each cell lists the
/// live ids whose range holds it.
pub open spec fn records(m: Map<(i32, i32), Set<u64>>, l: Map<u64, CellRange>) -> bool {
    forall|c: (i32, i32)| #[trigger] ids_in(m, c) == Set::new(|id: u64| l.contains_key(id) && l[id].holds(c))
}

/// The live ids whose range shares a cell with `q`.
pub open spec fn live_in_range(l: Map<u64, CellRange>, q: CellRange) -> Set<u64> {
    Set::new(|id: u64| l.contains_key(id) && exists|c: (i32, i32)| l[id].holds(c) && q.holds(c))
}

/// One operation used as intended keeps the index recording the live entries.
proof fn lemma_step_records(m: Map<(i32, i32), Set<u64>>, l: Map<u64, CellRange>, op: IndexOp)
    requires
        records(m, l),
        op_fits(l, op),
    ensures
        records(index_step(m, op), live_step(l, op)),
{
    let m1 = index_step(m, op);
    let l1 = live_step(l, op);
    assert forall|c: (i32, i32)| #[trigger] ids_in(m1, c) == Set::new(|id: u64| l1.contains_key(id) && l1[id].holds(c)) by {
        let old_set = Set::new(|id: u64| l.contains_key(id) && l[id].holds(c));
        let new_set = Set::new(|id: u64| l1.contains_key(id) && l1[id].holds(c));
        assert(ids_in(m, c) == old_set);
        match op {
            IndexOp::Insert(id, r) => {
                if r.holds(c) {
                    assert(range_cells(r).contains(c));
                    assert(new_set =~= old_set.insert(id));
                } else {
                    assert(!range_cells(r).contains(c));
                    assert(new_set =~= old_set);
                }
                assert(ids_in(m1, c) =~= new_set);
            },
            IndexOp::Remove(id, r) => {
                assert(new_set =~= old_set.remove(id));
                if !l.contains_key(id) {
                    assert(!old_set.contains(id));
                    assert(old_set.remove(id) =~= old_set);
                    if range_cells(r).contains(c) && m.contains_key(c) {
                        assert(m[c] == old_set);
                    }
                    assert(ids_in(m1, c) =~= new_set);
                } else if r.holds(c) {
                    assert(range_cells(r).contains(c));
                    assert(old_set.contains(id));
                    assert(m.contains_key(c));
                    assert(ids_in(m1, c) =~= new_set);
                } else {
                    assert(!range_cells(r).contains(c));
                    assert(!old_set.contains(id));
                    assert(ids_in(m1, c) =~= new_set);
                }
            },
            IndexOp::Clear => {
                assert(ids_in(m1, c) =~= new_set);
            },
        }
    }
}

/// Operations used as intended keep the index recording the live entries.
proof fn lemma_ops_record(m: Map<(i32, i32), Set<u64>>, l: Map<u64, CellRange>, ops: Seq<IndexOp>)
    requires
        records(m, l),
        ops_fit(l, ops),
    ensures
        records(index_after(m, ops), live_after(l, ops)),
    decreases ops.len(),
{
    if ops.len() > 0 {
        lemma_step_records(m, l, ops[0]);
        lemma_ops_record(index_step(m, ops[0]), live_step(l, ops[0]), ops.drop_first());
    }
}

/// After any sequence of inserts, removes and clears on an empty index, in
/// which an id is recorded only while it is not live and a live id is
/// forgotten with the range it was recorded over, a query of any range finds exactly the live
/// ids whose range shares a cell with it. In particular a query after a
/// clear finds nothing.
pub proof fn law_query_after_operations(ops: Seq<IndexOp>, q: CellRange)
    requires
        ops_fit(Map::<u64, CellRange>::empty(), ops),
    ensures
        ids_in_range(index_after(Map::<(i32, i32), Set<u64>>::empty(), ops), q)
            == live_in_range(live_after(Map::<u64, CellRange>::empty(), ops), q),
{
    let m0 = Map::<(i32, i32), Set<u64>>::empty();
    let l0 = Map::<u64, CellRange>::empty();
    assert forall|c: (i32, i32)| #[trigger] ids_in(m0, c) == Set::new(|id: u64| l0.contains_key(id) && l0[id].holds(c)) by {
        assert(ids_in(m0, c) =~= Set::new(|id: u64| l0.contains_key(id) && l0[id].holds(c)));
    }
    lemma_ops_record(m0, l0, ops);
    let m = index_after(m0, ops);
    let l = live_after(l0, ops);
    assert forall|id: u64| #[trigger] ids_in_range(m, q).contains(id) <==> live_in_range(l, q).contains(id) by {
        if ids_in_range(m, q).contains(id) {
            let c = choose|c: (i32, i32)| q.holds(c) && #[trigger] ids_in(m, c).contains(id);
            assert(Set::new(|i: u64| l.contains_key(i) && l[i].holds(c)).contains(id));
        }
        if live_in_range(l, q).contains(id) {
            let c = choose|c: (i32, i32)| l[id].holds(c) && q.holds(c);
            assert(Set::new(|i: u64| l.contains_key(i) && l[i].holds(c)).contains(id));
            assert(ids_in(m, c).contains(id));
        }
    }
    assert(ids_in_range(m, q) =~= live_in_range(l, q));
}

} // verus!
