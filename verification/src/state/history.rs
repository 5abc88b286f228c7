use vstd::prelude::*;
use crate::state::geometry::{CellRange, add_to_cells, remove_from_cells, range_cells, ids_in};

verus! {

/// A finished stroke as the editing logic sees it: its id and the grid cells
/// that its (padded) bounding box covers. The ink itself (points, pressure,
/// color) is kept by the caller under the same id.
#[derive(Clone, Copy, PartialEq, Eq, Debug, Structural)]
pub struct Stroke {
    pub id: u64,
    pub cells: CellRange,
}

/// One undoable edit.
#[derive(Debug)]
pub enum Action {
    /// A stroke was drawn (it is the last stroke of the canvas).
    Draw(Stroke),
    /// These strokes were erased, in the order the eraser removed them.
    Erase(Vec<Stroke>),
    /// The canvas was cleared; these were its strokes.
    Clear(Vec<Stroke>),
}

/// The set of ids of the strokes in `s`.
pub open spec fn ids_of(s: Seq<Stroke>) -> Set<u64> {
    Set::new(|id: u64| exists|i: int| 0 <= i < s.len() && #[trigger] s[i].id == id)
}

/// `s` without the strokes whose ids are in `ids`, order kept.
pub open spec fn without_ids(s: Seq<Stroke>, ids: Set<u64>) -> Seq<Stroke>
    decreases s.len(),
{
    if s.len() == 0 {
        s
    } else {
        let rest = without_ids(s.drop_last(), ids);
        if ids.contains(s.last().id) {
            rest
        } else {
            rest.push(s.last())
        }
    }
}

/// `t` with `x` inserted after the trailing run of strokes whose ids exceed
/// `x.id`: one step of a stable insertion sort by id.
pub open spec fn insert_by_id(t: Seq<Stroke>, x: Stroke) -> Seq<Stroke>
    decreases t.len(),
{
    if t.len() == 0 {
        seq![x]
    } else if t.last().id <= x.id {
        t.push(x)
    } else {
        insert_by_id(t.drop_last(), x).push(t.last())
    }
}

/// `s` stably sorted by id (strokes with equal ids keep their order).
pub open spec fn sort_by_id(s: Seq<Stroke>) -> Seq<Stroke>
    decreases s.len(),
{
    if s.len() == 0 {
        s
    } else {
        insert_by_id(sort_by_id(s.drop_last()), s.last())
    }
}

/// Ids strictly increase along `s`.
pub open spec fn strictly_sorted(s: Seq<Stroke>) -> bool {
    forall|i: int, j: int| 0 <= i < j < s.len() ==> #[trigger] s[i].id < #[trigger] s[j].id
}

/// The newest `limit` entries of `h` (all of them when there are no more).
pub open spec fn keep_newest<A>(h: Seq<A>, limit: usize) -> Seq<A> {
    if h.len() > limit {
        h.subrange(h.len() - limit, h.len() as int)
    } else {
        h
    }
}

/// The abstract index `m` after recording every stroke of `s`, in order.
pub open spec fn index_all(m: Map<(i32, i32), Set<u64>>, s: Seq<Stroke>) -> Map<(i32, i32), Set<u64>>
    decreases s.len(),
{
    if s.len() == 0 {
        m
    } else {
        add_to_cells(index_all(m, s.drop_last()), s.last().id, range_cells(s.last().cells))
    }
}

/// The abstract index `m` after forgetting every stroke of `s`, in order.
pub open spec fn unindex_all(m: Map<(i32, i32), Set<u64>>, s: Seq<Stroke>) -> Map<(i32, i32), Set<u64>>
    decreases s.len(),
{
    if s.len() == 0 {
        m
    } else {
        remove_from_cells(unindex_all(m, s.drop_last()), s.last().id, range_cells(s.last().cells))
    }
}

/// Copies a list of strokes.
pub fn copy_strokes(v: &Vec<Stroke>) -> (r: Vec<Stroke>)
    ensures
        r@ == v@,
{
    let mut r: Vec<Stroke> = Vec::new();
    let mut i: usize = 0;
    while i < v.len()
        invariant
            0 <= i <= v@.len(),
            r@ == v@.take(i as int),
        decreases v@.len() - i,
    {
        r.push(v[i]);
        i = i + 1;
        assert(r@ =~= v@.take(i as int));
    }
    assert(v@.take(v@.len() as int) =~= v@);
    r
}

proof fn lemma_insert_by_id_split(t: Seq<Stroke>, x: Stroke, j: int)
    requires
        0 <= j <= t.len(),
        forall|k: int| j <= k < t.len() ==> #[trigger] t[k].id > x.id,
    ensures
        insert_by_id(t, x) == insert_by_id(t.take(j), x) + t.skip(j),
    decreases t.len() - j,
{
    if j == t.len() {
        assert(t.take(j) =~= t);
        assert(t.skip(j) =~= Seq::<Stroke>::empty());
        assert(insert_by_id(t, x) + t.skip(j) =~= insert_by_id(t, x));
    } else {
        lemma_insert_by_id_split(t, x, j + 1);
        let tj1 = t.take(j + 1);
        assert(tj1.last() == t[j]);
        assert(tj1.drop_last() =~= t.take(j));
        assert(insert_by_id(tj1, x) == insert_by_id(t.take(j), x).push(t[j]));
        assert(insert_by_id(t.take(j), x).push(t[j]) + t.skip(j + 1) =~= insert_by_id(t.take(j), x)
            + t.skip(j));
    }
}

/// The strokes of `v` stably sorted by id.
pub fn sorted_by_id(v: &Vec<Stroke>) -> (r: Vec<Stroke>)
    ensures
        r@ == sort_by_id(v@),
{
    let mut out: Vec<Stroke> = Vec::new();
    let mut i: usize = 0;
    assert(v@.take(0) =~= Seq::<Stroke>::empty());
    while i < v.len()
        invariant
            0 <= i <= v@.len(),
            out@ == sort_by_id(v@.take(i as int)),
        decreases v@.len() - i,
    {
        let x = v[i];
        let mut j: usize = out.len();
        while j > 0 && out[j - 1].id > x.id
            invariant
                0 <= j <= out@.len(),
                forall|k: int| j <= k < out@.len() ==> #[trigger] out@[k].id > x.id,
            decreases j,
        {
            j = j - 1;
        }
        proof {
            lemma_insert_by_id_split(out@, x, j as int);
            if j > 0 {
                assert(out@.take(j as int).last() == out@[j - 1]);
                assert(insert_by_id(out@.take(j as int), x) == out@.take(j as int).push(x));
            } else {
                assert(out@.take(0) =~= Seq::<Stroke>::empty());
                assert(insert_by_id(out@.take(0), x) == seq![x]);
            }
            assert(v@.take(i + 1).drop_last() =~= v@.take(i as int));
            assert(v@.take(i + 1).last() == x);
        }
        let ghost before = out@;
        out.insert(j, x);
        proof {
            if j > 0 {
                assert(out@ =~= before.take(j as int).push(x) + before.skip(j as int));
            } else {
                assert(out@ =~= seq![x] + before.skip(0));
            }
        }
        i = i + 1;
    }
    assert(v@.take(v@.len() as int) =~= v@);
    out
}

/// Ids never decrease along `s`.
pub open spec fn sorted(s: Seq<Stroke>) -> bool {
    forall|i: int, j: int| 0 <= i < j < s.len() ==> #[trigger] s[i].id <= #[trigger] s[j].id
}

/// Sorting a sequence that is already sorted changes nothing.
pub(crate) proof fn lemma_sort_of_sorted(a: Seq<Stroke>)
    requires
        sorted(a),
    ensures
        sort_by_id(a) == a,
    decreases a.len(),
{
    if a.len() > 0 {
        let p = a.drop_last();
        assert(sorted(p));
        lemma_sort_of_sorted(p);
        if p.len() > 0 {
            assert(p.last() == a[a.len() - 2]);
        }
        assert(p.push(a.last()) =~= a);
    }
}

/// Removing the ids of `ids` undoes an insertion of a stroke whose id is among them.
pub(crate) proof fn lemma_without_insert(t: Seq<Stroke>, x: Stroke, ids: Set<u64>)
    requires
        ids.contains(x.id),
    ensures
        without_ids(insert_by_id(t, x), ids) == without_ids(t, ids),
    decreases t.len(),
{
    if t.len() == 0 {
        assert(seq![x].drop_last() =~= Seq::<Stroke>::empty());
        assert(seq![x].last() == x);
        assert(without_ids(seq![x], ids) == without_ids(Seq::<Stroke>::empty(), ids));
    } else if t.last().id <= x.id {
        assert(t.push(x).drop_last() =~= t);
        assert(t.push(x).last() == x);
    } else {
        lemma_without_insert(t.drop_last(), x, ids);
        let u = insert_by_id(t.drop_last(), x);
        assert(insert_by_id(t, x) == u.push(t.last()));
        assert(u.push(t.last()).drop_last() =~= u);
        assert(u.push(t.last()).last() == t.last());
    }
}

/// Merging strokes into a sorted sequence and then removing them (by id)
/// leaves the sorted sequence without those ids.
pub(crate) proof fn lemma_without_sorted_merge(a: Seq<Stroke>, e: Seq<Stroke>, ids: Set<u64>)
    requires
        sorted(a),
        forall|i: int| 0 <= i < e.len() ==> ids.contains(#[trigger] e[i].id),
    ensures
        without_ids(sort_by_id(a + e), ids) == without_ids(a, ids),
    decreases e.len(),
{
    if e.len() == 0 {
        assert(a + e =~= a);
        lemma_sort_of_sorted(a);
    } else {
        let e1 = e.drop_last();
        assert((a + e).drop_last() =~= a + e1);
        assert((a + e).last() == e.last());
        lemma_without_sorted_merge(a, e1, ids);
        lemma_without_insert(sort_by_id(a + e1), e.last(), ids);
    }
}

/// Removing ids that no stroke of `a` has changes nothing.
pub(crate) proof fn lemma_without_absent(a: Seq<Stroke>, ids: Set<u64>)
    requires
        forall|i: int| 0 <= i < a.len() ==> !ids.contains(#[trigger] a[i].id),
    ensures
        without_ids(a, ids) == a,
    decreases a.len(),
{
    if a.len() > 0 {
        lemma_without_absent(a.drop_last(), ids);
        assert(a.drop_last().push(a.last()) =~= a);
    }
}

/// Every stroke left by `without_ids` comes from the input.
pub(crate) proof fn lemma_without_subset(a: Seq<Stroke>, ids: Set<u64>)
    ensures
        forall|k: int| 0 <= k < without_ids(a, ids).len() ==> a.contains(#[trigger] without_ids(a, ids)[k]),
        forall|k: int| 0 <= k < without_ids(a, ids).len() ==> !ids.contains(#[trigger] without_ids(a, ids)[k].id),
    decreases a.len(),
{
    if a.len() > 0 {
        let p = a.drop_last();
        lemma_without_subset(p, ids);
        let w = without_ids(a, ids);
        assert forall|k: int| 0 <= k < w.len() implies a.contains(#[trigger] w[k]) by {
            if ids.contains(a.last().id) {
                assert(p.contains(w[k]));
                let m = choose|m: int| 0 <= m < p.len() && p[m] == w[k];
                assert(a[m] == w[k]);
            } else if k < w.len() - 1 {
                assert(w[k] == without_ids(p, ids)[k]);
                assert(p.contains(w[k]));
                let m = choose|m: int| 0 <= m < p.len() && p[m] == w[k];
                assert(a[m] == w[k]);
            } else {
                assert(a[a.len() - 1] == w[k]);
            }
        }
        assert forall|k: int| 0 <= k < w.len() implies !ids.contains(#[trigger] w[k].id) by {
            if !ids.contains(a.last().id) && k < w.len() - 1 {
                assert(w[k] == without_ids(p, ids)[k]);
            } else if ids.contains(a.last().id) {
                assert(w[k] == without_ids(p, ids)[k]);
            }
        }
    }
}

/// Putting a stroke of a strictly sorted sequence back into the sequence
/// without it restores the sequence.
pub(crate) proof fn lemma_insert_restores(a: Seq<Stroke>, x: Stroke, ys: Set<u64>)
    requires
        strictly_sorted(a),
        a.contains(x),
        !ys.contains(x.id),
    ensures
        insert_by_id(without_ids(a, ys.insert(x.id)), x) == without_ids(a, ys),
    decreases a.len(),
{
    let p = a.drop_last();
    let l = a.last();
    assert(strictly_sorted(p));
    let k = choose|k: int| 0 <= k < a.len() && a[k] == x;
    if l == x {
        assert forall|m: int| 0 <= m < p.len() implies #[trigger] p[m].id < x.id by {
            assert(a[m] == p[m]);
        }
        assert forall|m: int| 0 <= m < p.len() implies !ys.insert(x.id).contains(#[trigger] p[m].id) == !ys.contains(p[m].id) by {
        }
        lemma_without_subset(p, ys.insert(x.id));
        let t = without_ids(p, ys.insert(x.id));
        assert(without_ids(a, ys.insert(x.id)) == t);
        assert(without_ids(p, ys.insert(x.id)) =~= without_ids(p, ys)) by {
            lemma_without_same(p, ys.insert(x.id), ys);
        }
        if t.len() > 0 {
            assert(p.contains(t.last()));
            let m = choose|m: int| 0 <= m < p.len() && p[m] == t.last();
            assert(t.last().id < x.id);
        }
        assert(insert_by_id(t, x) == t.push(x));
    } else {
        assert(k < a.len() - 1);
        assert(p[k] == x);
        assert(p.contains(x));
        assert(a[k].id < a[a.len() - 1].id);
        lemma_insert_restores(p, x, ys);
        if ys.contains(l.id) {
        } else {
            assert(l.id != x.id);
            let t = without_ids(p, ys.insert(x.id));
            assert(without_ids(a, ys.insert(x.id)) == t.push(l));
            assert(t.push(l).drop_last() =~= t);
        }
    }
}

/// Removing by two id sets that agree on every stroke of `a` gives the same result.
pub(crate) proof fn lemma_without_same(a: Seq<Stroke>, y1: Set<u64>, y2: Set<u64>)
    requires
        forall|m: int| 0 <= m < a.len() ==> (y1.contains(#[trigger] a[m].id) == y2.contains(a[m].id)),
    ensures
        without_ids(a, y1) == without_ids(a, y2),
    decreases a.len(),
{
    if a.len() > 0 {
        lemma_without_same(a.drop_last(), y1, y2);
    }
}

/// Merging back the strokes that were removed (by id) from a strictly sorted
/// sequence restores it.
pub(crate) proof fn lemma_sort_restores(a: Seq<Stroke>, e: Seq<Stroke>, ys: Set<u64>)
    requires
        strictly_sorted(a),
        forall|i: int| 0 <= i < e.len() ==> a.contains(#[trigger] e[i]),
        forall|i: int, j: int| 0 <= i < j < e.len() ==> #[trigger] e[i].id != #[trigger] e[j].id,
        forall|i: int| 0 <= i < e.len() ==> !ys.contains(#[trigger] e[i].id),
    ensures
        sort_by_id(without_ids(a, ys + ids_of(e)) + e) == without_ids(a, ys),
    decreases e.len(),
{
    if e.len() == 0 {
        assert(ids_of(e) =~= Set::<u64>::empty());
        assert(ys + ids_of(e) =~= ys);
        let w = without_ids(a, ys);
        assert(w + e =~= w);
        lemma_without_subset(a, ys);
        assert(sorted(w)) by {
            assert forall|i: int, j: int| 0 <= i < j < w.len() implies #[trigger] w[i].id <= #[trigger] w[j].id by {
                lemma_without_order(a, ys, i, j);
            }
        }
        lemma_sort_of_sorted(w);
    } else {
        let e1 = e.drop_last();
        let x = e.last();
        let ys1 = ys.insert(x.id);
        assert forall|i: int| 0 <= i < e1.len() implies !ys1.contains(#[trigger] e1[i].id) by {
            assert(e[i] == e1[i]);
            assert(e[i].id != e[e.len() - 1].id);
        }
        lemma_sort_restores(a, e1, ys1);
        assert(ys + ids_of(e) =~= ys1 + ids_of(e1)) by {
            assert forall|id: u64| #[trigger] ids_of(e).contains(id) implies (ys1 + ids_of(e1)).contains(id) by {
                let i = choose|i: int| 0 <= i < e.len() && #[trigger] e[i].id == id;
                if i < e.len() - 1 {
                    assert(e1[i].id == id);
                }
            }
            assert forall|id: u64| #[trigger] ids_of(e1).contains(id) implies ids_of(e).contains(id) by {
                let i = choose|i: int| 0 <= i < e1.len() && #[trigger] e1[i].id == id;
                assert(e[i].id == id);
            }
        }
        let w = without_ids(a, ys + ids_of(e));
        assert((w + e).drop_last() =~= w + e1);
        assert((w + e).last() == x);
        assert(a.contains(x));
        lemma_insert_restores(a, x, ys);
    }
}

/// `without_ids` keeps the order of the strokes it keeps.
pub(crate) proof fn lemma_without_order(a: Seq<Stroke>, ys: Set<u64>, i: int, j: int)
    requires
        strictly_sorted(a),
        0 <= i < j < without_ids(a, ys).len(),
    ensures
        without_ids(a, ys)[i].id < without_ids(a, ys)[j].id,
    decreases a.len(),
{
    let p = a.drop_last();
    assert(strictly_sorted(p));
    let w = without_ids(a, ys);
    if ys.contains(a.last().id) {
        lemma_without_order(p, ys, i, j);
    } else if j < w.len() - 1 {
        lemma_without_order(p, ys, i, j);
    } else {
        lemma_without_subset(p, ys);
        assert(w[i] == without_ids(p, ys)[i]);
        assert(p.contains(w[i]));
        let m = choose|m: int| 0 <= m < p.len() && p[m] == w[i];
        assert(a[m] == w[i]);
        assert(w[j] == a.last());
    }
}

/// Every stroke of `s` is recorded in `m` at every cell its range covers.
pub open spec fn covers(m: Map<(i32, i32), Set<u64>>, s: Seq<Stroke>) -> bool {
    forall|i: int, c: (i32, i32)|
        #![trigger s[i], ids_in(m, c)]
        0 <= i < s.len() && s[i].cells.holds(c) ==> ids_in(m, c).contains(s[i].id)
}

/// No two strokes of `s` share an id.
pub open spec fn distinct_ids(s: Seq<Stroke>) -> bool {
    forall|i: int, j: int| 0 <= i < s.len() && 0 <= j < s.len() && i != j ==> #[trigger] s[i].id != #[trigger] s[j].id
}

/// Coverage carries over to any sequence made of covered strokes.
pub(crate) proof fn lemma_covers_sub(m: Map<(i32, i32), Set<u64>>, s: Seq<Stroke>, t: Seq<Stroke>)
    requires
        covers(m, s),
        forall|k: int| 0 <= k < t.len() ==> s.contains(#[trigger] t[k]),
    ensures
        covers(m, t),
{
    assert forall|k: int, c: (i32, i32)| 0 <= k < t.len() && t[k].cells.holds(c) implies #[trigger] ids_in(m, c).contains(#[trigger] t[k].id) by {
        assert(s.contains(t[k]));
        let j = choose|j: int| 0 <= j < s.len() && s[j] == t[k];
        assert(ids_in(m, c).contains(s[j].id));
    }
}

/// Recording a stroke keeps coverage and covers the stroke.
pub(crate) proof fn lemma_covers_add(m: Map<(i32, i32), Set<u64>>, s: Seq<Stroke>, x: Stroke)
    requires
        covers(m, s),
    ensures
        covers(add_to_cells(m, x.id, range_cells(x.cells)), s.push(x)),
{
    let m2 = add_to_cells(m, x.id, range_cells(x.cells));
    assert forall|k: int, c: (i32, i32)| 0 <= k < s.push(x).len() && s.push(x)[k].cells.holds(c) implies #[trigger] ids_in(m2, c).contains(#[trigger] s.push(x)[k].id) by {
        if k < s.len() {
            assert(s.push(x)[k] == s[k]);
            assert(ids_in(m, c).contains(s[k].id));
        }
    }
}

/// Recording strokes keeps coverage.
pub(crate) proof fn lemma_covers_add_all(m: Map<(i32, i32), Set<u64>>, s: Seq<Stroke>, e: Seq<Stroke>)
    requires
        covers(m, s),
    ensures
        covers(index_all(m, e), s + e),
    decreases e.len(),
{
    if e.len() == 0 {
        assert(s + e =~= s);
    } else {
        lemma_covers_add_all(m, s, e.drop_last());
        lemma_covers_add(index_all(m, e.drop_last()), s + e.drop_last(), e.last());
        assert((s + e.drop_last()).push(e.last()) =~= s + e);
    }
}

/// Forgetting an id that no stroke of `s` has keeps coverage.
pub(crate) proof fn lemma_covers_remove(m: Map<(i32, i32), Set<u64>>, s: Seq<Stroke>, id: u64, cs: Set<(i32, i32)>)
    requires
        covers(m, s),
        forall|k: int| 0 <= k < s.len() ==> #[trigger] s[k].id != id,
    ensures
        covers(remove_from_cells(m, id, cs), s),
{
    let m2 = remove_from_cells(m, id, cs);
    assert forall|k: int, c: (i32, i32)| 0 <= k < s.len() && s[k].cells.holds(c) implies #[trigger] ids_in(m2, c).contains(#[trigger] s[k].id) by {
        assert(ids_in(m, c).contains(s[k].id));
        assert(m.contains_key(c));
        if cs.contains(c) {
            assert(m[c].remove(id).contains(s[k].id));
        }
    }
}

/// Forgetting strokes whose ids no stroke of `s` has keeps coverage.
pub(crate) proof fn lemma_covers_remove_all(m: Map<(i32, i32), Set<u64>>, s: Seq<Stroke>, e: Seq<Stroke>)
    requires
        covers(m, s),
        forall|k: int| 0 <= k < s.len() ==> !ids_of(e).contains(#[trigger] s[k].id),
    ensures
        covers(unindex_all(m, e), s),
    decreases e.len(),
{
    if e.len() > 0 {
        let e1 = e.drop_last();
        assert forall|k: int| 0 <= k < s.len() implies !ids_of(e1).contains(#[trigger] s[k].id) by {
            if ids_of(e1).contains(s[k].id) {
                let j = choose|j: int| 0 <= j < e1.len() && #[trigger] e1[j].id == s[k].id;
                assert(e[j].id == s[k].id);
            }
        }
        lemma_covers_remove_all(m, s, e1);
        assert forall|k: int| 0 <= k < s.len() implies #[trigger] s[k].id != e.last().id by {
            assert(e[e.len() - 1].id == e.last().id);
        }
        lemma_covers_remove(unindex_all(m, e1), s, e.last().id, range_cells(e.last().cells));
    }
}

/// Every stroke of an insertion comes from the sequence or is the inserted one.
pub(crate) proof fn lemma_insert_members(t: Seq<Stroke>, x: Stroke)
    ensures
        forall|k: int| 0 <= k < insert_by_id(t, x).len() ==> (t.push(x)).contains(#[trigger] insert_by_id(t, x)[k]),
        insert_by_id(t, x).len() == t.len() + 1,
    decreases t.len(),
{
    let r = insert_by_id(t, x);
    if t.len() == 0 {
        assert forall|k: int| 0 <= k < r.len() implies (t.push(x)).contains(#[trigger] r[k]) by {
            assert(t.push(x)[0] == x);
        }
    } else if t.last().id <= x.id {
        assert forall|k: int| 0 <= k < r.len() implies (t.push(x)).contains(#[trigger] r[k]) by {
            assert(t.push(x)[k] == r[k]);
        }
    } else {
        let p = t.drop_last();
        lemma_insert_members(p, x);
        assert forall|k: int| 0 <= k < r.len() implies (t.push(x)).contains(#[trigger] r[k]) by {
            if k < r.len() - 1 {
                assert(r[k] == insert_by_id(p, x)[k]);
                assert(p.push(x).contains(r[k]));
                let j = choose|j: int| 0 <= j < p.push(x).len() && p.push(x)[j] == r[k];
                if j < p.len() {
                    assert(t.push(x)[j] == r[k]);
                } else {
                    assert(t.push(x)[t.len() as int] == r[k]);
                }
            } else {
                assert(t.push(x)[t.len() - 1] == r[k]);
            }
        }
    }
}

/// Every stroke of the sorted sequence comes from the input.
pub(crate) proof fn lemma_sort_members(s: Seq<Stroke>)
    ensures
        forall|k: int| 0 <= k < sort_by_id(s).len() ==> s.contains(#[trigger] sort_by_id(s)[k]),
        sort_by_id(s).len() == s.len(),
    decreases s.len(),
{
    if s.len() > 0 {
        let p = s.drop_last();
        lemma_sort_members(p);
        lemma_insert_members(sort_by_id(p), s.last());
        let r = sort_by_id(s);
        assert forall|k: int| 0 <= k < r.len() implies s.contains(#[trigger] r[k]) by {
            assert(sort_by_id(p).push(s.last()).contains(r[k]));
            let j = choose|j: int| 0 <= j < sort_by_id(p).push(s.last()).len() && sort_by_id(p).push(s.last())[j] == r[k];
            if j < sort_by_id(p).len() {
                assert(p.contains(r[k]));
                let i = choose|i: int| 0 <= i < p.len() && p[i] == r[k];
                assert(s[i] == r[k]);
            } else {
                assert(s[s.len() - 1] == r[k]);
            }
        }
    }
}

} // verus!
