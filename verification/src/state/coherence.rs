use vstd::prelude::*;
use crate::state::app_state::{AppState, undo_spec, redo_spec, same_tools};
use crate::state::history::{
    Action, keep_newest, Stroke, ids_of, insert_by_id, sort_by_id, strictly_sorted, distinct_ids, without_ids,
    lemma_insert_members, lemma_sort_members, lemma_without_subset,
};

verus! {

/// Inserting keeps every stroke of `t` and adds `x`.
proof fn lemma_insert_keeps(t: Seq<Stroke>, x: Stroke)
    ensures
        insert_by_id(t, x).contains(x),
        forall|k: int| 0 <= k < t.len() ==> insert_by_id(t, x).contains(#[trigger] t[k]),
    decreases t.len(),
{
    let r = insert_by_id(t, x);
    if t.len() == 0 {
        assert(r[0] == x);
    } else if t.last().id <= x.id {
        assert(r[t.len() as int] == x);
        assert forall|k: int| 0 <= k < t.len() implies r.contains(#[trigger] t[k]) by {
            assert(r[k] == t[k]);
        }
    } else {
        let p = t.drop_last();
        lemma_insert_keeps(p, x);
        let q = insert_by_id(p, x);
        assert(r == q.push(t.last()));
        let j = choose|j: int| 0 <= j < q.len() && q[j] == x;
        assert(r[j] == x);
        assert forall|k: int| 0 <= k < t.len() implies r.contains(#[trigger] t[k]) by {
            if k < t.len() - 1 {
                assert(p[k] == t[k]);
                assert(q.contains(p[k]));
                let m = choose|m: int| 0 <= m < q.len() && q[m] == t[k];
                assert(r[m] == t[k]);
            } else {
                assert(r[q.len() as int] == t[k]);
            }
        }
    }
}

/// A sorted sequence has exactly the strokes of its input.
pub(crate) proof fn lemma_sort_content(s: Seq<Stroke>)
    ensures
        sort_by_id(s).to_set() == s.to_set(),
    decreases s.len(),
{
    lemma_sort_members(s);
    if s.len() > 0 {
        let p = s.drop_last();
        lemma_sort_content(p);
        lemma_insert_keeps(sort_by_id(p), s.last());
        let r = sort_by_id(s);
        assert forall|x: Stroke| #[trigger] s.to_set().contains(x) implies r.to_set().contains(x) by {
            let k = choose|k: int| 0 <= k < s.len() && s[k] == x;
            if k < s.len() - 1 {
                assert(p[k] == x);
                assert(p.to_set().contains(x));
                assert(sort_by_id(p).to_set().contains(x));
                let m = choose|m: int| 0 <= m < sort_by_id(p).len() && sort_by_id(p)[m] == x;
                assert(r.contains(sort_by_id(p)[m]));
            }
        }
        assert forall|x: Stroke| #[trigger] r.to_set().contains(x) implies s.to_set().contains(x) by {
            let k = choose|k: int| 0 <= k < r.len() && r[k] == x;
            assert(s.contains(r[k]));
        }
        assert(r.to_set() =~= s.to_set());
    } else {
        assert(sort_by_id(s).to_set() =~= s.to_set());
    }
}

/// Inserting a stroke with a fresh id into a strictly sorted sequence keeps it strictly sorted.
proof fn lemma_insert_strict(t: Seq<Stroke>, x: Stroke)
    requires
        strictly_sorted(t),
        forall|k: int| 0 <= k < t.len() ==> #[trigger] t[k].id != x.id,
    ensures
        strictly_sorted(insert_by_id(t, x)),
    decreases t.len(),
{
    let r = insert_by_id(t, x);
    if t.len() == 0 {
    } else if t.last().id <= x.id {
        assert(t[t.len() - 1].id != x.id);
        assert forall|i: int, j: int| 0 <= i < j < r.len() implies #[trigger] r[i].id < #[trigger] r[j].id by {
            if j == t.len() {
                if i < t.len() - 1 {
                    assert(t[i].id < t[t.len() - 1].id);
                }
            } else {
                assert(r[i] == t[i] && r[j] == t[j]);
            }
        }
    } else {
        let p = t.drop_last();
        assert(strictly_sorted(p));
        assert forall|k: int| 0 <= k < p.len() implies #[trigger] p[k].id != x.id by {
            assert(p[k] == t[k]);
        }
        lemma_insert_strict(p, x);
        lemma_insert_members(p, x);
        let q = insert_by_id(p, x);
        let l = t.last();
        assert forall|i: int, j: int| 0 <= i < j < r.len() implies #[trigger] r[i].id < #[trigger] r[j].id by {
            if j == r.len() - 1 {
                assert(r[j] == l);
                assert(r[i] == q[i]);
                assert(p.push(x).contains(q[i]));
                let m = choose|m: int| 0 <= m < p.push(x).len() && p.push(x)[m] == q[i];
                if m < p.len() {
                    assert(p[m] == t[m]);
                    assert(t[m].id < t[t.len() - 1].id);
                }
            } else {
                assert(r[i] == q[i] && r[j] == q[j]);
            }
        }
    }
}

/// Sorting a sequence with distinct ids gives a strictly sorted sequence.
pub(crate) proof fn lemma_sort_strict(s: Seq<Stroke>)
    requires
        distinct_ids(s),
    ensures
        strictly_sorted(sort_by_id(s)),
    decreases s.len(),
{
    if s.len() > 0 {
        let p = s.drop_last();
        assert(distinct_ids(p)) by {
            assert forall|i: int, j: int| 0 <= i < p.len() && 0 <= j < p.len() && i != j implies #[trigger] p[i].id != #[trigger] p[j].id by {
                assert(p[i] == s[i] && p[j] == s[j]);
            }
        }
        lemma_sort_strict(p);
        lemma_sort_members(p);
        let q = sort_by_id(p);
        assert forall|k: int| 0 <= k < q.len() implies #[trigger] q[k].id != s.last().id by {
            assert(p.contains(q[k]));
            let m = choose|m: int| 0 <= m < p.len() && p[m] == q[k];
            assert(s[m] == q[k]);
            assert(s[m].id != s[s.len() - 1].id);
        }
        lemma_insert_strict(q, s.last());
    }
}

/// Two strictly sorted sequences with the same strokes are equal.
pub(crate) proof fn lemma_strict_same_set(a: Seq<Stroke>, b: Seq<Stroke>)
    requires
        strictly_sorted(a),
        strictly_sorted(b),
        a.to_set() == b.to_set(),
    ensures
        a == b,
    decreases a.len() + b.len(),
{
    if a.len() == 0 {
        if b.len() > 0 {
            assert(b.to_set().contains(b[0]));
            assert(a.to_set().contains(b[0]));
        }
        assert(a =~= b);
    } else if b.len() == 0 {
        assert(a.to_set().contains(a[0]));
    } else {
        let la = a.last();
        let lb = b.last();
        assert(a.to_set().contains(la));
        assert(b.to_set().contains(lb));
        assert(b.to_set().contains(la));
        assert(a.to_set().contains(lb));
        let ia = choose|i: int| 0 <= i < b.len() && b[i] == la;
        let ib = choose|i: int| 0 <= i < a.len() && a[i] == lb;
        if ia < b.len() - 1 {
            assert(b[ia].id < b[b.len() - 1].id);
        }
        if ib < a.len() - 1 {
            assert(a[ib].id < a[a.len() - 1].id);
        }
        assert(la.id == lb.id);
        if ib < a.len() - 1 {
            assert(a[ib].id < a[a.len() - 1].id);
        }
        assert(ib == a.len() - 1);
        assert(la == lb);
        let pa = a.drop_last();
        let pb = b.drop_last();
        assert(strictly_sorted(pa));
        assert(strictly_sorted(pb));
        assert forall|x: Stroke| #[trigger] pa.to_set().contains(x) implies pb.to_set().contains(x) by {
            let i = choose|i: int| 0 <= i < pa.len() && pa[i] == x;
            assert(a[i] == x);
            assert(a[i].id < a[a.len() - 1].id);
            assert(b.to_set().contains(x));
            let j = choose|j: int| 0 <= j < b.len() && b[j] == x;
            assert(j != b.len() - 1);
            assert(pb[j] == x);
        }
        assert forall|x: Stroke| #[trigger] pb.to_set().contains(x) implies pa.to_set().contains(x) by {
            let i = choose|i: int| 0 <= i < pb.len() && pb[i] == x;
            assert(b[i] == x);
            assert(b[i].id < b[b.len() - 1].id);
            assert(a.to_set().contains(x));
            let j = choose|j: int| 0 <= j < a.len() && a[j] == x;
            assert(j != a.len() - 1);
            assert(pa[j] == x);
        }
        assert(pa.to_set() =~= pb.to_set());
        lemma_strict_same_set(pa, pb);
        assert(a =~= pa.push(la));
        assert(b =~= pb.push(lb));
    }
}

/// `without_ids` keeps exactly the strokes whose ids are not removed.
pub(crate) proof fn lemma_without_content(a: Seq<Stroke>, ys: Set<u64>)
    ensures
        forall|x: Stroke| #[trigger] without_ids(a, ys).to_set().contains(x) <==> (a.to_set().contains(x) && !ys.contains(x.id)),
    decreases a.len(),
{
    lemma_without_subset(a, ys);
    if a.len() > 0 {
        let p = a.drop_last();
        lemma_without_content(p, ys);
        let w = without_ids(a, ys);
        let wp = without_ids(p, ys);
        assert forall|x: Stroke| #[trigger] w.to_set().contains(x) <==> (a.to_set().contains(x) && !ys.contains(x.id)) by {
            if w.to_set().contains(x) {
                let k = choose|k: int| 0 <= k < w.len() && w[k] == x;
                assert(a.contains(w[k]));
            }
            if a.to_set().contains(x) && !ys.contains(x.id) {
                let k = choose|k: int| 0 <= k < a.len() && a[k] == x;
                if k < a.len() - 1 {
                    assert(p[k] == x);
                    assert(p.to_set().contains(x));
                    assert(wp.to_set().contains(x));
                    let m = choose|m: int| 0 <= m < wp.len() && wp[m] == x;
                    if ys.contains(a.last().id) {
                        assert(w[m] == x);
                    } else {
                        assert(w[m] == wp[m]);
                    }
                } else {
                    assert(w[w.len() - 1] == x);
                }
            }
        }
    }
}

/// Keeping only some strokes of a strictly sorted sequence keeps it strictly sorted.
pub(crate) proof fn lemma_without_strict(a: Seq<Stroke>, ys: Set<u64>)
    requires
        strictly_sorted(a),
    ensures
        strictly_sorted(without_ids(a, ys)),
{
    let w = without_ids(a, ys);
    assert forall|i: int, j: int| 0 <= i < j < w.len() implies #[trigger] w[i].id < #[trigger] w[j].id by {
        crate::state::history::lemma_without_order(a, ys, i, j);
    }
}

/// The undone edit `a` can be reverted on a canvas holding the strokes `k`:
/// a drawn stroke is there with the largest id; erased strokes have distinct
/// ids, none on the canvas; a clear left the canvas empty and its strokes
/// are strictly sorted by id.
pub open spec fn undo_fit(k: Set<Stroke>, a: Action) -> bool {
    match a {
        Action::Draw(s) => k.contains(s) && forall|t: Stroke| #[trigger] k.contains(t) ==> t.id <= s.id,
        Action::Erase(e) => distinct_ids(e@) && forall|t: Stroke| #[trigger] k.contains(t) ==> !ids_of(e@).contains(t.id),
        Action::Clear(c) => k == Set::<Stroke>::empty() && strictly_sorted(c@),
    }
}

/// The strokes on the canvas after reverting `a`.
pub open spec fn undone(k: Set<Stroke>, a: Action) -> Set<Stroke> {
    match a {
        Action::Draw(s) => k.remove(s),
        Action::Erase(e) => k + e@.to_set(),
        Action::Clear(c) => c@.to_set(),
    }
}

/// The redoable edit `a` can be applied again on a canvas holding `k`: a
/// stroke to redraw has an id above every stroke there; strokes to erase are
/// there, with distinct ids; strokes to clear are exactly the canvas, in
/// strictly increasing id order.
pub open spec fn redo_fit(k: Set<Stroke>, a: Action) -> bool {
    match a {
        Action::Draw(s) => forall|t: Stroke| #[trigger] k.contains(t) ==> t.id < s.id,
        Action::Erase(e) => distinct_ids(e@) && forall|i: int| 0 <= i < e@.len() ==> k.contains(#[trigger] e@[i]),
        Action::Clear(c) => c@.to_set() == k && strictly_sorted(c@),
    }
}

/// The strokes on the canvas after applying `a` again.
pub open spec fn redone(k: Set<Stroke>, a: Action) -> Set<Stroke> {
    match a {
        Action::Draw(s) => k.insert(s),
        Action::Erase(e) => Set::new(|t: Stroke| k.contains(t) && !ids_of(e@).contains(t.id)),
        Action::Clear(_) => Set::<Stroke>::empty(),
    }
}

/// Undoing the edits of `h`, newest first, from a canvas holding `k` always fits.
pub open spec fn undo_chain(k: Set<Stroke>, h: Seq<Action>) -> bool
    decreases h.len(),
{
    h.len() == 0 || (undo_fit(k, h.last()) && undo_chain(undone(k, h.last()), h.drop_last()))
}

/// Redoing the edits of `r`, newest first, from a canvas holding `k` always fits.
pub open spec fn redo_chain(k: Set<Stroke>, r: Seq<Action>) -> bool
    decreases r.len(),
{
    r.len() == 0 || (redo_fit(k, r.last()) && redo_chain(redone(k, r.last()), r.drop_last()))
}

/// Every stroke named by edit `a` has an id below `b`.
pub open spec fn action_ids_below(a: Action, b: u64) -> bool {
    match a {
        Action::Draw(s) => s.id < b,
        Action::Erase(e) => forall|i: int| 0 <= i < e@.len() ==> #[trigger] e@[i].id < b,
        Action::Clear(c) => forall|i: int| 0 <= i < c@.len() ==> #[trigger] c@[i].id < b,
    }
}

/// Every stroke of `s` has an id below `b`.
pub open spec fn seq_ids_below(s: Seq<Stroke>, b: u64) -> bool {
    forall|i: int| 0 <= i < s.len() ==> #[trigger] s[i].id < b
}

/// The smallest id that no stroke of the state may have yet: the id of the
/// stroke being drawn, or else the next id.
pub open spec fn id_bound(st: AppState) -> u64 {
    match st.current_stroke {
        Some(c) => c,
        None => st.next_stroke_id,
    }
}

/// The strokes the histories refer to: those on the canvas and those that
/// the eraser gesture in progress has removed.
pub open spec fn committed(st: AppState) -> Set<Stroke> {
    st.strokes@.to_set() + st.current_erased@.to_set()
}

/// The state hangs together: the canvas is strictly sorted by id; the
/// strokes erased by the gesture in progress have distinct ids, none on the
/// canvas, and exist only during an eraser gesture, which excludes drawing;
/// every id is below the id bound; every edit of the history can be undone
/// and every edit of the redo history redone, in turn; and both histories
/// together hold at most `max_undo_steps` edits.
pub open spec fn coherent(st: AppState) -> bool {
    &&& strictly_sorted(st.strokes@)
    &&& distinct_ids(st.current_erased@)
    &&& forall|i: int, j: int| 0 <= i < st.strokes@.len() && 0 <= j < st.current_erased@.len()
        ==> #[trigger] st.strokes@[i].id != #[trigger] st.current_erased@[j].id
    &&& st.current_erased@.len() > 0 ==> st.is_erasing
    &&& st.is_erasing ==> st.current_stroke is None
    &&& (st.current_stroke matches Some(c) ==> c < st.next_stroke_id)
    &&& seq_ids_below(st.strokes@, id_bound(st))
    &&& seq_ids_below(st.current_erased@, id_bound(st))
    &&& forall|i: int| 0 <= i < st.history@.len() ==> action_ids_below(#[trigger] st.history@[i], id_bound(st))
    &&& forall|i: int| 0 <= i < st.redo_history@.len() ==> action_ids_below(#[trigger] st.redo_history@[i], id_bound(st))
    &&& undo_chain(committed(st), st.history@)
    &&& redo_chain(committed(st), st.redo_history@)
    &&& st.history@.len() + st.redo_history@.len() <= st.max_undo_steps
}

/// Dropping the oldest edits keeps an undo chain.
pub(crate) proof fn lemma_undo_chain_suffix(k: Set<Stroke>, h: Seq<Action>, n: int)
    requires
        undo_chain(k, h),
        0 <= n <= h.len(),
    ensures
        undo_chain(k, h.subrange(n, h.len() as int)),
    decreases h.len(),
{
    let t = h.subrange(n, h.len() as int);
    if t.len() > 0 {
        assert(t.last() == h.last());
        assert(t.drop_last() =~= h.drop_last().subrange(n, h.drop_last().len() as int));
        lemma_undo_chain_suffix(undone(k, h.last()), h.drop_last(), n);
    }
}

/// `keep_newest` keeps an undo chain.
pub(crate) proof fn lemma_undo_chain_keep(k: Set<Stroke>, h: Seq<Action>, limit: usize)
    requires
        undo_chain(k, h),
    ensures
        undo_chain(k, keep_newest(h, limit)),
{
    if h.len() > limit {
        lemma_undo_chain_suffix(k, h, h.len() - limit);
    }
}

/// In a strictly sorted sequence, strokes with equal ids are equal.
pub(crate) proof fn lemma_strict_unique(s: Seq<Stroke>)
    requires
        strictly_sorted(s),
    ensures
        forall|x: Stroke, y: Stroke| s.to_set().contains(x) && s.to_set().contains(y) && x.id == y.id ==> x == y,
{
    assert forall|x: Stroke, y: Stroke| s.to_set().contains(x) && s.to_set().contains(y) && x.id == y.id implies x == y by {
        let i = choose|i: int| 0 <= i < s.len() && s[i] == x;
        let j = choose|j: int| 0 <= j < s.len() && s[j] == y;
        if i < j {
            assert(s[i].id < s[j].id);
        } else if j < i {
            assert(s[j].id < s[i].id);
        }
    }
}

/// The concatenation's strokes are those of both parts.
pub(crate) proof fn lemma_concat_set(a: Seq<Stroke>, b: Seq<Stroke>)
    ensures
        (a + b).to_set() == a.to_set() + b.to_set(),
{
    assert forall|x: Stroke| #[trigger] (a + b).to_set().contains(x) <==> (a.to_set() + b.to_set()).contains(x) by {
        if (a + b).to_set().contains(x) {
            let k = choose|k: int| 0 <= k < (a + b).len() && (a + b)[k] == x;
            if k < a.len() {
                assert(a[k] == x);
            } else {
                assert(b[k - a.len()] == x);
            }
        }
        if a.to_set().contains(x) {
            let k = choose|k: int| 0 <= k < a.len() && a[k] == x;
            assert((a + b)[k] == x);
        }
        if b.to_set().contains(x) {
            let k = choose|k: int| 0 <= k < b.len() && b[k] == x;
            assert((a + b)[a.len() + k] == x);
        }
    }
    assert((a + b).to_set() =~= a.to_set() + b.to_set());
}

/// Undo keeps a coherent state coherent, when no eraser gesture has
/// removed strokes that are not yet an undoable edit.
pub proof fn law_undo_keeps_coherence(s0: AppState, s1: AppState, done: bool)
    requires
        coherent(s0),
        s0.current_erased@.len() == 0,
        undo_spec(s0, s1, done),
    ensures
        coherent(s1),
{
    if done {
        let a = s0.history@.last();
        let st = s0.strokes@;
        let k = committed(s0);
        assert(s0.current_erased@.to_set() =~= Set::<Stroke>::empty());
        assert(k =~= st.to_set());
        let b = id_bound(s0);
        assert(id_bound(s1) == b);
        assert(undo_fit(k, a));
        assert(s0.history@.len() >= 1);
        assert(s1.history@ == s0.history@.drop_last());
        assert(s1.redo_history@ == s0.redo_history@.push(a));
        assert(s1.current_erased@ =~= Seq::<Stroke>::empty());
        assert(s1.current_erased@.to_set() =~= Set::<Stroke>::empty());
        lemma_strict_unique(st);
        assert(action_ids_below(s0.history@[s0.history@.len() - 1], b));
        let k1 = s1.strokes@.to_set();
        assert(committed(s1) =~= k1);
        match a {
            Action::Draw(d) => {
                let n = st.len();
                assert(st.to_set().contains(d));
                let i = choose|i: int| 0 <= i < n && st[i] == d;
                if i < n - 1 {
                    assert(st.to_set().contains(st[n - 1]));
                    assert(st[n - 1].id <= d.id);
                    assert(st[i].id < st[n - 1].id);
                }
                assert(st.last() == d);
                assert(s1.strokes@ == st.drop_last());
                assert forall|x: Stroke| #[trigger] k1.contains(x) <==> k.remove(d).contains(x) by {
                    if k1.contains(x) {
                        let j = choose|j: int| 0 <= j < n - 1 && st.drop_last()[j] == x;
                        assert(st[j] == x);
                        assert(st[j].id < st[n - 1].id);
                    }
                    if k.remove(d).contains(x) {
                        let j = choose|j: int| 0 <= j < n && st[j] == x;
                        assert(j != n - 1);
                        assert(st.drop_last()[j] == x);
                    }
                }
                assert(k1 =~= undone(k, a));
                assert(redo_fit(k1, a)) by {
                    assert forall|t: Stroke| #[trigger] k1.contains(t) implies t.id < d.id by {
                        assert(k.contains(t) && t != d);
                    }
                }
                assert(redone(k1, a) =~= k);
                assert(seq_ids_below(s1.strokes@, b)) by {
                    assert forall|j: int| 0 <= j < s1.strokes@.len() implies #[trigger] s1.strokes@[j].id < b by {
                        assert(s1.strokes@[j] == st[j]);
                    }
                }
            },
            Action::Erase(e) => {
                let all = st + e@;
                assert(distinct_ids(all)) by {
                    assert forall|i: int, j: int| 0 <= i < all.len() && 0 <= j < all.len() && i != j implies #[trigger] all[i].id != #[trigger] all[j].id by {
                        if i < st.len() && j < st.len() {
                            if i < j { assert(st[i].id < st[j].id); } else { assert(st[j].id < st[i].id); }
                        } else if i >= st.len() && j >= st.len() {
                            assert(all[i] == e@[i - st.len()] && all[j] == e@[j - st.len()]);
                        } else if i < st.len() {
                            assert(k.contains(st[i]));
                            assert(ids_of(e@).contains(all[j].id)) by {
                                assert(e@[j - st.len()].id == all[j].id);
                            }
                        } else {
                            assert(k.contains(st[j]));
                            assert(ids_of(e@).contains(all[i].id)) by {
                                assert(e@[i - st.len()].id == all[i].id);
                            }
                        }
                    }
                }
                lemma_sort_strict(all);
                lemma_sort_content(all);
                lemma_concat_set(st, e@);
                lemma_sort_members(all);
                assert(k1 =~= undone(k, a));
                assert(redo_fit(k1, a)) by {
                    assert forall|i: int| 0 <= i < e@.len() implies k1.contains(#[trigger] e@[i]) by {
                        assert(all[st.len() + i] == e@[i]);
                        assert(all.to_set().contains(e@[i]));
                    }
                }
                assert forall|x: Stroke| #[trigger] redone(k1, a).contains(x) <==> k.contains(x) by {
                    if k.contains(x) {
                        assert(k1.contains(x));
                    }
                    if redone(k1, a).contains(x) {
                        if e@.to_set().contains(x) {
                            let j = choose|j: int| 0 <= j < e@.len() && e@[j] == x;
                            assert(e@[j].id == x.id);
                            assert(ids_of(e@).contains(x.id));
                        }
                    }
                }
                assert(redone(k1, a) =~= k);
                assert(seq_ids_below(s1.strokes@, b)) by {
                    assert forall|j: int| 0 <= j < s1.strokes@.len() implies #[trigger] s1.strokes@[j].id < b by {
                        assert(all.contains(s1.strokes@[j]));
                        let m = choose|m: int| 0 <= m < all.len() && all[m] == s1.strokes@[j];
                        if m < st.len() {
                            assert(all[m] == st[m]);
                        } else {
                            assert(all[m] == e@[m - st.len()]);
                        }
                    }
                }
            },
            Action::Clear(c) => {
                assert(k1 =~= undone(k, a));
                assert(redone(k1, a) =~= k);
            },
        }
        assert(undo_chain(k1, s1.history@));
        assert(redo_chain(k1, s1.redo_history@)) by {
            assert(s1.redo_history@.last() == a);
            assert(s1.redo_history@.drop_last() =~= s0.redo_history@);
        }
        assert forall|i: int| 0 <= i < s1.history@.len() implies action_ids_below(#[trigger] s1.history@[i], id_bound(s1)) by {
            assert(s1.history@[i] == s0.history@[i]);
        }
        assert forall|i: int| 0 <= i < s1.redo_history@.len() implies action_ids_below(#[trigger] s1.redo_history@[i], id_bound(s1)) by {
            if i < s0.redo_history@.len() {
                assert(s1.redo_history@[i] == s0.redo_history@[i]);
            }
        }
    }
}

/// Redo keeps a coherent state coherent, when no eraser gesture has
/// removed strokes that are not yet an undoable edit.
pub proof fn law_redo_keeps_coherence(s0: AppState, s1: AppState, done: bool)
    requires
        coherent(s0),
        s0.current_erased@.len() == 0,
        redo_spec(s0, s1, done),
    ensures
        coherent(s1),
{
    if done {
        let a = s0.redo_history@.last();
        let st = s0.strokes@;
        let k = committed(s0);
        assert(s0.current_erased@.to_set() =~= Set::<Stroke>::empty());
        assert(k =~= st.to_set());
        let b = id_bound(s0);
        assert(id_bound(s1) == b);
        assert(redo_fit(k, a));
        assert(s0.redo_history@.len() >= 1);
        assert(s1.redo_history@ == s0.redo_history@.drop_last());
        assert(s1.history@ == s0.history@.push(a));
        assert(s1.current_erased@ =~= Seq::<Stroke>::empty());
        assert(s1.current_erased@.to_set() =~= Set::<Stroke>::empty());
        lemma_strict_unique(st);
        assert(action_ids_below(s0.redo_history@[s0.redo_history@.len() - 1], b));
        let k1 = s1.strokes@.to_set();
        assert(committed(s1) =~= k1);
        match a {
            Action::Draw(d) => {
                assert(s1.strokes@ == st.push(d));
                assert(strictly_sorted(s1.strokes@)) by {
                    assert forall|i: int, j: int| 0 <= i < j < s1.strokes@.len() implies #[trigger] s1.strokes@[i].id < #[trigger] s1.strokes@[j].id by {
                        if j == st.len() {
                            assert(k.contains(st[i]));
                        } else {
                            assert(s1.strokes@[i] == st[i] && s1.strokes@[j] == st[j]);
                        }
                    }
                }
                assert forall|x: Stroke| #[trigger] k1.contains(x) <==> k.insert(d).contains(x) by {
                    if k1.contains(x) {
                        let j = choose|j: int| 0 <= j < st.len() + 1 && st.push(d)[j] == x;
                        if j < st.len() {
                            assert(st[j] == x);
                        }
                    }
                    if k.contains(x) {
                        let j = choose|j: int| 0 <= j < st.len() && st[j] == x;
                        assert(st.push(d)[j] == x);
                    }
                    if x == d {
                        assert(st.push(d)[st.len() as int] == d);
                    }
                }
                assert(k1 =~= redone(k, a));
                assert(undo_fit(k1, a)) by {
                    assert forall|t: Stroke| #[trigger] k1.contains(t) implies t.id <= d.id by {
                        if t != d {
                            assert(k.contains(t));
                        }
                    }
                }
                assert(!k.contains(d));
                assert(undone(k1, a) =~= k);
                assert(seq_ids_below(s1.strokes@, b)) by {
                    assert forall|j: int| 0 <= j < s1.strokes@.len() implies #[trigger] s1.strokes@[j].id < b by {
                        if j < st.len() {
                            assert(s1.strokes@[j] == st[j]);
                        }
                    }
                }
            },
            Action::Erase(e) => {
                lemma_without_strict(st, ids_of(e@));
                lemma_without_content(st, ids_of(e@));
                lemma_without_subset(st, ids_of(e@));
                assert(k1 =~= redone(k, a));
                assert(undo_fit(k1, a));
                assert forall|x: Stroke| #[trigger] undone(k1, a).contains(x) <==> k.contains(x) by {
                    if e@.to_set().contains(x) {
                        let j = choose|j: int| 0 <= j < e@.len() && e@[j] == x;
                        assert(k.contains(e@[j]));
                    }
                    if k.contains(x) && ids_of(e@).contains(x.id) {
                        let j = choose|j: int| 0 <= j < e@.len() && #[trigger] e@[j].id == x.id;
                        assert(k.contains(e@[j]));
                        assert(e@[j] == x);
                        assert(e@.to_set().contains(x));
                    }
                }
                assert(undone(k1, a) =~= k);
                assert(seq_ids_below(s1.strokes@, b)) by {
                    assert forall|j: int| 0 <= j < s1.strokes@.len() implies #[trigger] s1.strokes@[j].id < b by {
                        assert(st.contains(s1.strokes@[j]));
                    }
                }
            },
            Action::Clear(c) => {
                assert(k1 =~= Set::<Stroke>::empty());
                assert(k1 =~= redone(k, a));
                assert(undone(k1, a) =~= k);
            },
        }
        assert(redo_chain(k1, s1.redo_history@));
        assert(undo_chain(k1, s1.history@)) by {
            assert(s1.history@.last() == a);
            assert(s1.history@.drop_last() =~= s0.history@);
        }
        assert forall|i: int| 0 <= i < s1.redo_history@.len() implies action_ids_below(#[trigger] s1.redo_history@[i], id_bound(s1)) by {
            assert(s1.redo_history@[i] == s0.redo_history@[i]);
        }
        assert forall|i: int| 0 <= i < s1.history@.len() implies action_ids_below(#[trigger] s1.history@[i], id_bound(s1)) by {
            if i < s0.history@.len() {
                assert(s1.history@[i] == s0.history@[i]);
            }
        }
    }
}

} // verus!
