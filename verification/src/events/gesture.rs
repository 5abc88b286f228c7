use vstd::prelude::*;
use vstd::multiset::Multiset;
use crate::state::app_state::{
    AppState, erase_spec, erase_flags, survivors, casualties, flagged_in, lemma_casualties_from,
};
use crate::state::geometry::{CellRange, EraseMode, ids_in_range};
use crate::state::history::{
    Action, Stroke, ids_of, without_ids, keep_newest, distinct_ids, lemma_without_same,
    lemma_without_absent, lemma_without_subset,
};
use crate::events::pointer::{press_spec, release_spec, PressOutcome, ReleaseOutcome};

verus! {

/// The strokes one eraser touch over `q` with hit flags `hits` removes from
/// the state `st`, in removal order (top first).
pub open spec fn touch_removed(st: AppState, q: CellRange, hits: Seq<bool>) -> Seq<Stroke> {
    casualties(st.strokes@, erase_flags(st.strokes@, ids_in_range(st.spatial_index@, q), hits))
}

/// `states[i + 1]` is what the eraser touch over `queries[i]` with hit flags
/// `hits[i]` (which returned `results[i]`) makes of `states[i]`.
pub open spec fn erase_touches(
    states: Seq<AppState>,
    queries: Seq<CellRange>,
    hits: Seq<Seq<bool>>,
    results: Seq<bool>,
) -> bool {
    &&& states.len() == queries.len() + 1
    &&& hits.len() == queries.len()
    &&& results.len() == queries.len()
    &&& forall|i: int| #![trigger queries[i]] 0 <= i < queries.len() ==>
        erase_spec(states[i], states[i + 1], queries[i], hits[i], results[i])
}

/// The strokes the first `n` touches removed, in removal order.
pub open spec fn removed_by_touches(
    states: Seq<AppState>,
    queries: Seq<CellRange>,
    hits: Seq<Seq<bool>>,
    n: nat,
) -> Seq<Stroke>
    decreases n,
{
    if n == 0 {
        Seq::<Stroke>::empty()
    } else {
        removed_by_touches(states, queries, hits, (n - 1) as nat)
            + touch_removed(states[n - 1], queries[n - 1], hits[n - 1])
    }
}

/// Removing by id, with a stroke in front.
proof fn lemma_without_cons(x: Stroke, t: Seq<Stroke>, ys: Set<u64>)
    ensures
        without_ids(seq![x] + t, ys) == (if ys.contains(x.id) {
            without_ids(t, ys)
        } else {
            seq![x] + without_ids(t, ys)
        }),
    decreases t.len(),
{
    let u = seq![x] + t;
    if t.len() == 0 {
        assert(u =~= seq![x]);
        assert(u.drop_last() =~= t);
        assert(without_ids(t, ys) == t);
        assert(without_ids(u, ys) == (if ys.contains(x.id) { t } else { t.push(x) }));
        assert(t.push(x) =~= seq![x] + t);
    } else {
        let p = t.drop_last();
        lemma_without_cons(x, p, ys);
        assert(u.drop_last() =~= seq![x] + p);
        assert(u.last() == t.last());
        let wu = without_ids(u.drop_last(), ys);
        assert(wu == without_ids(seq![x] + p, ys));
        assert(without_ids(u, ys) == (if ys.contains(t.last().id) { wu } else { wu.push(t.last()) }));
        assert(without_ids(t, ys) == (if ys.contains(t.last().id) {
            without_ids(p, ys)
        } else {
            without_ids(p, ys).push(t.last())
        }));
        if !ys.contains(x.id) {
            assert((seq![x] + without_ids(p, ys)).push(t.last()) =~= seq![x] + without_ids(p, ys).push(t.last()));
        }
    }
}

/// Removing by one id set and then another is removing by both.
proof fn lemma_without_twice(s: Seq<Stroke>, xs: Set<u64>, ys: Set<u64>)
    ensures
        without_ids(without_ids(s, xs), ys) == without_ids(s, xs + ys),
    decreases s.len(),
{
    if s.len() > 0 {
        let p = s.drop_last();
        lemma_without_twice(p, xs, ys);
        if !xs.contains(s.last().id) {
            let w = without_ids(p, xs);
            assert(w.push(s.last()).drop_last() =~= w);
            assert(w.push(s.last()).last() == s.last());
        }
    }
}

/// The ids of a concatenation are the ids of both parts.
proof fn lemma_ids_concat(a: Seq<Stroke>, b: Seq<Stroke>)
    ensures
        ids_of(a + b) == ids_of(a) + ids_of(b),
{
    assert forall|id: u64| #[trigger] ids_of(a + b).contains(id) <==> (ids_of(a) + ids_of(b)).contains(id) by {
        if ids_of(a + b).contains(id) {
            let k = choose|k: int| 0 <= k < (a + b).len() && #[trigger] (a + b)[k].id == id;
            if k < a.len() {
                assert(a[k].id == id);
            } else {
                assert(b[k - a.len()].id == id);
            }
        }
        if ids_of(a).contains(id) {
            let k = choose|k: int| 0 <= k < a.len() && #[trigger] a[k].id == id;
            assert((a + b)[k].id == id);
        }
        if ids_of(b).contains(id) {
            let k = choose|k: int| 0 <= k < b.len() && #[trigger] b[k].id == id;
            assert((a + b)[a.len() + k].id == id);
        }
    }
    assert(ids_of(a + b) =~= ids_of(a) + ids_of(b));
}

/// Removing by id keeps ids distinct.
proof fn lemma_without_distinct(s: Seq<Stroke>, ys: Set<u64>)
    requires
        distinct_ids(s),
    ensures
        distinct_ids(without_ids(s, ys)),
    decreases s.len(),
{
    if s.len() > 0 {
        let p = s.drop_last();
        assert(distinct_ids(p)) by {
            assert forall|i: int, j: int| 0 <= i < p.len() && 0 <= j < p.len() && i != j implies #[trigger] p[i].id != #[trigger] p[j].id by {
                assert(p[i] == s[i] && p[j] == s[j]);
            }
        }
        lemma_without_distinct(p, ys);
        lemma_without_subset(p, ys);
        let w = without_ids(p, ys);
        if !ys.contains(s.last().id) {
            let v = w.push(s.last());
            assert forall|i: int, j: int| 0 <= i < v.len() && 0 <= j < v.len() && i != j implies #[trigger] v[i].id != #[trigger] v[j].id by {
                if i == w.len() {
                    assert(p.contains(w[j]));
                    let m = choose|m: int| 0 <= m < p.len() && p[m] == w[j];
                    assert(s[m] == p[m]);
                } else if j == w.len() {
                    assert(p.contains(w[i]));
                    let m = choose|m: int| 0 <= m < p.len() && p[m] == w[i];
                    assert(s[m] == p[m]);
                } else {
                    assert(v[i] == w[i] && v[j] == w[j]);
                }
            }
        }
    }
}

/// On strokes with distinct ids, the strokes an eraser touch keeps are those
/// whose ids it did not remove, in order.
proof fn lemma_survivors_without(s: Seq<Stroke>, f: Seq<bool>)
    requires
        f.len() == s.len(),
        distinct_ids(s),
    ensures
        survivors(s, f) == without_ids(s, ids_of(casualties(s, f))),
    decreases s.len(),
{
    if s.len() > 0 {
        let s1 = s.drop_first();
        let f1 = f.drop_first();
        assert(distinct_ids(s1)) by {
            assert forall|i: int, j: int| 0 <= i < s1.len() && 0 <= j < s1.len() && i != j implies #[trigger] s1[i].id != #[trigger] s1[j].id by {
                assert(s1[i] == s[i + 1] && s1[j] == s[j + 1]);
            }
        }
        lemma_survivors_without(s1, f1);
        lemma_casualties_from(s1, f1);
        let c1 = casualties(s1, f1);
        let ys = ids_of(casualties(s, f));
        assert(seq![s[0]] + s1 =~= s);
        lemma_without_cons(s[0], s1, ys);
        if f[0] {
            assert(casualties(s, f) == c1.push(s[0]));
            assert(ys.contains(s[0].id)) by {
                assert(c1.push(s[0])[c1.len() as int].id == s[0].id);
            }
            assert forall|m: int| 0 <= m < s1.len() implies (ys.contains(#[trigger] s1[m].id) == ids_of(c1).contains(s1[m].id)) by {
                assert(s1[m] == s[m + 1]);
                if ys.contains(s1[m].id) {
                    let k = choose|k: int| 0 <= k < c1.push(s[0]).len() && #[trigger] c1.push(s[0])[k].id == s1[m].id;
                    if k < c1.len() {
                        assert(c1[k].id == s1[m].id);
                    } else {
                        assert(s[0].id == s[m + 1].id);
                    }
                }
                if ids_of(c1).contains(s1[m].id) {
                    let k = choose|k: int| 0 <= k < c1.len() && #[trigger] c1[k].id == s1[m].id;
                    assert(c1.push(s[0])[k].id == s1[m].id);
                }
            }
            lemma_without_same(s1, ys, ids_of(c1));
        } else {
            assert(casualties(s, f) == c1);
            assert(!ys.contains(s[0].id)) by {
                if ys.contains(s[0].id) {
                    let k = choose|k: int| 0 <= k < c1.len() && #[trigger] c1[k].id == s[0].id;
                    assert(flagged_in(s1, f1, c1[k], true));
                    let m = choose|m: int| 0 <= m < s1.len() && f1[m] == true && #[trigger] s1[m] == c1[k];
                    assert(s[m + 1] == s1[m]);
                }
            }
        }
    }
}

/// The flags over `s` of two eraser touches in a row: `g1` over `s`, then `g2`
/// over the strokes `g1` kept. A stroke is flagged when the first touch
/// removed it or the second touch removed it among the kept ones.
pub open spec fn merge_flags(g1: Seq<bool>, g2: Seq<bool>) -> Seq<bool>
    decreases g1.len(),
{
    if g1.len() == 0 {
        Seq::<bool>::empty()
    } else if g1[0] {
        seq![true] + merge_flags(g1.drop_first(), g2)
    } else {
        seq![g2[0]] + merge_flags(g1.drop_first(), g2.drop_first())
    }
}

/// `kept` is `s` with some strokes taken out, order kept, and `gone` holds
/// exactly the strokes taken out (in some order).
pub open spec fn takes_out(s: Seq<Stroke>, kept: Seq<Stroke>, gone: Seq<Stroke>) -> bool {
    exists|g: Seq<bool>| g.len() == s.len() && survivors(s, g) == kept
        && #[trigger] casualties(s, g).to_multiset() == gone.to_multiset()
}

/// Two touches in a row act on `s` as one touch with the merged flags.
proof fn lemma_merge_flags(s: Seq<Stroke>, g1: Seq<bool>, g2: Seq<bool>)
    requires
        g1.len() == s.len(),
        g2.len() == survivors(s, g1).len(),
    ensures
        merge_flags(g1, g2).len() == s.len(),
        survivors(s, merge_flags(g1, g2)) == survivors(survivors(s, g1), g2),
        casualties(s, merge_flags(g1, g2)).to_multiset()
            == casualties(s, g1).to_multiset().add(casualties(survivors(s, g1), g2).to_multiset()),
    decreases s.len(),
{
    broadcast use vstd::seq_lib::group_to_multiset_ensures;
    broadcast use vstd::multiset::group_multiset_axioms;
    let g = merge_flags(g1, g2);
    if s.len() == 0 {
        assert(survivors(s, g1).len() == 0);
        assert(casualties(s, g1) =~= Seq::<Stroke>::empty());
        assert(casualties(s, g) =~= Seq::<Stroke>::empty());
        assert(casualties(survivors(s, g1), g2) =~= Seq::<Stroke>::empty());
        assert(Seq::<Stroke>::empty().to_multiset() =~= Multiset::<Stroke>::empty());
        assert(survivors(survivors(s, g1), g2) == survivors(s, g1));
    } else {
        let s1 = s.drop_first();
        let h1 = g1.drop_first();
        let k = survivors(s, g1);
        if g1[0] {
            assert(k == survivors(s1, h1));
            lemma_merge_flags(s1, h1, g2);
            let g_rest = merge_flags(h1, g2);
            assert(g == seq![true] + g_rest);
            assert(g.drop_first() =~= g_rest);
            assert(g[0]);
            assert(survivors(s, g) == survivors(s1, g_rest));
            assert(casualties(s, g) == casualties(s1, g_rest).push(s[0]));
            assert(casualties(s, g1) == casualties(s1, h1).push(s[0]));
            assert(casualties(s, g).to_multiset() =~= casualties(s1, g_rest).to_multiset().insert(s[0]));
            assert(casualties(s, g1).to_multiset() =~= casualties(s1, h1).to_multiset().insert(s[0]));
            assert(casualties(s, g).to_multiset()
                =~= casualties(s, g1).to_multiset().add(casualties(k, g2).to_multiset()));
        } else {
            let k1 = survivors(s1, h1);
            assert(k == seq![s[0]] + k1);
            assert(k.drop_first() =~= k1);
            assert(k[0] == s[0]);
            let h2 = g2.drop_first();
            lemma_merge_flags(s1, h1, h2);
            let g_rest = merge_flags(h1, h2);
            assert(g == seq![g2[0]] + g_rest);
            assert(g.drop_first() =~= g_rest);
            assert(g[0] == g2[0]);
            assert(casualties(s, g1) == casualties(s1, h1));
            assert(survivors(k, g2) == (if g2[0] {
                survivors(k1, h2)
            } else {
                seq![s[0]] + survivors(k1, h2)
            }));
            assert(casualties(k, g2) == (if g2[0] {
                casualties(k1, h2).push(s[0])
            } else {
                casualties(k1, h2)
            }));
            if g2[0] {
                assert(casualties(s, g) == casualties(s1, g_rest).push(s[0]));
                assert(casualties(s, g).to_multiset() =~= casualties(s1, g_rest).to_multiset().insert(s[0]));
                assert(casualties(k, g2).to_multiset() =~= casualties(k1, h2).to_multiset().insert(s[0]));
            } else {
                assert(casualties(s, g) == casualties(s1, g_rest));
            }
            assert(casualties(s, g).to_multiset()
                =~= casualties(s, g1).to_multiset().add(casualties(k, g2).to_multiset()));
        }
    }
}

/// What the first `n` touches of an eraser gesture have done, whatever the
/// ids: the gesture's erased strokes are those the touches removed, in
/// removal order, and the canvas is the starting one with exactly those
/// strokes taken out, order kept; nothing else changed.
proof fn lemma_touches_take_out(
    s0: AppState,
    states: Seq<AppState>,
    queries: Seq<CellRange>,
    hits: Seq<Seq<bool>>,
    results: Seq<bool>,
    n: nat,
)
    requires
        erase_touches(states, queries, hits, results),
        n <= queries.len(),
        states[0].strokes@ == s0.strokes@,
        states[0].current_erased@.len() == 0,
    ensures
        ({
            let r = removed_by_touches(states, queries, hits, n);
            &&& states[n as int].current_erased@ == r
            &&& takes_out(s0.strokes@, states[n as int].strokes@, r)
            &&& states[n as int].history@ == states[0].history@
            &&& states[n as int].redo_history@ == states[0].redo_history@
            &&& states[n as int].is_erasing == states[0].is_erasing
            &&& states[n as int].active_button == states[0].active_button
            &&& states[n as int].current_stroke == states[0].current_stroke
            &&& states[n as int].next_stroke_id == states[0].next_stroke_id
            &&& states[n as int].max_undo_steps == states[0].max_undo_steps
        }),
    decreases n,
{
    broadcast use vstd::seq_lib::group_to_multiset_ensures;
    broadcast use vstd::multiset::group_multiset_axioms;
    let s = s0.strokes@;
    if n == 0 {
        assert(states[0].current_erased@ =~= Seq::<Stroke>::empty());
        let g = Seq::new(s.len(), |i: int| false);
        crate::state::app_state::lemma_no_flags(s, g);
        assert(casualties(s, g).to_multiset() == removed_by_touches(states, queries, hits, 0).to_multiset());
    } else {
        let k = (n - 1) as nat;
        lemma_touches_take_out(s0, states, queries, hits, results, k);
        let r0 = removed_by_touches(states, queries, hits, k);
        let a = states[k as int];
        let b = states[n as int];
        assert(erase_spec(a, b, queries[k as int], hits[k as int], results[k as int]));
        let st = a.strokes@;
        let f = erase_flags(st, ids_in_range(a.spatial_index@, queries[k as int]), hits[k as int]);
        let cs = casualties(st, f);
        assert(cs == touch_removed(a, queries[k as int], hits[k as int]));
        let r = removed_by_touches(states, queries, hits, n);
        assert(r == r0 + cs);
        let g1 = choose|g: Seq<bool>| g.len() == s.len() && survivors(s, g) == st
            && #[trigger] casualties(s, g).to_multiset() == r0.to_multiset();
        lemma_merge_flags(s, g1, f);
        let g = merge_flags(g1, f);
        vstd::seq_lib::lemma_multiset_commutative(r0, cs);
        assert(casualties(s, g).to_multiset() == r.to_multiset());
        assert(b.strokes@ == survivors(s, g));
    }
}

/// What the first `n` touches of an eraser gesture have done: the removed
/// strokes are exactly the gesture's erased strokes, come from the canvas
/// with distinct ids, and have left it (order kept); nothing else changed.
proof fn lemma_touches(
    s0: AppState,
    states: Seq<AppState>,
    queries: Seq<CellRange>,
    hits: Seq<Seq<bool>>,
    results: Seq<bool>,
    n: nat,
)
    requires
        erase_touches(states, queries, hits, results),
        n <= queries.len(),
        distinct_ids(s0.strokes@),
        states[0].strokes@ == s0.strokes@,
        states[0].current_erased@.len() == 0,
    ensures
        ({
            let r = removed_by_touches(states, queries, hits, n);
            &&& states[n as int].current_erased@ == r
            &&& states[n as int].strokes@ == without_ids(s0.strokes@, ids_of(r))
            &&& distinct_ids(r)
            &&& forall|i: int| 0 <= i < r.len() ==> s0.strokes@.contains(#[trigger] r[i])
            &&& states[n as int].history@ == states[0].history@
            &&& states[n as int].redo_history@ == states[0].redo_history@
            &&& states[n as int].is_erasing == states[0].is_erasing
            &&& states[n as int].active_button == states[0].active_button
            &&& states[n as int].current_stroke == states[0].current_stroke
            &&& states[n as int].next_stroke_id == states[0].next_stroke_id
            &&& states[n as int].max_undo_steps == states[0].max_undo_steps
        }),
    decreases n,
{
    let s = s0.strokes@;
    if n == 0 {
        assert(states[0].current_erased@ =~= Seq::<Stroke>::empty());
        lemma_without_absent(s, ids_of(Seq::<Stroke>::empty()));
    } else {
        let k = (n - 1) as nat;
        lemma_touches(s0, states, queries, hits, results, k);
        let r0 = removed_by_touches(states, queries, hits, k);
        let a = states[k as int];
        let b = states[n as int];
        assert(erase_spec(a, b, queries[k as int], hits[k as int], results[k as int]));
        let st = a.strokes@;
        let f = erase_flags(st, ids_in_range(a.spatial_index@, queries[k as int]), hits[k as int]);
        let cs = casualties(st, f);
        assert(cs == touch_removed(a, queries[k as int], hits[k as int]));
        let r = removed_by_touches(states, queries, hits, n);
        assert(r == r0 + cs);
        lemma_without_distinct(s, ids_of(r0));
        lemma_without_subset(s, ids_of(r0));
        lemma_survivors_without(st, f);
        lemma_casualties_from(st, f);
        lemma_without_twice(s, ids_of(r0), ids_of(cs));
        lemma_ids_concat(r0, cs);
        assert(b.strokes@ == without_ids(s, ids_of(r)));
        assert forall|i: int| 0 <= i < r.len() implies s.contains(#[trigger] r[i]) by {
            if i >= r0.len() {
                assert(r[i] == cs[i - r0.len()]);
                assert(flagged_in(st, f, cs[i - r0.len()], true));
                let m = choose|m: int| 0 <= m < st.len() && f[m] == true && #[trigger] st[m] == cs[i - r0.len()];
                assert(st.contains(st[m]));
            } else {
                assert(r[i] == r0[i]);
            }
        }
        assert(distinct_ids(r)) by {
            crate::state::transitions::lemma_casualties_distinct(st, f);
            assert forall|i: int, j: int| 0 <= i < r.len() && 0 <= j < r.len() && i != j implies #[trigger] r[i].id != #[trigger] r[j].id by {
                if i < r0.len() && j < r0.len() {
                    assert(r[i] == r0[i] && r[j] == r0[j]);
                } else if i >= r0.len() && j >= r0.len() {
                    assert(r[i] == cs[i - r0.len()] && r[j] == cs[j - r0.len()]);
                } else {
                    let (p, q) = if i < r0.len() { (i, j) } else { (j, i) };
                    assert(r[p] == r0[p]);
                    assert(r[q] == cs[q - r0.len()]);
                    assert(flagged_in(st, f, cs[q - r0.len()], true));
                    let m = choose|m: int| 0 <= m < st.len() && f[m] == true && #[trigger] st[m] == cs[q - r0.len()];
                    assert(!ids_of(r0).contains(st[m].id));
                    assert(r0[p].id == r[p].id);
                }
            }
        }
    }
}

/// A whole vector-eraser gesture: an eraser press on an idle canvas, any
/// number of eraser touches, and the release of the pressing button (or of
/// the tip). The strokes the touches removed, in removal order, are the
/// gesture's erased strokes `e`; the canvas ends as the starting one with
/// exactly those strokes taken out, order kept (and, when the canvas had
/// distinct ids, as the starting one without the ids of `e`). When any were
/// removed, they become one new erase edit on top of the history (the oldest
/// edits beyond the limit dropped) and the redo history empties; otherwise
/// both histories are as before. The gesture ends with nothing erased
/// pending, not erasing and no button active.
pub proof fn law_eraser_gesture(
    s: AppState,
    states: Seq<AppState>,
    queries: Seq<CellRange>,
    hits: Seq<Seq<bool>>,
    results: Seq<bool>,
    end: AppState,
    button: u32,
    eraser_held: bool,
    press: PressOutcome,
    released_button: u32,
    cells: CellRange,
    release: ReleaseOutcome,
)
    requires
        s.current_stroke is None,
        !s.is_erasing,
        s.erase_mode == EraseMode::Vector,
        button != 3,
        button == 2 || eraser_held,
        erase_touches(states, queries, hits, results),
        press_spec(s, states[0], button, false, eraser_held, press),
        !(button != 0 && released_button != 0 && button != released_button),
        release_spec(states.last(), end, released_button, cells, release),
    ensures
        press == PressOutcome::StartErasing,
        release == ReleaseOutcome::ErasingEnded,
        ({
            let e = states.last().current_erased;
            &&& e@ == removed_by_touches(states, queries, hits, queries.len())
            &&& takes_out(s.strokes@, end.strokes@, e@)
            &&& distinct_ids(s.strokes@) ==> {
                &&& forall|i: int| 0 <= i < e@.len() ==> s.strokes@.contains(#[trigger] e@[i])
                &&& distinct_ids(e@)
                &&& end.strokes@ == without_ids(s.strokes@, ids_of(e@))
            }
            &&& e@.len() > 0 ==> {
                &&& end.history@ == keep_newest(s.history@.push(Action::Erase(e)), s.max_undo_steps)
                &&& end.redo_history@.len() == 0
            }
            &&& e@.len() == 0 ==> {
                &&& end.history@ == s.history@
                &&& end.redo_history@ == s.redo_history@
            }
        }),
        end.current_erased@.len() == 0,
        !end.is_erasing,
        end.active_button == 0,
{
    lemma_touches_take_out(s, states, queries, hits, results, queries.len());
    if distinct_ids(s.strokes@) {
        lemma_touches(s, states, queries, hits, results, queries.len());
    }
    assert(states.last() == states[queries.len() as int]);
}

} // verus!
