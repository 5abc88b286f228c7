use vstd::prelude::*;
use crate::state::app_state::{
    AppState, end_stroke_spec, erase_spec, clear_spec, load_spec, max_id, erase_flags, survivors, casualties, flagged_in,
    lemma_survivors_from, lemma_casualties_from,
};
use crate::state::coherence::{
    coherent, committed, id_bound, seq_ids_below, action_ids_below, undo_fit, undone, undo_chain,
    redo_chain, lemma_undo_chain_keep, lemma_concat_set,
};
use crate::state::history::{Action, Stroke, keep_newest, ids_of, strictly_sorted, distinct_ids};
use crate::state::geometry::{CellRange, ids_in_range};
use crate::events::pointer::{press_spec, release_spec, PressOutcome, ReleaseOutcome};

verus! {

/// The newest edits that `keep_newest` keeps are the tail of the history.
proof fn lemma_keep_newest_tail<A>(h: Seq<A>, limit: usize)
    ensures
        keep_newest(h, limit).len() <= limit,
        keep_newest(h, limit).len() <= h.len(),
        forall|i: int| 0 <= i < keep_newest(h, limit).len() ==>
            #[trigger] keep_newest(h, limit)[i] == h[i + h.len() - keep_newest(h, limit).len()],
{
}

/// Raising the id bound keeps every id below it.
pub(crate) proof fn lemma_raise_bound(st: AppState, b0: u64, b1: u64)
    requires
        b0 <= b1,
        seq_ids_below(st.strokes@, b0),
        seq_ids_below(st.current_erased@, b0),
        forall|i: int| 0 <= i < st.history@.len() ==> action_ids_below(#[trigger] st.history@[i], b0),
        forall|i: int| 0 <= i < st.redo_history@.len() ==> action_ids_below(#[trigger] st.redo_history@[i], b0),
    ensures
        seq_ids_below(st.strokes@, b1),
        seq_ids_below(st.current_erased@, b1),
        forall|i: int| 0 <= i < st.history@.len() ==> action_ids_below(#[trigger] st.history@[i], b1),
        forall|i: int| 0 <= i < st.redo_history@.len() ==> action_ids_below(#[trigger] st.redo_history@[i], b1),
{
    assert forall|i: int| 0 <= i < st.history@.len() implies action_ids_below(#[trigger] st.history@[i], b1) by {
        assert(action_ids_below(st.history@[i], b0));
    }
    assert forall|i: int| 0 <= i < st.redo_history@.len() implies action_ids_below(#[trigger] st.redo_history@[i], b1) by {
        assert(action_ids_below(st.redo_history@[i], b0));
    }
}

/// A new edit `a` on top of the history, after which the oldest edits
/// beyond the limit are dropped, keeps every id below `b`.
proof fn lemma_pushed_below(h: Seq<Action>, a: Action, limit: usize, b: u64)
    requires
        forall|i: int| 0 <= i < h.len() ==> action_ids_below(#[trigger] h[i], b),
        action_ids_below(a, b),
    ensures
        forall|i: int| 0 <= i < keep_newest(h.push(a), limit).len() ==>
            action_ids_below(#[trigger] keep_newest(h.push(a), limit)[i], b),
{
    let p = h.push(a);
    lemma_keep_newest_tail(p, limit);
    assert forall|i: int| 0 <= i < keep_newest(p, limit).len() implies
        action_ids_below(#[trigger] keep_newest(p, limit)[i], b) by {
        let j = i + p.len() - keep_newest(p, limit).len();
        if j < h.len() {
            assert(p[j] == h[j]);
        }
    }
}

/// Finishing the stroke being drawn keeps the state coherent: the stroke
/// goes on top of the canvas and becomes the newest edit, the redo history
/// empties.
proof fn lemma_commit_draw(s0: AppState, s1: AppState, s: Stroke)
    requires
        coherent(s0),
        s0.current_stroke == Some(s.id),
        s1.strokes@ == s0.strokes@.push(s),
        s1.history@ == keep_newest(s0.history@.push(Action::Draw(s)), s0.max_undo_steps),
        s1.redo_history@.len() == 0,
        s1.current_stroke is None,
        s1.next_stroke_id == s0.next_stroke_id,
        s1.current_erased@ == s0.current_erased@,
        !s1.is_erasing,
        s1.max_undo_steps == s0.max_undo_steps,
    ensures
        coherent(s1),
{
    let c = s.id;
    let b = s0.next_stroke_id;
    let st = s0.strokes@;
    assert(s0.current_erased@.len() == 0);
    assert(s0.current_erased@.to_set() =~= Set::<Stroke>::empty());
    assert(s1.current_erased@.to_set() =~= Set::<Stroke>::empty());
    let k0 = committed(s0);
    let k1 = committed(s1);
    assert(k0 =~= st.to_set());
    assert(k1 =~= s1.strokes@.to_set());
    assert(id_bound(s0) == c);
    assert(id_bound(s1) == b);
    assert(c < b);
    lemma_raise_bound(s0, c, b);
    assert(strictly_sorted(st.push(s))) by {
        assert forall|i: int, j: int| 0 <= i < j < st.push(s).len() implies #[trigger] st.push(s)[i].id < #[trigger] st.push(s)[j].id by {
            if j == st.len() {
                assert(st[i].id < c);
            } else {
                assert(st.push(s)[i] == st[i] && st.push(s)[j] == st[j]);
            }
        }
    }
    assert(seq_ids_below(s1.strokes@, b)) by {
        assert forall|i: int| 0 <= i < s1.strokes@.len() implies #[trigger] s1.strokes@[i].id < b by {
            if i < st.len() {
                assert(s1.strokes@[i] == st[i]);
            }
        }
    }
    let h = s0.history@.push(Action::Draw(s));
    assert(action_ids_below(Action::Draw(s), b));
    lemma_pushed_below(s0.history@, Action::Draw(s), s0.max_undo_steps, b);
    assert forall|x: Stroke| #[trigger] k1.contains(x) <==> k0.insert(s).contains(x) by {
        if k1.contains(x) {
            let j = choose|j: int| 0 <= j < st.len() + 1 && st.push(s)[j] == x;
            if j < st.len() {
                assert(st[j] == x);
            }
        }
        if k0.contains(x) {
            let j = choose|j: int| 0 <= j < st.len() && st[j] == x;
            assert(st.push(s)[j] == x);
        }
        if x == s {
            assert(st.push(s)[st.len() as int] == s);
        }
    }
    assert(!k0.contains(s)) by {
        if k0.contains(s) {
            let j = choose|j: int| 0 <= j < st.len() && st[j] == s;
            assert(st[j].id < c);
        }
    }
    assert(undo_fit(k1, Action::Draw(s))) by {
        assert forall|t: Stroke| #[trigger] k1.contains(t) implies t.id <= s.id by {
            if t != s {
                assert(k0.contains(t));
                let j = choose|j: int| 0 <= j < st.len() && st[j] == t;
                assert(st[j].id < c);
            }
        }
    }
    assert(undone(k1, Action::Draw(s)) =~= k0);
    assert(h.last() == Action::Draw(s));
    assert(h.drop_last() =~= s0.history@);
    assert(undo_chain(k1, h));
    lemma_undo_chain_keep(k1, h, s0.max_undo_steps);
    lemma_keep_newest_tail(h, s0.max_undo_steps);
    assert(redo_chain(k1, s1.redo_history@));
}

/// Ending an eraser gesture that removed strokes keeps the state coherent:
/// the removed strokes become the newest edit and the redo history empties.
proof fn lemma_commit_erase(s0: AppState, s1: AppState)
    requires
        coherent(s0),
        s0.current_erased@.len() > 0,
        s1.strokes@ == s0.strokes@,
        s1.history@ == keep_newest(s0.history@.push(Action::Erase(s0.current_erased)), s0.max_undo_steps),
        s1.redo_history@.len() == 0,
        s1.current_erased@.len() == 0,
        s1.current_stroke == s0.current_stroke,
        s1.next_stroke_id == s0.next_stroke_id,
        s1.max_undo_steps == s0.max_undo_steps,
    ensures
        coherent(s1),
{
    let e = s0.current_erased;
    let st = s0.strokes@;
    let b = id_bound(s0);
    assert(id_bound(s1) == b);
    let k0 = committed(s0);
    let k1 = committed(s1);
    assert(s1.current_erased@.to_set() =~= Set::<Stroke>::empty());
    assert(k1 =~= st.to_set());
    assert(action_ids_below(Action::Erase(e), b));
    lemma_pushed_below(s0.history@, Action::Erase(e), s0.max_undo_steps, b);
    assert(undo_fit(k1, Action::Erase(e))) by {
        assert forall|t: Stroke| #[trigger] k1.contains(t) implies !ids_of(e@).contains(t.id) by {
            let i = choose|i: int| 0 <= i < st.len() && st[i] == t;
            if ids_of(e@).contains(t.id) {
                let j = choose|j: int| 0 <= j < e@.len() && #[trigger] e@[j].id == t.id;
                assert(st[i].id != e@[j].id);
            }
        }
    }
    assert(undone(k1, Action::Erase(e)) =~= k0);
    let h = s0.history@.push(Action::Erase(e));
    assert(h.last() == Action::Erase(e));
    assert(h.drop_last() =~= s0.history@);
    assert(undo_chain(k1, h));
    lemma_undo_chain_keep(k1, h, s0.max_undo_steps);
    lemma_keep_newest_tail(h, s0.max_undo_steps);
    assert(redo_chain(k1, s1.redo_history@));
    assert(seq_ids_below(s1.current_erased@, b));
}

/// Finishing a stroke keeps a coherent state coherent.
pub proof fn law_end_stroke_keeps_coherence(s0: AppState, s1: AppState, cells: CellRange)
    requires
        coherent(s0),
        end_stroke_spec(s0, s1, cells),
    ensures
        coherent(s1),
{
    if let Some(id) = s0.current_stroke {
        lemma_commit_draw(s0, s1, Stroke { id, cells });
    }
}

/// A stylus release keeps a coherent state coherent, whatever it finishes.
pub proof fn law_stylus_up_keeps_coherence(
    s0: AppState,
    s1: AppState,
    released_button: u32,
    cells: CellRange,
    r: ReleaseOutcome,
)
    requires
        coherent(s0),
        release_spec(s0, s1, released_button, cells, r),
    ensures
        coherent(s1),
{
    if r == ReleaseOutcome::Ignored {
    } else if r == ReleaseOutcome::ErasingEnded {
        if s0.current_erased@.len() > 0 {
            lemma_commit_erase(s0, s1);
        } else {
            assert(s0.current_erased@.to_set() =~= Set::<Stroke>::empty());
            assert(s1.current_erased@.to_set() =~= Set::<Stroke>::empty());
            assert(committed(s1) =~= committed(s0));
        }
    } else if r == ReleaseOutcome::StrokeEnded {
        lemma_commit_draw(s0, s1, Stroke { id: s0.current_stroke->0, cells });
    } else {
        assert(committed(s1) =~= committed(s0));
    }
}

/// A stylus press keeps a coherent state coherent, unless it opens the menu
/// in the middle of an eraser gesture that has already removed strokes (those
/// strokes would then be lost to undo).
pub proof fn law_stylus_down_keeps_coherence(
    s0: AppState,
    s1: AppState,
    button: u32,
    menu_held: bool,
    eraser_held: bool,
    r: PressOutcome,
)
    requires
        coherent(s0),
        press_spec(s0, s1, button, menu_held, eraser_held, r),
        (button == 3 || menu_held) ==> s0.current_erased@.len() == 0,
    ensures
        coherent(s1),
{
    if button == 3 || menu_held {
        assert(s0.current_erased@.to_set() =~= Set::<Stroke>::empty());
        assert(s1.current_erased@.to_set() =~= Set::<Stroke>::empty());
        assert(committed(s1) =~= committed(s0));
        assert(id_bound(s0) <= id_bound(s1));
        lemma_raise_bound(s0, id_bound(s0), id_bound(s1));
    } else if s0.current_stroke is Some || s0.is_erasing {
        assert(committed(s1) =~= committed(s0));
    } else {
        assert(s0.current_erased@.len() == 0);
        assert(s0.current_erased@.to_set() =~= Set::<Stroke>::empty());
        assert(s1.current_erased@.to_set() =~= Set::<Stroke>::empty());
        assert(committed(s1) =~= committed(s0));
        assert(id_bound(s1) == id_bound(s0));
    }
}

/// The strokes an eraser touch keeps stay strictly sorted.
proof fn lemma_survivors_strict(s: Seq<Stroke>, f: Seq<bool>)
    requires
        f.len() == s.len(),
        strictly_sorted(s),
    ensures
        strictly_sorted(survivors(s, f)),
    decreases s.len(),
{
    if s.len() > 0 {
        let s1 = s.drop_first();
        let f1 = f.drop_first();
        assert(strictly_sorted(s1)) by {
            assert forall|i: int, j: int| 0 <= i < j < s1.len() implies #[trigger] s1[i].id < #[trigger] s1[j].id by {
                assert(s1[i] == s[i + 1] && s1[j] == s[j + 1]);
            }
        }
        lemma_survivors_strict(s1, f1);
        lemma_survivors_from(s1, f1);
        let r = survivors(s1, f1);
        if !f[0] {
            let t = seq![s[0]] + r;
            assert(survivors(s, f) == t);
            assert forall|i: int, j: int| 0 <= i < j < t.len() implies #[trigger] t[i].id < #[trigger] t[j].id by {
                assert(t[j] == r[j - 1]);
                if i == 0 {
                    assert(flagged_in(s1, f1, r[j - 1], false));
                    let m = choose|m: int| 0 <= m < s1.len() && f1[m] == false && #[trigger] s1[m] == r[j - 1];
                    assert(s[m + 1] == s1[m]);
                } else {
                    assert(t[i] == r[i - 1]);
                }
            }
        }
    }
}

/// The strokes an eraser touch removes have distinct ids.
pub(crate) proof fn lemma_casualties_distinct(s: Seq<Stroke>, f: Seq<bool>)
    requires
        f.len() == s.len(),
        distinct_ids(s),
    ensures
        distinct_ids(casualties(s, f)),
    decreases s.len(),
{
    if s.len() > 0 {
        let s1 = s.drop_first();
        let f1 = f.drop_first();
        assert(distinct_ids(s1)) by {
            assert forall|i: int, j: int| 0 <= i < s1.len() && 0 <= j < s1.len() && i != j implies #[trigger] s1[i].id != #[trigger] s1[j].id by {
                assert(s1[i] == s[i + 1] && s1[j] == s[j + 1]);
            }
        }
        lemma_casualties_distinct(s1, f1);
        lemma_casualties_from(s1, f1);
        let r = casualties(s1, f1);
        if f[0] {
            let t = r.push(s[0]);
            assert forall|i: int, j: int| 0 <= i < t.len() && 0 <= j < t.len() && i != j implies #[trigger] t[i].id != #[trigger] t[j].id by {
                if i == r.len() {
                    assert(flagged_in(s1, f1, r[j], true));
                    let m = choose|m: int| 0 <= m < s1.len() && f1[m] == true && #[trigger] s1[m] == r[j];
                    assert(s[m + 1] == s1[m]);
                } else if j == r.len() {
                    assert(flagged_in(s1, f1, r[i], true));
                    let m = choose|m: int| 0 <= m < s1.len() && f1[m] == true && #[trigger] s1[m] == r[i];
                    assert(s[m + 1] == s1[m]);
                } else {
                    assert(t[i] == r[i] && t[j] == r[j]);
                }
            }
        }
    }
}

/// Every stroke is either kept or removed by an eraser touch.
proof fn lemma_split_cover(s: Seq<Stroke>, f: Seq<bool>)
    requires
        f.len() == s.len(),
    ensures
        forall|k: int| 0 <= k < s.len() ==>
            survivors(s, f).contains(#[trigger] s[k]) || casualties(s, f).contains(s[k]),
    decreases s.len(),
{
    if s.len() > 0 {
        let s1 = s.drop_first();
        let f1 = f.drop_first();
        lemma_split_cover(s1, f1);
        let sv = survivors(s1, f1);
        let cs = casualties(s1, f1);
        assert forall|k: int| 0 <= k < s.len() implies
            survivors(s, f).contains(#[trigger] s[k]) || casualties(s, f).contains(s[k]) by {
            if k == 0 {
                if f[0] {
                    assert(cs.push(s[0])[cs.len() as int] == s[0]);
                } else {
                    assert((seq![s[0]] + sv)[0] == s[0]);
                }
            } else {
                assert(s[k] == s1[k - 1]);
                if sv.contains(s1[k - 1]) {
                    let m = choose|m: int| 0 <= m < sv.len() && sv[m] == s1[k - 1];
                    if !f[0] {
                        assert((seq![s[0]] + sv)[m + 1] == s[k]);
                    }
                } else {
                    let m = choose|m: int| 0 <= m < cs.len() && cs[m] == s1[k - 1];
                    if f[0] {
                        assert(cs.push(s[0])[m] == s[k]);
                    }
                }
            }
        }
    }
}

/// An eraser touch during an eraser gesture keeps a coherent state coherent:
/// the strokes it removes move from the canvas to the gesture's erased strokes.
pub proof fn law_erase_at_keeps_coherence(
    s0: AppState,
    s1: AppState,
    query: CellRange,
    hits: Seq<bool>,
    erased: bool,
)
    requires
        coherent(s0),
        s0.is_erasing,
        erase_spec(s0, s1, query, hits, erased),
    ensures
        coherent(s1),
{
    let st = s0.strokes@;
    let f = erase_flags(st, ids_in_range(s0.spatial_index@, query), hits);
    let sv = survivors(st, f);
    let cs = casualties(st, f);
    let e0 = s0.current_erased@;
    let e1 = s1.current_erased@;
    assert(e1 == e0 + cs);
    assert(distinct_ids(st)) by {
        assert forall|i: int, j: int| 0 <= i < st.len() && 0 <= j < st.len() && i != j implies #[trigger] st[i].id != #[trigger] st[j].id by {
            if i < j {
                assert(st[i].id < st[j].id);
            } else {
                assert(st[j].id < st[i].id);
            }
        }
    }
    lemma_survivors_strict(st, f);
    lemma_casualties_distinct(st, f);
    lemma_survivors_from(st, f);
    lemma_casualties_from(st, f);
    lemma_split_cover(st, f);
    lemma_concat_set(e0, cs);
    assert(distinct_ids(e1)) by {
        assert forall|i: int, j: int| 0 <= i < e1.len() && 0 <= j < e1.len() && i != j implies #[trigger] e1[i].id != #[trigger] e1[j].id by {
            if i < e0.len() && j < e0.len() {
                assert(e1[i] == e0[i] && e1[j] == e0[j]);
            } else if i >= e0.len() && j >= e0.len() {
                assert(e1[i] == cs[i - e0.len()] && e1[j] == cs[j - e0.len()]);
            } else if i < e0.len() {
                assert(e1[j] == cs[j - e0.len()]);
                assert(flagged_in(st, f, cs[j - e0.len()], true));
                let m = choose|m: int| 0 <= m < st.len() && f[m] == true && #[trigger] st[m] == cs[j - e0.len()];
                assert(st[m].id != e0[i].id);
            } else {
                assert(e1[i] == cs[i - e0.len()]);
                assert(flagged_in(st, f, cs[i - e0.len()], true));
                let m = choose|m: int| 0 <= m < st.len() && f[m] == true && #[trigger] st[m] == cs[i - e0.len()];
                assert(st[m].id != e0[j].id);
            }
        }
    }
    assert forall|i: int, j: int| 0 <= i < sv.len() && 0 <= j < e1.len() implies #[trigger] sv[i].id != #[trigger] e1[j].id by {
        assert(flagged_in(st, f, sv[i], false));
        let m = choose|m: int| 0 <= m < st.len() && f[m] == false && #[trigger] st[m] == sv[i];
        if j < e0.len() {
            assert(e1[j] == e0[j]);
        } else {
            assert(e1[j] == cs[j - e0.len()]);
            assert(flagged_in(st, f, cs[j - e0.len()], true));
            let m2 = choose|m2: int| 0 <= m2 < st.len() && f[m2] == true && #[trigger] st[m2] == cs[j - e0.len()];
            assert(m != m2);
        }
    }
    let b = id_bound(s0);
    assert(id_bound(s1) == b);
    assert(seq_ids_below(sv, b)) by {
        assert forall|i: int| 0 <= i < sv.len() implies #[trigger] sv[i].id < b by {
            assert(flagged_in(st, f, sv[i], false));
        }
    }
    assert(seq_ids_below(e1, b)) by {
        assert forall|i: int| 0 <= i < e1.len() implies #[trigger] e1[i].id < b by {
            if i < e0.len() {
                assert(e1[i] == e0[i]);
            } else {
                assert(e1[i] == cs[i - e0.len()]);
                assert(flagged_in(st, f, cs[i - e0.len()], true));
            }
        }
    }
    assert forall|x: Stroke| #[trigger] committed(s1).contains(x) <==> committed(s0).contains(x) by {
        if sv.to_set().contains(x) {
            let i = choose|i: int| 0 <= i < sv.len() && sv[i] == x;
            assert(flagged_in(st, f, sv[i], false));
            let m = choose|m: int| 0 <= m < st.len() && f[m] == false && #[trigger] st[m] == sv[i];
            assert(st.to_set().contains(x));
        }
        if cs.to_set().contains(x) {
            let i = choose|i: int| 0 <= i < cs.len() && cs[i] == x;
            assert(flagged_in(st, f, cs[i], true));
            let m = choose|m: int| 0 <= m < st.len() && f[m] == true && #[trigger] st[m] == cs[i];
            assert(st.to_set().contains(x));
        }
        if st.to_set().contains(x) {
            let k = choose|k: int| 0 <= k < st.len() && st[k] == x;
            assert(sv.contains(st[k]) || cs.contains(st[k]));
        }
    }
    assert(committed(s1) =~= committed(s0));
}

/// Clearing the canvas keeps a coherent state coherent, when no eraser
/// gesture has removed strokes that are not yet an undoable edit.
pub proof fn law_clear_keeps_coherence(s0: AppState, s1: AppState, cleared: bool)
    requires
        coherent(s0),
        s0.current_erased@.len() == 0,
        clear_spec(s0, s1, cleared),
    ensures
        coherent(s1),
{
    if cleared {
        let c = s0.strokes;
        let b = id_bound(s0);
        assert(id_bound(s1) == b);
        assert(s0.current_erased@.to_set() =~= Set::<Stroke>::empty());
        assert(s1.current_erased@.to_set() =~= Set::<Stroke>::empty());
        let k0 = committed(s0);
        let k1 = committed(s1);
        assert(k0 =~= c@.to_set());
        assert(k1 =~= Set::<Stroke>::empty());
        assert(action_ids_below(Action::Clear(c), b));
        lemma_pushed_below(s0.history@, Action::Clear(c), s0.max_undo_steps, b);
        assert(undo_fit(k1, Action::Clear(c)));
        assert(undone(k1, Action::Clear(c)) =~= k0);
        let h = s0.history@.push(Action::Clear(c));
        assert(h.last() == Action::Clear(c));
        assert(h.drop_last() =~= s0.history@);
        assert(undo_chain(k1, h));
        lemma_undo_chain_keep(k1, h, s0.max_undo_steps);
        lemma_keep_newest_tail(h, s0.max_undo_steps);
        assert(redo_chain(k1, s1.redo_history@));
    }
}

/// No stroke of `s` has an id above `max_id(s)`.
proof fn lemma_max_id_bounds(s: Seq<Stroke>)
    ensures
        forall|i: int| 0 <= i < s.len() ==> #[trigger] s[i].id <= max_id(s),
    decreases s.len(),
{
    if s.len() > 0 {
        lemma_max_id_bounds(s.drop_last());
        assert forall|i: int| 0 <= i < s.len() implies #[trigger] s[i].id <= max_id(s) by {
            if i < s.len() - 1 {
                assert(s[i] == s.drop_last()[i]);
            }
        }
    }
}

/// Loading strokes that are strictly sorted by id gives a coherent state,
/// when no stroke is being drawn and no eraser gesture has removed strokes.
pub proof fn law_load_gives_coherence(s0: AppState, s1: AppState, strokes: Seq<Stroke>)
    requires
        load_spec(s0, s1, strokes),
        strictly_sorted(strokes),
        s0.current_stroke is None,
        s0.current_erased@.len() == 0,
    ensures
        coherent(s1),
{
    lemma_max_id_bounds(strokes);
    assert(id_bound(s1) == s1.next_stroke_id);
    assert(seq_ids_below(s1.strokes@, s1.next_stroke_id)) by {
        assert forall|i: int| 0 <= i < strokes.len() implies #[trigger] strokes[i].id < s1.next_stroke_id by {
            assert(strokes[i].id <= max_id(strokes));
        }
    }
    assert(undo_chain(committed(s1), s1.history@));
    assert(redo_chain(committed(s1), s1.redo_history@));
}

} // verus!
