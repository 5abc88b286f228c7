use vstd::prelude::*;
use crate::state::app_state::{AppState, undo_spec, redo_spec, same_tools};
use crate::state::history::{
    Action, Stroke, ids_of, sorted, strictly_sorted, lemma_without_sorted_merge,
    lemma_without_absent, lemma_sort_restores, keep_newest,
};
use crate::state::coherence::{coherent, committed, undo_fit, redo_fit, lemma_strict_same_set};
use crate::state::app_state::undo_keeps_cover;
use crate::state::geometry::{
    CellRange, add_to_cells, remove_from_cells, range_cells, ids_in, ids_in_range, no_empty_cells,
};
use crate::state::history::distinct_ids;

verus! {

/// The newest edit `a` can be undone on a canvas holding `strokes` so that
/// redoing it gives the canvas back: a drawn stroke is still on top, erased
/// strokes share no id with the canvas (which is sorted by id), and a clear
/// was the last change to the canvas.
pub open spec fn undo_fits(strokes: Seq<Stroke>, a: Action) -> bool {
    match a {
        Action::Draw(s) => strokes.len() > 0 && strokes.last() == s,
        Action::Erase(e) => sorted(strokes) && ids_of(e@).disjoint(ids_of(strokes)),
        Action::Clear(_) => strokes.len() == 0,
    }
}

/// The newest undone edit `a` can be redone on a canvas holding `strokes` so
/// that undoing it gives the canvas back: strokes to erase are strokes of the
/// canvas (which is strictly sorted by id), each named once, and strokes to
/// clear are exactly the canvas.
pub open spec fn redo_fits(strokes: Seq<Stroke>, a: Action) -> bool {
    match a {
        Action::Draw(_) => true,
        Action::Erase(e) => {
            &&& strictly_sorted(strokes)
            &&& forall|i: int| 0 <= i < e@.len() ==> strokes.contains(#[trigger] e@[i])
            &&& forall|i: int, j: int| 0 <= i < j < e@.len() ==> #[trigger] e@[i].id != #[trigger] e@[j].id
        },
        Action::Clear(c) => c@ == strokes,
    }
}

/// Undo followed by redo gives back the canvas and both histories, when the
/// undone edit fits the canvas and neither history is at its limit.
pub proof fn law_undo_then_redo(s0: AppState, s1: AppState, s2: AppState)
    requires
        undo_spec(s0, s1, true),
        redo_spec(s1, s2, true),
        s0.history@.len() <= s0.max_undo_steps,
        s0.redo_history@.len() < s0.max_undo_steps,
        undo_fits(s0.strokes@, s0.history@.last()),
    ensures
        s2.strokes@ == s0.strokes@,
        s2.history@ == s0.history@,
        s2.redo_history@ == s0.redo_history@,
        same_tools(s2, s0),
{
    let a = s0.history@.last();
    assert(s1.history@ == s0.history@.drop_last());
    assert(s1.redo_history@ == s0.redo_history@.push(a));
    assert(s1.redo_history@.last() == a);
    assert(s1.redo_history@.drop_last() =~= s0.redo_history@);
    assert(s0.history@.drop_last().push(a) =~= s0.history@);
    match a {
        Action::Draw(s) => {
            assert(s0.strokes@.drop_last().push(s) =~= s0.strokes@);
        },
        Action::Erase(e) => {
            lemma_without_sorted_merge(s0.strokes@, e@, ids_of(e@));
            assert forall|i: int| 0 <= i < s0.strokes@.len() implies !ids_of(e@).contains(#[trigger] s0.strokes@[i].id) by {
                assert(ids_of(s0.strokes@).contains(s0.strokes@[i].id));
            }
            lemma_without_absent(s0.strokes@, ids_of(e@));
        },
        Action::Clear(_) => {
            assert(s0.strokes@ =~= Seq::<Stroke>::empty());
        },
    }
}

/// Redo followed by undo gives back the canvas and both histories, when the
/// redone edit fits the canvas and neither history is at its limit.
pub proof fn law_redo_then_undo(s0: AppState, s1: AppState, s2: AppState)
    requires
        redo_spec(s0, s1, true),
        undo_spec(s1, s2, true),
        s0.history@.len() < s0.max_undo_steps,
        s0.redo_history@.len() <= s0.max_undo_steps,
        redo_fits(s0.strokes@, s0.redo_history@.last()),
    ensures
        s2.strokes@ == s0.strokes@,
        s2.history@ == s0.history@,
        s2.redo_history@ == s0.redo_history@,
        same_tools(s2, s0),
{
    let a = s0.redo_history@.last();
    assert(s1.redo_history@ == s0.redo_history@.drop_last());
    assert(s1.history@ == s0.history@.push(a));
    assert(s1.history@.last() == a);
    assert(s1.history@.drop_last() =~= s0.history@);
    assert(s0.redo_history@.drop_last().push(a) =~= s0.redo_history@);
    match a {
        Action::Draw(s) => {
            assert(s0.strokes@.push(s).drop_last() =~= s0.strokes@);
        },
        Action::Erase(e) => {
            assert forall|i: int| 0 <= i < e@.len() implies !Set::<u64>::empty().contains(#[trigger] e@[i].id) by {}
            lemma_sort_restores(s0.strokes@, e@, Set::<u64>::empty());
            assert(Set::<u64>::empty() + ids_of(e@) =~= ids_of(e@));
            lemma_without_absent(s0.strokes@, Set::<u64>::empty());
        },
        Action::Clear(_) => {},
    }
}

/// In a coherent state outside an eraser gesture's removals, the newest edit
/// fits the canvas for undo.
proof fn lemma_coherent_undo_fits(s: AppState)
    requires
        coherent(s),
        s.current_erased@.len() == 0,
        s.history@.len() > 0,
    ensures
        undo_fits(s.strokes@, s.history@.last()),
{
    let st = s.strokes@;
    let k = committed(s);
    assert(s.current_erased@.to_set() =~= Set::<Stroke>::empty());
    assert(k =~= st.to_set());
    let a = s.history@.last();
    assert(undo_fit(k, a));
    match a {
        Action::Draw(d) => {
            let n = st.len();
            let i = choose|i: int| 0 <= i < n && st[i] == d;
            if i < n - 1 {
                assert(k.contains(st[n - 1]));
                assert(st[i].id < st[n - 1].id);
            }
        },
        Action::Erase(e) => {
            assert(ids_of(e@).disjoint(ids_of(st))) by {
                assert forall|id: u64| ids_of(st).contains(id) implies !ids_of(e@).contains(id) by {
                    let i = choose|i: int| 0 <= i < st.len() && #[trigger] st[i].id == id;
                    assert(k.contains(st[i]));
                }
            }
        },
        Action::Clear(_) => {
            if st.len() > 0 {
                assert(k.contains(st[0]));
            }
        },
    }
}

/// In a coherent state outside an eraser gesture's removals, the newest
/// undone edit fits the canvas for redo.
proof fn lemma_coherent_redo_fits(s: AppState)
    requires
        coherent(s),
        s.current_erased@.len() == 0,
        s.redo_history@.len() > 0,
    ensures
        redo_fits(s.strokes@, s.redo_history@.last()),
{
    let st = s.strokes@;
    let k = committed(s);
    assert(s.current_erased@.to_set() =~= Set::<Stroke>::empty());
    assert(k =~= st.to_set());
    let a = s.redo_history@.last();
    assert(redo_fit(k, a));
    match a {
        Action::Draw(_) => {},
        Action::Erase(e) => {
            assert forall|i: int| 0 <= i < e@.len() implies st.contains(#[trigger] e@[i]) by {
                assert(k.contains(e@[i]));
            }
        },
        Action::Clear(c) => {
            lemma_strict_same_set(c@, st);
        },
    }
}

/// In a coherent state, outside an eraser gesture that has removed strokes,
/// undoing the newest edit and redoing it gives back the canvas and both
/// histories.
pub proof fn law_undo_redo_round_trip(s0: AppState, s1: AppState, s2: AppState)
    requires
        coherent(s0),
        s0.current_erased@.len() == 0,
        undo_spec(s0, s1, true),
        redo_spec(s1, s2, true),
    ensures
        s2.strokes@ == s0.strokes@,
        s2.history@ == s0.history@,
        s2.redo_history@ == s0.redo_history@,
        same_tools(s2, s0),
{
    lemma_coherent_undo_fits(s0);
    law_undo_then_redo(s0, s1, s2);
}

/// In a coherent state, outside an eraser gesture that has removed strokes,
/// redoing the newest undone edit and undoing it again gives back the canvas
/// and both histories.
pub proof fn law_redo_undo_round_trip(s0: AppState, s1: AppState, s2: AppState)
    requires
        coherent(s0),
        s0.current_erased@.len() == 0,
        redo_spec(s0, s1, true),
        undo_spec(s1, s2, true),
    ensures
        s2.strokes@ == s0.strokes@,
        s2.history@ == s0.history@,
        s2.redo_history@ == s0.redo_history@,
        same_tools(s2, s0),
{
    lemma_coherent_redo_fits(s0);
    law_redo_then_undo(s0, s1, s2);
}

/// A query finds every stroke of the canvas whose cells meet the queried
/// range, as long as the index covers the canvas: the eraser's candidates
/// never miss a stroke under it.
pub proof fn law_query_finds_covered_strokes(st: AppState, q: CellRange, i: int, c: (i32, i32))
    requires
        st.index_covers(),
        0 <= i < st.strokes@.len(),
        st.strokes@[i].cells.holds(c),
        q.holds(c),
    ensures
        ids_in_range(st.spatial_index@, q).contains(st.strokes@[i].id),
{
    assert(ids_in(st.spatial_index@, c).contains(st.strokes@[i].id));
}

/// After recording `id` over range `r`, a query of any range that shares a
/// cell with `r` finds `id`.
pub proof fn law_query_after_insert(m: Map<(i32, i32), Set<u64>>, id: u64, r: CellRange, q: CellRange, c: (i32, i32))
    requires
        r.holds(c),
        q.holds(c),
    ensures
        ids_in_range(add_to_cells(m, id, range_cells(r)), q).contains(id),
{
    assert(ids_in(add_to_cells(m, id, range_cells(r)), c).contains(id));
}

/// After forgetting `id` over range `r`, a query of a range inside `r` no
/// longer finds `id`, and finds every other id exactly as before.
pub proof fn law_query_after_remove(m: Map<(i32, i32), Set<u64>>, id: u64, r: CellRange, q: CellRange)
    requires
        forall|c: (i32, i32)| q.holds(c) ==> r.holds(c),
    ensures
        !ids_in_range(remove_from_cells(m, id, range_cells(r)), q).contains(id),
        forall|other: u64| other != id ==>
            (ids_in_range(remove_from_cells(m, id, range_cells(r)), q).contains(other)
                == ids_in_range(m, q).contains(other)),
{
    let m1 = remove_from_cells(m, id, range_cells(r));
    if ids_in_range(m1, q).contains(id) {
        let c = choose|c: (i32, i32)| q.holds(c) && #[trigger] ids_in(m1, c).contains(id);
        assert(r.holds(c));
    }
    assert forall|other: u64| other != id implies
        (ids_in_range(m1, q).contains(other) == ids_in_range(m, q).contains(other)) by {
        if ids_in_range(m1, q).contains(other) {
            let c = choose|c: (i32, i32)| q.holds(c) && #[trigger] ids_in(m1, c).contains(other);
            assert(ids_in(m, c).contains(other));
        }
        if ids_in_range(m, q).contains(other) {
            let c = choose|c: (i32, i32)| q.holds(c) && #[trigger] ids_in(m, c).contains(other);
            assert(m[c].remove(id).contains(other));
            assert(ids_in(m1, c).contains(other));
        }
    }
}

/// Recording `id` over a set of cells and then forgetting it there gives the
/// index back, when `id` was recorded at none of those cells and the index
/// holds no empty cell.
pub proof fn law_remove_undoes_insert(m: Map<(i32, i32), Set<u64>>, id: u64, cs: Set<(i32, i32)>)
    requires
        no_empty_cells(m),
        forall|c: (i32, i32)| cs.contains(c) ==> !(#[trigger] ids_in(m, c)).contains(id),
    ensures
        remove_from_cells(add_to_cells(m, id, cs), id, cs) == m,
{
    let m1 = add_to_cells(m, id, cs);
    let m2 = remove_from_cells(m1, id, cs);
    assert forall|c: (i32, i32)| cs.contains(c) implies #[trigger] m1[c].remove(id) == ids_in(m, c) by {
        assert(m1[c] == ids_in(m, c).insert(id));
        assert(ids_in(m, c).insert(id).remove(id) =~= ids_in(m, c));
    }
    assert forall|c: (i32, i32)| #[trigger] m2.contains_key(c) <==> m.contains_key(c) by {
        if cs.contains(c) && !m.contains_key(c) {
            assert(ids_in(m, c) =~= Set::<u64>::empty());
        }
    }
    assert(m2 =~= m);
}

/// In a coherent state the canvas has distinct ids and, when there is an
/// edit to undo, no stroke below the top one shares the id of a stroke that
/// edit drew: the conditions under which erasing and undoing keep the index
/// covering the canvas.
pub proof fn law_coherent_keeps_index_conditions(st: AppState)
    requires
        coherent(st),
    ensures
        distinct_ids(st.strokes@),
        st.history@.len() > 0 ==> undo_keeps_cover(st.strokes@, st.history@.last()),
{
    let s = st.strokes@;
    assert forall|i: int, j: int| 0 <= i < s.len() && 0 <= j < s.len() && i != j implies #[trigger] s[i].id != #[trigger] s[j].id by {
        if i < j {
            assert(s[i].id < s[j].id);
        } else {
            assert(s[j].id < s[i].id);
        }
    }
    if st.history@.len() > 0 {
        if let Action::Draw(d) = st.history@.last() {
            let k = committed(st);
            assert(undo_fit(k, st.history@.last()));
            assert forall|j: int| 0 <= j < s.len() - 1 implies #[trigger] s[j].id != d.id by {
                assert(k.contains(s[s.len() - 1]));
                assert(s[j].id < s[s.len() - 1].id);
            }
        }
    }
}

} // verus!
