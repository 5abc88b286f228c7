use vstd::prelude::*;
use std::collections::HashSet;
use crate::state::geometry::{
    CellRange, EraseMode, SpatialIndex, add_to_cells, remove_from_cells, range_cells, ids_in_range,
};
use crate::state::history::{
    Action, Stroke, copy_strokes, sorted_by_id, sort_by_id, ids_of, without_ids, keep_newest,
    index_all, unindex_all, covers, distinct_ids, lemma_covers_sub, lemma_covers_add,
    lemma_covers_add_all, lemma_covers_remove, lemma_covers_remove_all, lemma_sort_members,
    lemma_without_subset,
};

use crate::state::coherence::{coherent, id_bound};
use crate::state::transitions::lemma_raise_bound;

verus! {

/// The editing state of a sketch: the strokes on the canvas, the undo and
/// redo histories, the stroke being drawn, the eraser gesture in progress,
/// the spatial index, and the redraw bookkeeping.
pub struct AppState {
    /// The id the next stroke will get.
    pub next_stroke_id: u64,
    /// The strokes on the canvas, bottom to top.
    pub strokes: Vec<Stroke>,
    /// Undoable edits, oldest first.
    pub history: Vec<Action>,
    /// Redoable edits, oldest first.
    pub redo_history: Vec<Action>,
    /// The id of the stroke being drawn, if any.
    pub current_stroke: Option<u64>,
    /// Strokes removed by the eraser gesture in progress, in removal order.
    pub current_erased: Vec<Stroke>,
    /// A vector-eraser gesture is in progress.
    pub is_erasing: bool,
    /// The stylus button that started the gesture in progress (0 for none).
    pub active_button: u32,
    pub erase_mode: EraseMode,
    /// Cell index of the strokes' bounding boxes.
    pub spatial_index: SpatialIndex,
    /// How many edits each history keeps.
    pub max_undo_steps: usize,
    /// How many strokes the cached rendering already shows.
    pub rendered_strokes_count: usize,
    /// The cached rendering must be rebuilt from scratch.
    pub needs_full_redraw: bool,
}

/// Every field but the strokes, the histories, the index and the redraw flag agree.
pub open spec fn same_tools(a: AppState, b: AppState) -> bool {
    &&& a.next_stroke_id == b.next_stroke_id
    &&& a.current_stroke == b.current_stroke
    &&& a.current_erased@ == b.current_erased@
    &&& a.is_erasing == b.is_erasing
    &&& a.active_button == b.active_button
    &&& a.erase_mode == b.erase_mode
    &&& a.max_undo_steps == b.max_undo_steps
    &&& a.rendered_strokes_count == b.rendered_strokes_count
}

/// What `undo` does: with an empty history nothing changes and the result is
/// false; otherwise the newest edit moves to the redo history and is reverted
/// (a drawn stroke leaves the top of the canvas and the index; erased strokes
/// return to the canvas, which is re-sorted by id, and to the index; a cleared
/// canvas gets its strokes back and they are re-indexed).
pub open spec fn undo_spec(old: AppState, new: AppState, done: bool) -> bool {
    &&& done == (old.history@.len() > 0)
    &&& !done ==> new == old
    &&& done ==> {
        let a = old.history@.last();
        &&& new.history@ == keep_newest(old.history@.drop_last(), old.max_undo_steps)
        &&& new.redo_history@ == keep_newest(old.redo_history@.push(a), old.max_undo_steps)
        &&& new.needs_full_redraw
        &&& same_tools(new, old)
        &&& match a {
            Action::Draw(s) => {
                &&& new.strokes@ == (if old.strokes@.len() > 0 {
                    old.strokes@.drop_last()
                } else {
                    old.strokes@
                })
                &&& new.spatial_index@ == remove_from_cells(old.spatial_index@, s.id, range_cells(s.cells))
            },
            Action::Erase(e) => {
                &&& new.strokes@ == sort_by_id(old.strokes@ + e@)
                &&& new.spatial_index@ == index_all(old.spatial_index@, e@)
            },
            Action::Clear(c) => {
                &&& new.strokes@ == c@
                &&& new.spatial_index@ == index_all(old.spatial_index@, c@)
            },
        }
    }
}

/// What `redo` does: with an empty redo history nothing changes and the result
/// is false; otherwise the newest undone edit moves back to the history and is
/// applied again (a stroke returns to the top of the canvas and the index;
/// erased strokes leave the canvas and the index; a clear empties the canvas
/// and the index).
pub open spec fn redo_spec(old: AppState, new: AppState, done: bool) -> bool {
    &&& done == (old.redo_history@.len() > 0)
    &&& !done ==> new == old
    &&& done ==> {
        let a = old.redo_history@.last();
        &&& new.redo_history@ == keep_newest(old.redo_history@.drop_last(), old.max_undo_steps)
        &&& new.history@ == keep_newest(old.history@.push(a), old.max_undo_steps)
        &&& new.needs_full_redraw
        &&& same_tools(new, old)
        &&& match a {
            Action::Draw(s) => {
                &&& new.strokes@ == old.strokes@.push(s)
                &&& new.spatial_index@ == add_to_cells(old.spatial_index@, s.id, range_cells(s.cells))
            },
            Action::Erase(e) => {
                &&& new.strokes@ == without_ids(old.strokes@, ids_of(e@))
                &&& new.spatial_index@ == unindex_all(old.spatial_index@, e@)
            },
            Action::Clear(_) => {
                &&& new.strokes@ == Seq::<Stroke>::empty()
                &&& new.spatial_index@ == Map::<(i32, i32), Set<u64>>::empty()
            },
        }
    }
}

/// The strokes that stay when the strokes flagged in `f` are erased, order kept.
pub open spec fn survivors(s: Seq<Stroke>, f: Seq<bool>) -> Seq<Stroke>
    decreases s.len(),
{
    if s.len() == 0 {
        s
    } else {
        let rest = survivors(s.drop_first(), f.drop_first());
        if f[0] {
            rest
        } else {
            seq![s[0]] + rest
        }
    }
}

/// The strokes flagged in `f`, last first: the order in which a scan from the
/// top of the canvas removes them.
pub open spec fn casualties(s: Seq<Stroke>, f: Seq<bool>) -> Seq<Stroke>
    decreases s.len(),
{
    if s.len() == 0 {
        s
    } else {
        let rest = casualties(s.drop_first(), f.drop_first());
        if f[0] {
            rest.push(s[0])
        } else {
            rest
        }
    }
}

/// Which strokes an eraser touch removes: those among the index candidates
/// whose ink the eraser reaches.
pub open spec fn erase_flags(s: Seq<Stroke>, candidates: Set<u64>, hits: Seq<bool>) -> Seq<bool> {
    Seq::new(s.len(), |i: int| candidates.contains(s[i].id) && hits[i])
}

pub(crate) proof fn lemma_no_flags(s: Seq<Stroke>, f: Seq<bool>)
    requires
        f.len() == s.len(),
        forall|i: int| 0 <= i < f.len() ==> !f[i],
    ensures
        survivors(s, f) == s,
        casualties(s, f) == Seq::<Stroke>::empty(),
    decreases s.len(),
{
    if s.len() > 0 {
        lemma_no_flags(s.drop_first(), f.drop_first());
        assert(seq![s[0]] + s.drop_first() =~= s);
    }
}

/// Records every stroke of `v` in the index, in order.
fn index_strokes(index: &mut SpatialIndex, v: &Vec<Stroke>)
    ensures
        final(index)@ == index_all(old(index)@, v@),
{
    let ghost m0 = index@;
    let mut i: usize = 0;
    assert(v@.take(0) =~= Seq::<Stroke>::empty());
    while i < v.len()
        invariant
            0 <= i <= v@.len(),
            index@ == index_all(m0, v@.take(i as int)),
        decreases v@.len() - i,
    {
        index.insert(v[i].id, &v[i].cells);
        proof {
            assert(v@.take(i + 1).drop_last() =~= v@.take(i as int));
            assert(v@.take(i + 1).last() == v@[i as int]);
        }
        i = i + 1;
    }
    assert(v@.take(v@.len() as int) =~= v@);
}

/// Forgets every stroke of `v` in the index, in order.
fn unindex_strokes(index: &mut SpatialIndex, v: &Vec<Stroke>)
    ensures
        final(index)@ == unindex_all(old(index)@, v@),
{
    let ghost m0 = index@;
    let mut i: usize = 0;
    assert(v@.take(0) =~= Seq::<Stroke>::empty());
    while i < v.len()
        invariant
            0 <= i <= v@.len(),
            index@ == unindex_all(m0, v@.take(i as int)),
        decreases v@.len() - i,
    {
        index.remove(v[i].id, &v[i].cells);
        proof {
            assert(v@.take(i + 1).drop_last() =~= v@.take(i as int));
            assert(v@.take(i + 1).last() == v@[i as int]);
        }
        i = i + 1;
    }
    assert(v@.take(v@.len() as int) =~= v@);
}

/// The ids of the strokes of `v`.
fn id_set(v: &Vec<Stroke>) -> (r: HashSet<u64>)
    ensures
        r@ == ids_of(v@),
{
    let mut r: HashSet<u64> = HashSet::new();
    let mut i: usize = 0;
    while i < v.len()
        invariant
            0 <= i <= v@.len(),
            r@ == ids_of(v@.take(i as int)),
        decreases v@.len() - i,
    {
        let ghost before = r@;
        r.insert(v[i].id);
        proof {
            assert forall|id: u64| #[trigger] r@.contains(id) == ids_of(v@.take(i + 1)).contains(id) by {
                if r@.contains(id) {
                    if id == v@[i as int].id {
                        assert(v@.take(i + 1)[i as int].id == id);
                    } else {
                        let k = choose|k: int| 0 <= k < i && #[trigger] v@.take(i as int)[k].id == id;
                        assert(v@.take(i + 1)[k].id == id);
                    }
                }
                if ids_of(v@.take(i + 1)).contains(id) {
                    let k = choose|k: int| 0 <= k < i + 1 && #[trigger] v@.take(i + 1)[k].id == id;
                    if k < i {
                        assert(v@.take(i as int)[k].id == id);
                    }
                }
            }
            assert(r@ =~= ids_of(v@.take(i + 1)));
        }
        i = i + 1;
    }
    assert(v@.take(v@.len() as int) =~= v@);
    r
}

/// The strokes of `v` whose ids are not in `ids`, order kept.
fn strokes_without(v: &Vec<Stroke>, ids: &HashSet<u64>) -> (r: Vec<Stroke>)
    ensures
        r@ == without_ids(v@, ids@),
{
    let mut r: Vec<Stroke> = Vec::new();
    let mut i: usize = 0;
    assert(v@.take(0) =~= Seq::<Stroke>::empty());
    while i < v.len()
        invariant
            0 <= i <= v@.len(),
            r@ == without_ids(v@.take(i as int), ids@),
        decreases v@.len() - i,
    {
        proof {
            assert(v@.take(i + 1).drop_last() =~= v@.take(i as int));
            assert(v@.take(i + 1).last() == v@[i as int]);
        }
        if !ids.contains(&v[i].id) {
            r.push(v[i]);
        }
        i = i + 1;
    }
    assert(v@.take(v@.len() as int) =~= v@);
    r
}

/// `x` is a stroke of `s` whose flag in `f` is `flag`.
pub open spec fn flagged_in(s: Seq<Stroke>, f: Seq<bool>, x: Stroke, flag: bool) -> bool {
    exists|i: int| 0 <= i < s.len() && f[i] == flag && #[trigger] s[i] == x
}

/// Survivors are unflagged strokes of `s`.
pub(crate) proof fn lemma_survivors_from(s: Seq<Stroke>, f: Seq<bool>)
    requires
        f.len() == s.len(),
    ensures
        forall|k: int| 0 <= k < survivors(s, f).len() ==> flagged_in(s, f, #[trigger] survivors(s, f)[k], false),
    decreases s.len(),
{
    if s.len() > 0 {
        let s1 = s.drop_first();
        let f1 = f.drop_first();
        lemma_survivors_from(s1, f1);
        let rest = survivors(s1, f1);
        assert forall|k: int| 0 <= k < survivors(s, f).len() implies flagged_in(s, f, #[trigger] survivors(s, f)[k], false) by {
            let x = survivors(s, f)[k];
            if f[0] {
                assert(x == rest[k]);
                assert(flagged_in(s1, f1, rest[k], false));
                let i = choose|i: int| 0 <= i < s1.len() && f1[i] == false && #[trigger] s1[i] == rest[k];
                assert(s[i + 1] == x && f[i + 1] == false);
            } else if k == 0 {
                assert(s[0] == x);
            } else {
                assert(x == rest[k - 1]);
                assert(flagged_in(s1, f1, rest[k - 1], false));
                let i = choose|i: int| 0 <= i < s1.len() && f1[i] == false && #[trigger] s1[i] == rest[k - 1];
                assert(s[i + 1] == x && f[i + 1] == false);
            }
        }
    }
}

/// Casualties are flagged strokes of `s`.
pub(crate) proof fn lemma_casualties_from(s: Seq<Stroke>, f: Seq<bool>)
    requires
        f.len() == s.len(),
    ensures
        forall|k: int| 0 <= k < casualties(s, f).len() ==> flagged_in(s, f, #[trigger] casualties(s, f)[k], true),
    decreases s.len(),
{
    if s.len() > 0 {
        let s1 = s.drop_first();
        let f1 = f.drop_first();
        lemma_casualties_from(s1, f1);
        let rest = casualties(s1, f1);
        assert forall|k: int| 0 <= k < casualties(s, f).len() implies flagged_in(s, f, #[trigger] casualties(s, f)[k], true) by {
            let x = casualties(s, f)[k];
            if f[0] && k == rest.len() {
                assert(s[0] == x);
            } else {
                assert(x == rest[k]);
                assert(flagged_in(s1, f1, rest[k], true));
                let i = choose|i: int| 0 <= i < s1.len() && f1[i] == true && #[trigger] s1[i] == rest[k];
                assert(s[i + 1] == x && f[i + 1] == true);
            }
        }
    }
}

/// Erasing flagged strokes of a canvas with distinct ids keeps the index
/// covering the strokes that stay.
proof fn lemma_erase_keeps_cover(m: Map<(i32, i32), Set<u64>>, s: Seq<Stroke>, f: Seq<bool>)
    requires
        f.len() == s.len(),
    ensures
        covers(m, s) && distinct_ids(s) ==> covers(unindex_all(m, casualties(s, f)), survivors(s, f)),
{
    if covers(m, s) && distinct_ids(s) {
        lemma_survivors_from(s, f);
        lemma_casualties_from(s, f);
        let sv = survivors(s, f);
        let cs = casualties(s, f);
        assert forall|k: int| 0 <= k < sv.len() implies s.contains(#[trigger] sv[k]) by {
            assert(flagged_in(s, f, sv[k], false));
        }
        lemma_covers_sub(m, s, sv);
        assert forall|k: int| 0 <= k < sv.len() implies !ids_of(cs).contains(#[trigger] sv[k].id) by {
            assert(flagged_in(s, f, sv[k], false));
            let i = choose|i: int| 0 <= i < s.len() && f[i] == false && #[trigger] s[i] == sv[k];
            if ids_of(cs).contains(sv[k].id) {
                let j = choose|j: int| 0 <= j < cs.len() && #[trigger] cs[j].id == sv[k].id;
                assert(flagged_in(s, f, cs[j], true));
                let i2 = choose|i2: int| 0 <= i2 < s.len() && f[i2] == true && #[trigger] s[i2] == cs[j];
                assert(s[i].id == s[i2].id);
            }
        }
        lemma_covers_remove_all(m, sv, cs);
    }
}

proof fn lemma_erase_step(s: Seq<Stroke>, f: Seq<bool>, i: int)
    requires
        0 <= i < s.len(),
        f.len() == s.len(),
    ensures
        survivors(s.skip(i), f.skip(i)) == (if f[i] {
            survivors(s.skip(i + 1), f.skip(i + 1))
        } else {
            seq![s[i]] + survivors(s.skip(i + 1), f.skip(i + 1))
        }),
        casualties(s.skip(i), f.skip(i)) == (if f[i] {
            casualties(s.skip(i + 1), f.skip(i + 1)).push(s[i])
        } else {
            casualties(s.skip(i + 1), f.skip(i + 1))
        }),
{
    assert(s.skip(i).drop_first() =~= s.skip(i + 1));
    assert(f.skip(i).drop_first() =~= f.skip(i + 1));
    assert(s.skip(i)[0] == s[i]);
    assert(f.skip(i)[0] == f[i]);
}

/// The largest id in `s`, or 0 when `s` is empty.
pub open spec fn max_id(s: Seq<Stroke>) -> u64
    decreases s.len(),
{
    if s.len() == 0 {
        0
    } else if max_id(s.drop_last()) < s.last().id {
        s.last().id
    } else {
        max_id(s.drop_last())
    }
}

/// A drawn stroke `a` can be undone without losing index coverage of the
/// rest of the canvas: no stroke below the top one shares its id.
pub open spec fn undo_keeps_cover(strokes: Seq<Stroke>, a: Action) -> bool {
    match a {
        Action::Draw(s) => forall|k: int| 0 <= k < strokes.len() - 1 ==> #[trigger] strokes[k].id != s.id,
        _ => true,
    }
}

/// What `end_stroke` does: without a stroke being drawn nothing changes;
/// otherwise the stroke goes on top of the canvas and into the index, becomes
/// the newest undoable edit, and the redo history is emptied.
pub open spec fn end_stroke_spec(old: AppState, new: AppState, cells: CellRange) -> bool {
    match old.current_stroke {
        None => new == old,
        Some(id) => {
            let s = Stroke { id, cells };
            &&& new.current_stroke is None
            &&& new.strokes@ == old.strokes@.push(s)
            &&& new.spatial_index@ == add_to_cells(old.spatial_index@, id, range_cells(cells))
            &&& new.history@ == keep_newest(old.history@.push(Action::Draw(s)), old.max_undo_steps)
            &&& new.redo_history@.len() == 0
            &&& new.needs_full_redraw == old.needs_full_redraw
            &&& new.next_stroke_id == old.next_stroke_id
            &&& new.current_erased@ == old.current_erased@
            &&& new.is_erasing == old.is_erasing
            &&& new.active_button == old.active_button
            &&& new.erase_mode == old.erase_mode
            &&& new.max_undo_steps == old.max_undo_steps
            &&& new.rendered_strokes_count == old.rendered_strokes_count
        },
    }
}

/// What `erase_at` does: the strokes that the index lists in `query` and
/// that are hit leave the canvas and the index, top first, and join the
/// gesture's erased strokes; nothing else changes but the redraw flag.
pub open spec fn erase_spec(old: AppState, new: AppState, query: CellRange, hits: Seq<bool>, erased: bool) -> bool {
    &&& ({
        let f = erase_flags(old.strokes@, ids_in_range(old.spatial_index@, query), hits);
        let gone = casualties(old.strokes@, f);
        &&& new.strokes@ == survivors(old.strokes@, f)
        &&& new.current_erased@ == old.current_erased@ + gone
        &&& new.spatial_index@ == unindex_all(old.spatial_index@, gone)
        &&& erased == (gone.len() > 0)
    })
    &&& new.needs_full_redraw == (old.needs_full_redraw || erased)
    &&& new.history@ == old.history@
    &&& new.redo_history@ == old.redo_history@
    &&& new.next_stroke_id == old.next_stroke_id
    &&& new.current_stroke == old.current_stroke
    &&& new.is_erasing == old.is_erasing
    &&& new.active_button == old.active_button
    &&& new.erase_mode == old.erase_mode
    &&& new.max_undo_steps == old.max_undo_steps
    &&& new.rendered_strokes_count == old.rendered_strokes_count
}

/// What `clear_canvas` does: an empty canvas stays as it is; otherwise the
/// strokes leave the canvas (not the index) as one undoable edit and the redo
/// history is emptied.
pub open spec fn clear_spec(old: AppState, new: AppState, cleared: bool) -> bool {
    &&& cleared == (old.strokes@.len() > 0)
    &&& !cleared ==> new == old
    &&& cleared ==> {
        &&& new.strokes@ == Seq::<Stroke>::empty()
        &&& new.history@ == keep_newest(old.history@.push(Action::Clear(old.strokes)), old.max_undo_steps)
        &&& new.redo_history@.len() == 0
        &&& new.spatial_index@ == old.spatial_index@
        &&& new.needs_full_redraw
        &&& same_tools(new, old)
    }
}

/// What `load_strokes` does: the canvas becomes the loaded strokes, the
/// histories are emptied, the index is rebuilt, and the next id follows the
/// largest loaded id.
pub open spec fn load_spec(old: AppState, new: AppState, strokes: Seq<Stroke>) -> bool {
    &&& new.strokes@ == strokes
    &&& new.next_stroke_id == max_id(strokes) + 1
    &&& new.history@.len() == 0
    &&& new.redo_history@.len() == 0
    &&& new.spatial_index@ == index_all(Map::<(i32, i32), Set<u64>>::empty(), strokes)
    &&& new.needs_full_redraw
    &&& new.current_stroke == old.current_stroke
    &&& new.current_erased@ == old.current_erased@
    &&& new.is_erasing == old.is_erasing
    &&& new.active_button == old.active_button
    &&& new.erase_mode == old.erase_mode
    &&& new.max_undo_steps == old.max_undo_steps
    &&& new.rendered_strokes_count == old.rendered_strokes_count
}

impl AppState {
    /// The spatial index records every stroke of the canvas at every cell of
    /// its range.
    pub open spec fn index_covers(self) -> bool {
        covers(self.spatial_index@, self.strokes@)
    }

    /// A fresh state: no strokes, empty histories, pixel erasing, and a full
    /// redraw pending. Each history keeps at most `max_undo_steps` edits.
    pub fn new(max_undo_steps: usize) -> (s: Self)
        ensures
            s.next_stroke_id == 0,
            s.strokes@ == Seq::<Stroke>::empty(),
            s.history@.len() == 0,
            s.redo_history@.len() == 0,
            s.current_stroke is None,
            s.current_erased@ == Seq::<Stroke>::empty(),
            !s.is_erasing,
            s.active_button == 0,
            s.erase_mode == EraseMode::Pixel,
            s.spatial_index@ == Map::<(i32, i32), Set<u64>>::empty(),
            s.max_undo_steps == max_undo_steps,
            s.rendered_strokes_count == 0,
            s.needs_full_redraw,
            coherent(s),
    {
        AppState {
            next_stroke_id: 0,
            strokes: Vec::new(),
            history: Vec::new(),
            redo_history: Vec::new(),
            current_stroke: None,
            current_erased: Vec::new(),
            is_erasing: false,
            active_button: 0,
            erase_mode: EraseMode::Pixel,
            spatial_index: SpatialIndex::new(),
            max_undo_steps,
            rendered_strokes_count: 0,
            needs_full_redraw: true,
        }
    }

    /// Drops the oldest edits of each history beyond `max_undo_steps`.
    pub fn cap_history(&mut self)
        ensures
            final(self).history@ == keep_newest(old(self).history@, old(self).max_undo_steps),
            final(self).redo_history@ == keep_newest(old(self).redo_history@, old(self).max_undo_steps),
            final(self).strokes@ == old(self).strokes@,
            final(self).spatial_index@ == old(self).spatial_index@,
            final(self).needs_full_redraw == old(self).needs_full_redraw,
            same_tools(*final(self), *old(self)),
            coherent(*old(self)) ==> coherent(*final(self)),
    {
        let limit = self.max_undo_steps;
        if self.history.len() > limit {
            let overflow = self.history.len() - limit;
            self.history = self.history.split_off(overflow);
        }
        if self.redo_history.len() > limit {
            let overflow = self.redo_history.len() - limit;
            self.redo_history = self.redo_history.split_off(overflow);
        }
    }

    /// Begins a new stroke: gives it the next id and leaves any eraser
    /// gesture. Returns the stroke's id.
    pub fn start_stroke(&mut self) -> (id: u64)
        requires
            old(self).next_stroke_id < u64::MAX,
        ensures
            id == old(self).next_stroke_id,
            final(self).next_stroke_id == old(self).next_stroke_id + 1,
            final(self).current_stroke == Some(id),
            !final(self).is_erasing,
            final(self).strokes@ == old(self).strokes@,
            final(self).history@ == old(self).history@,
            final(self).redo_history@ == old(self).redo_history@,
            final(self).spatial_index@ == old(self).spatial_index@,
            final(self).current_erased@ == old(self).current_erased@,
            final(self).active_button == old(self).active_button,
            final(self).erase_mode == old(self).erase_mode,
            final(self).max_undo_steps == old(self).max_undo_steps,
            final(self).rendered_strokes_count == old(self).rendered_strokes_count,
            final(self).needs_full_redraw == old(self).needs_full_redraw,
            coherent(*old(self)) && old(self).current_erased@.len() == 0 ==> coherent(*final(self)),
    {
        proof {
            if coherent(*old(self)) && old(self).current_erased@.len() == 0 {
                lemma_raise_bound(*old(self), id_bound(*old(self)), old(self).next_stroke_id);
                assert(old(self).current_erased@.to_set() =~= Set::<Stroke>::empty());
            }
        }
        self.is_erasing = false;
        let id = self.next_stroke_id;
        self.next_stroke_id = self.next_stroke_id + 1;
        self.current_stroke = Some(id);
        id
    }

    /// Finishes the stroke being drawn, if any: it goes on top of the canvas
    /// and into the index under `cells` (the cells its bounding box covers),
    /// becomes undoable, and clears the redo history.
    pub fn end_stroke(&mut self, cells: CellRange)
        ensures
            end_stroke_spec(*old(self), *final(self), cells),
            old(self).index_covers() ==> final(self).index_covers(),
    {
        proof {
            if let Some(id) = old(self).current_stroke {
                if covers(old(self).spatial_index@, old(self).strokes@) {
                    lemma_covers_add(old(self).spatial_index@, old(self).strokes@, Stroke { id, cells });
                }
            }
        }
        match self.current_stroke.take() {
            Some(id) => {
                let s = Stroke { id, cells };
                self.spatial_index.insert(id, &cells);
                self.history.push(Action::Draw(s));
                self.strokes.push(s);
                self.redo_history.clear();
                self.cap_history();
            },
            None => {},
        }
    }

    /// Undoes the newest edit, if any, and makes it redoable. Returns whether
    /// there was one.
    pub fn undo(&mut self) -> (done: bool)
        ensures
            undo_spec(*old(self), *final(self), done),
            old(self).index_covers() && (done ==> undo_keeps_cover(old(self).strokes@, old(self).history@.last()))
                ==> final(self).index_covers(),
    {
        if self.history.len() == 0 {
            return false;
        }
        match self.history.pop() {
            Some(action) => {
                match action {
                    Action::Draw(stroke) => {
                        let ghost m0 = self.spatial_index@;
                        let ghost s0 = self.strokes@;
                        self.spatial_index.remove(stroke.id, &stroke.cells);
                        self.strokes.pop();
                        self.redo_history.push(Action::Draw(stroke));
                        proof {
                            if covers(m0, s0) && undo_keeps_cover(s0, Action::Draw(stroke)) && s0.len() > 0 {
                                lemma_covers_sub(m0, s0, s0.drop_last());
                                assert forall|k: int| 0 <= k < s0.drop_last().len() implies #[trigger] s0.drop_last()[k].id != stroke.id by {
                                    assert(s0[k] == s0.drop_last()[k]);
                                }
                                lemma_covers_remove(m0, s0.drop_last(), stroke.id, range_cells(stroke.cells));
                            }
                        }
                    },
                    Action::Erase(erased) => {
                        let ghost m0 = self.spatial_index@;
                        let ghost s0 = self.strokes@;
                        proof {
                            if covers(m0, s0) {
                                lemma_covers_add_all(m0, s0, erased@);
                            }
                            lemma_sort_members(s0 + erased@);
                        }
                        index_strokes(&mut self.spatial_index, &erased);
                        let mut all = copy_strokes(&self.strokes);
                        let mut extra = copy_strokes(&erased);
                        all.append(&mut extra);
                        self.strokes = sorted_by_id(&all);
                        proof {
                            if covers(m0, s0) {
                                lemma_covers_sub(self.spatial_index@, s0 + erased@, self.strokes@);
                            }
                        }
                        self.redo_history.push(Action::Erase(erased));
                    },
                    Action::Clear(saved) => {
                        proof {
                            lemma_covers_add_all(self.spatial_index@, Seq::<Stroke>::empty(), saved@);
                            assert(Seq::<Stroke>::empty() + saved@ =~= saved@);
                        }
                        index_strokes(&mut self.spatial_index, &saved);
                        self.strokes = copy_strokes(&saved);
                        self.redo_history.push(Action::Clear(saved));
                    },
                }
                self.cap_history();
                self.needs_full_redraw = true;
                true
            },
            None => false,
        }
    }

    /// Redoes the newest undone edit, if any, and makes it undoable again.
    /// Returns whether there was one.
    pub fn redo(&mut self) -> (done: bool)
        ensures
            redo_spec(*old(self), *final(self), done),
            old(self).index_covers() ==> final(self).index_covers(),
    {
        if self.redo_history.len() == 0 {
            return false;
        }
        match self.redo_history.pop() {
            Some(action) => {
                match action {
                    Action::Draw(stroke) => {
                        proof {
                            if covers(self.spatial_index@, self.strokes@) {
                                lemma_covers_add(self.spatial_index@, self.strokes@, stroke);
                            }
                        }
                        self.spatial_index.insert(stroke.id, &stroke.cells);
                        self.strokes.push(stroke);
                        self.history.push(Action::Draw(stroke));
                    },
                    Action::Erase(erased) => {
                        let erased_ids = id_set(&erased);
                        let ghost m0 = self.spatial_index@;
                        let ghost s0 = self.strokes@;
                        let ghost w = without_ids(s0, ids_of(erased@));
                        proof {
                            lemma_without_subset(s0, ids_of(erased@));
                            if covers(m0, s0) {
                                lemma_covers_sub(m0, s0, w);
                                lemma_covers_remove_all(m0, w, erased@);
                            }
                        }
                        unindex_strokes(&mut self.spatial_index, &erased);
                        self.strokes = strokes_without(&self.strokes, &erased_ids);
                        self.history.push(Action::Erase(erased));
                    },
                    Action::Clear(saved) => {
                        self.spatial_index.clear();
                        self.strokes.clear();
                        self.history.push(Action::Clear(saved));
                    },
                }
                self.cap_history();
                self.needs_full_redraw = true;
                true
            },
            None => false,
        }
    }
}

impl AppState {
    /// One touch of the vector eraser. `query` is the range of cells that the
    /// eraser's square covers, and `hits[i]` says whether the eraser reaches
    /// the ink of stroke `i`. Scanning from the top of the canvas, every
    /// stroke that the index lists in `query` and that is hit is removed:
    /// it leaves the canvas and the index and joins the gesture's erased
    /// strokes. Returns whether any stroke was removed.
    pub fn erase_at(&mut self, query: &CellRange, hits: &Vec<bool>) -> (erased: bool)
        requires
            hits@.len() == old(self).strokes@.len(),
        ensures
            erase_spec(*old(self), *final(self), *query, hits@, erased),
            old(self).index_covers() && distinct_ids(old(self).strokes@) ==> final(self).index_covers(),
    {
        let candidates = self.spatial_index.query(query);
        let ghost s0 = self.strokes@;
        let ghost f = erase_flags(s0, candidates@, hits@);
        proof {
            lemma_erase_keeps_cover(self.spatial_index@, s0, f);
        }
        if candidates.is_empty() {
            proof {
                lemma_no_flags(s0, f);
            }
            return false;
        }
        let ghost e0 = self.current_erased@;
        let ghost m0 = self.spatial_index@;
        let ghost h0 = self.history@;
        let ghost r0 = self.redo_history@;
        let ghost nf0 = self.needs_full_redraw;
        let mut erased_any = false;
        let mut i: usize = self.strokes.len();
        proof {
            assert(s0.take(s0.len() as int) =~= s0);
            assert(s0.skip(s0.len() as int) =~= Seq::<Stroke>::empty());
            assert(f.skip(s0.len() as int) =~= Seq::<bool>::empty());
            assert(s0 + Seq::<Stroke>::empty() =~= s0);
            assert(e0 + Seq::<Stroke>::empty() =~= e0);
        }
        while i > 0
            invariant
                0 <= i <= s0.len(),
                hits@.len() == s0.len(),
                f == erase_flags(s0, candidates@, hits@),
                self.strokes@ == s0.take(i as int) + survivors(s0.skip(i as int), f.skip(i as int)),
                self.current_erased@ == e0 + casualties(s0.skip(i as int), f.skip(i as int)),
                self.spatial_index@ == unindex_all(m0, casualties(s0.skip(i as int), f.skip(i as int))),
                erased_any == (casualties(s0.skip(i as int), f.skip(i as int)).len() > 0),
                self.needs_full_redraw == (nf0 || erased_any),
                self.history@ == h0,
                self.redo_history@ == r0,
                self.next_stroke_id == old(self).next_stroke_id,
                self.current_stroke == old(self).current_stroke,
                self.is_erasing == old(self).is_erasing,
                self.active_button == old(self).active_button,
                self.erase_mode == old(self).erase_mode,
                self.max_undo_steps == old(self).max_undo_steps,
                self.rendered_strokes_count == old(self).rendered_strokes_count,
            decreases i,
        {
            i = i - 1;
            proof {
                lemma_erase_step(s0, f, i as int);
                assert(self.strokes@[i as int] == s0[i as int]);
            }
            let id = self.strokes[i].id;
            if candidates.contains(&id) && hits[i] {
                assert(f[i as int]);
                let ghost before = self.strokes@;
                let removed = self.strokes.remove(i);
                self.spatial_index.remove(removed.id, &removed.cells);
                self.current_erased.push(removed);
                erased_any = true;
                self.needs_full_redraw = true;
                proof {
                    assert(self.strokes@ =~= s0.take(i as int) + survivors(s0.skip(i as int), f.skip(i as int)));
                    let g = casualties(s0.skip(i as int), f.skip(i as int));
                    assert(g.drop_last() =~= casualties(s0.skip(i + 1), f.skip(i + 1)));
                    assert(self.current_erased@ =~= e0 + g);
                }
            } else {
                assert(!f[i as int]);
                proof {
                    assert(self.strokes@ =~= s0.take(i as int) + survivors(s0.skip(i as int), f.skip(i as int)));
                }
            }
        }
        proof {
            assert(s0.take(0) + survivors(s0.skip(0), f.skip(0)) =~= survivors(s0, f)) by {
                assert(s0.skip(0) =~= s0);
                assert(f.skip(0) =~= f);
            }
            assert(s0.skip(0) =~= s0);
            assert(f.skip(0) =~= f);
        }
        erased_any
    }

    /// Clears the canvas as one undoable edit, if it holds any stroke. The
    /// index is left as it is. Returns whether anything was cleared.
    pub fn clear_canvas(&mut self) -> (cleared: bool)
        ensures
            clear_spec(*old(self), *final(self), cleared),
            old(self).index_covers() ==> final(self).index_covers(),
    {
        if self.strokes.len() == 0 {
            return false;
        }
        let mut taken: Vec<Stroke> = Vec::new();
        std::mem::swap(&mut taken, &mut self.strokes);
        self.history.push(Action::Clear(taken));
        self.redo_history.clear();
        self.cap_history();
        self.needs_full_redraw = true;
        true
    }

    /// Replaces the canvas with loaded strokes: the histories are emptied,
    /// the index is rebuilt from the strokes, the next id follows the largest
    /// loaded id, and a full redraw is requested.
    pub fn load_strokes(&mut self, strokes: Vec<Stroke>)
        requires
            forall|i: int| 0 <= i < strokes@.len() ==> #[trigger] strokes@[i].id < u64::MAX,
        ensures
            load_spec(*old(self), *final(self), strokes@),
            final(self).index_covers(),
    {
        let mut max: u64 = 0;
        let mut i: usize = 0;
        assert(strokes@.take(0) =~= Seq::<Stroke>::empty());
        while i < strokes.len()
            invariant
                0 <= i <= strokes@.len(),
                max == max_id(strokes@.take(i as int)),
                max < u64::MAX,
                forall|k: int| 0 <= k < strokes@.len() ==> #[trigger] strokes@[k].id < u64::MAX,
            decreases strokes@.len() - i,
        {
            proof {
                assert(strokes@.take(i + 1).drop_last() =~= strokes@.take(i as int));
                assert(strokes@.take(i + 1).last() == strokes@[i as int]);
            }
            if max < strokes[i].id {
                max = strokes[i].id;
            }
            i = i + 1;
        }
        assert(strokes@.take(strokes@.len() as int) =~= strokes@);
        self.strokes = strokes;
        self.next_stroke_id = max + 1;
        self.history.clear();
        self.redo_history.clear();
        self.needs_full_redraw = true;
        self.spatial_index.clear();
        proof {
            lemma_covers_add_all(self.spatial_index@, Seq::<Stroke>::empty(), self.strokes@);
            assert(Seq::<Stroke>::empty() + self.strokes@ =~= self.strokes@);
        }
        index_strokes(&mut self.spatial_index, &self.strokes);
    }
}

} // verus!
