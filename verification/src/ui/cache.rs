use vstd::prelude::*;
use crate::state::app_state::{
    AppState, end_stroke_spec, erase_spec, clear_spec, load_spec, undo_spec, redo_spec, erase_flags,
    survivors, casualties,
};
use crate::state::geometry::CellRange;
use crate::state::history::Stroke;
use crate::events::pointer::{press_spec, release_spec, PressOutcome, ReleaseOutcome};
use crate::ui::canvas::{RedrawPlan, redraw_spec};

verus! {

/// The cached rendering, which shows the strokes `shown` drawn in order, is
/// usable as it is: unless a full redraw is pending, it shows exactly the
/// first `rendered_strokes_count` strokes of the canvas.
pub open spec fn cache_matches(st: AppState, shown: Seq<Stroke>) -> bool {
    !st.needs_full_redraw ==> {
        &&& st.rendered_strokes_count <= st.strokes@.len()
        &&& shown == st.strokes@.take(st.rendered_strokes_count as int)
    }
}

/// What the cache shows after carrying out `plan` on a canvas holding `strokes`.
pub open spec fn shown_after(shown: Seq<Stroke>, strokes: Seq<Stroke>, plan: RedrawPlan) -> Seq<Stroke> {
    match plan {
        RedrawPlan::Rebuild => strokes,
        RedrawPlan::AppendFrom(i) => shown + strokes.skip(i as int),
        RedrawPlan::Reuse => shown,
    }
}

/// Carrying out the redraw plan on a usable cache makes it show exactly the
/// canvas, and leaves it usable.
pub proof fn law_redraw_shows_canvas(
    s0: AppState,
    s1: AppState,
    cache_fits: bool,
    plan: RedrawPlan,
    shown: Seq<Stroke>,
)
    requires
        cache_matches(s0, shown),
        redraw_spec(s0, s1, cache_fits, plan),
    ensures
        shown_after(shown, s0.strokes@, plan) == s1.strokes@,
        cache_matches(s1, shown_after(shown, s0.strokes@, plan)),
{
    let st = s0.strokes@;
    if cache_fits && !s0.needs_full_redraw {
        let n = s0.rendered_strokes_count as int;
        if st.len() > n {
            assert(st.take(n) + st.skip(n) =~= st);
        } else {
            assert(st.take(n) =~= st);
        }
    }
    assert(s1.strokes@.take(s1.rendered_strokes_count as int) =~= s1.strokes@) by {
        if !s1.needs_full_redraw {
            assert(s1.rendered_strokes_count == st.len());
        }
    }
}

/// A stroke added on top of the canvas keeps a usable cache usable.
proof fn lemma_push_keeps_cache(s0: AppState, s1: AppState, x: Stroke, shown: Seq<Stroke>)
    requires
        cache_matches(s0, shown),
        s1.strokes@ == s0.strokes@.push(x),
        s1.rendered_strokes_count == s0.rendered_strokes_count,
        s1.needs_full_redraw == s0.needs_full_redraw,
    ensures
        cache_matches(s1, shown),
{
    if !s0.needs_full_redraw {
        assert(s1.strokes@.take(s0.rendered_strokes_count as int) =~= s0.strokes@.take(s0.rendered_strokes_count as int));
    }
}

/// Finishing a stroke keeps a usable cache usable.
pub proof fn law_end_stroke_keeps_cache(s0: AppState, s1: AppState, cells: CellRange, shown: Seq<Stroke>)
    requires
        cache_matches(s0, shown),
        end_stroke_spec(s0, s1, cells),
    ensures
        cache_matches(s1, shown),
{
    if let Some(id) = s0.current_stroke {
        lemma_push_keeps_cache(s0, s1, Stroke { id, cells }, shown);
    }
}

/// A stylus press keeps a usable cache usable.
pub proof fn law_stylus_down_keeps_cache(
    s0: AppState,
    s1: AppState,
    button: u32,
    menu_held: bool,
    eraser_held: bool,
    r: PressOutcome,
    shown: Seq<Stroke>,
)
    requires
        cache_matches(s0, shown),
        press_spec(s0, s1, button, menu_held, eraser_held, r),
    ensures
        cache_matches(s1, shown),
{
}

/// A stylus release keeps a usable cache usable.
pub proof fn law_stylus_up_keeps_cache(
    s0: AppState,
    s1: AppState,
    released_button: u32,
    cells: CellRange,
    r: ReleaseOutcome,
    shown: Seq<Stroke>,
)
    requires
        cache_matches(s0, shown),
        release_spec(s0, s1, released_button, cells, r),
    ensures
        cache_matches(s1, shown),
{
    if r == ReleaseOutcome::StrokeEnded {
        lemma_push_keeps_cache(s0, s1, Stroke { id: s0.current_stroke->0, cells }, shown);
    }
}

/// An eraser touch that removes nothing keeps every stroke.
proof fn lemma_nothing_removed(s: Seq<Stroke>, f: Seq<bool>)
    requires
        f.len() == s.len(),
        casualties(s, f).len() == 0,
    ensures
        survivors(s, f) == s,
    decreases s.len(),
{
    if s.len() > 0 {
        lemma_nothing_removed(s.drop_first(), f.drop_first());
        assert(seq![s[0]] + s.drop_first() =~= s);
    }
}

/// An eraser touch keeps a usable cache usable: it either removes nothing
/// or asks for a full redraw.
pub proof fn law_erase_at_keeps_cache(
    s0: AppState,
    s1: AppState,
    query: CellRange,
    hits: Seq<bool>,
    erased: bool,
    shown: Seq<Stroke>,
)
    requires
        cache_matches(s0, shown),
        erase_spec(s0, s1, query, hits, erased),
    ensures
        cache_matches(s1, shown),
{
    if !erased {
        let f = erase_flags(s0.strokes@, crate::state::geometry::ids_in_range(s0.spatial_index@, query), hits);
        lemma_nothing_removed(s0.strokes@, f);
    }
}

/// Undo asks for a full redraw whenever it changes anything.
pub proof fn law_undo_keeps_cache(s0: AppState, s1: AppState, done: bool, shown: Seq<Stroke>)
    requires
        cache_matches(s0, shown),
        undo_spec(s0, s1, done),
    ensures
        cache_matches(s1, shown),
{
}

/// Redo asks for a full redraw whenever it changes anything.
pub proof fn law_redo_keeps_cache(s0: AppState, s1: AppState, done: bool, shown: Seq<Stroke>)
    requires
        cache_matches(s0, shown),
        redo_spec(s0, s1, done),
    ensures
        cache_matches(s1, shown),
{
}

/// Clearing asks for a full redraw whenever it changes anything.
pub proof fn law_clear_keeps_cache(s0: AppState, s1: AppState, cleared: bool, shown: Seq<Stroke>)
    requires
        cache_matches(s0, shown),
        clear_spec(s0, s1, cleared),
    ensures
        cache_matches(s1, shown),
{
}

/// Loading strokes asks for a full redraw.
pub proof fn law_load_keeps_cache(s0: AppState, s1: AppState, strokes: Seq<Stroke>, shown: Seq<Stroke>)
    requires
        load_spec(s0, s1, strokes),
    ensures
        cache_matches(s1, shown),
{
}

} // verus!
