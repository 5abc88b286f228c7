use vstd::prelude::*;
use crate::state::app_state::AppState;
use crate::state::coherence::coherent;

verus! {

/// How the cached rendering of the canvas is brought up to date.
#[derive(Clone, Copy, PartialEq, Eq, Debug, Structural)]
pub enum RedrawPlan {
    /// Render every stroke into a fresh cache.
    Rebuild,
    /// Render the strokes from this index on into the existing cache.
    AppendFrom(usize),
    /// The cache already shows every stroke.
    Reuse,
}

/// What `plan_redraw` does: without a fitting cache, or when a full redraw is
/// pending, the cache is rebuilt; otherwise the strokes added since the last
/// redraw are appended, or the cache is reused. Afterwards the cache shows
/// every stroke, no full redraw is pending (unless nothing was redrawn), and
/// nothing else changes.
pub open spec fn redraw_spec(old: AppState, new: AppState, cache_fits: bool, plan: RedrawPlan) -> bool {
    &&& (!cache_fits || old.needs_full_redraw) ==> {
        &&& plan == RedrawPlan::Rebuild
        &&& new.rendered_strokes_count == old.strokes@.len()
        &&& !new.needs_full_redraw
    }
    &&& (cache_fits && !old.needs_full_redraw && old.strokes@.len() > old.rendered_strokes_count) ==> {
        &&& plan == RedrawPlan::AppendFrom(old.rendered_strokes_count)
        &&& new.rendered_strokes_count == old.strokes@.len()
        &&& new.needs_full_redraw == old.needs_full_redraw
    }
    &&& (cache_fits && !old.needs_full_redraw && old.strokes@.len() <= old.rendered_strokes_count) ==> {
        &&& plan == RedrawPlan::Reuse
        &&& new.rendered_strokes_count == old.rendered_strokes_count
        &&& new.needs_full_redraw == old.needs_full_redraw
    }
    &&& new.strokes == old.strokes
    &&& new.history == old.history
    &&& new.redo_history == old.redo_history
    &&& new.spatial_index == old.spatial_index
    &&& new.next_stroke_id == old.next_stroke_id
    &&& new.current_stroke == old.current_stroke
    &&& new.current_erased == old.current_erased
    &&& new.is_erasing == old.is_erasing
    &&& new.active_button == old.active_button
    &&& new.erase_mode == old.erase_mode
    &&& new.max_undo_steps == old.max_undo_steps
}

impl AppState {
    /// Asks for the cached rendering to be rebuilt at the next redraw (after
    /// a change of view or background). Nothing else changes.
    pub fn request_full_redraw(&mut self)
        ensures
            final(self).needs_full_redraw,
            final(self).strokes == old(self).strokes,
            final(self).history == old(self).history,
            final(self).redo_history == old(self).redo_history,
            final(self).spatial_index == old(self).spatial_index,
            final(self).next_stroke_id == old(self).next_stroke_id,
            final(self).current_stroke == old(self).current_stroke,
            final(self).current_erased == old(self).current_erased,
            final(self).is_erasing == old(self).is_erasing,
            final(self).active_button == old(self).active_button,
            final(self).erase_mode == old(self).erase_mode,
            final(self).max_undo_steps == old(self).max_undo_steps,
            final(self).rendered_strokes_count == old(self).rendered_strokes_count,
            coherent(*old(self)) ==> coherent(*final(self)),
    {
        self.needs_full_redraw = true;
    }

    /// Decides how to refresh the cached rendering and records that it will
    /// show every stroke. `cache_fits` says that a cache exists and has the
    /// size of the drawing area.
    pub fn plan_redraw(&mut self, cache_fits: bool) -> (plan: RedrawPlan)
        ensures
            redraw_spec(*old(self), *final(self), cache_fits, plan),
            coherent(*old(self)) ==> coherent(*final(self)),
    {
        if !cache_fits || self.needs_full_redraw {
            self.rendered_strokes_count = self.strokes.len();
            self.needs_full_redraw = false;
            RedrawPlan::Rebuild
        } else if self.strokes.len() > self.rendered_strokes_count {
            let from = self.rendered_strokes_count;
            self.rendered_strokes_count = self.strokes.len();
            RedrawPlan::AppendFrom(from)
        } else {
            RedrawPlan::Reuse
        }
    }
}

} // verus!
