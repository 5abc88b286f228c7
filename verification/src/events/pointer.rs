use vstd::prelude::*;
use crate::state::geometry::{CellRange, EraseMode, add_to_cells, range_cells};
use crate::state::history::{Action, Stroke, keep_newest};
use crate::state::app_state::AppState;

verus! {

/// What a stylus press starts.
#[derive(Clone, Copy, PartialEq, Eq, Debug, Structural)]
pub enum PressOutcome {
    /// The menu button was pressed: show the context menu.
    OpenMenu,
    /// A gesture is already under way; the press is ignored.
    Ignored,
    /// A vector-eraser gesture begins; erase under the tip if it touches.
    StartErasing,
    /// A stroke with this id begins; `eraser` says whether it is drawn with
    /// the eraser (as ink that removes ink).
    StartStroke { id: u64, eraser: bool },
}

/// What a stylus motion should do.
#[derive(Clone, Copy, PartialEq, Eq, Debug, Structural)]
pub enum MotionOutcome {
    /// Erase under the tip (if it touches).
    Erase,
    /// Add the point to the stroke being drawn.
    Extend,
    /// Nothing is under way.
    Idle,
}

/// What a stylus release finished.
#[derive(Clone, Copy, PartialEq, Eq, Debug, Structural)]
pub enum ReleaseOutcome {
    /// Another button than the one that started the gesture was released.
    Ignored,
    /// The eraser gesture ended (and its strokes became one undoable edit).
    ErasingEnded,
    /// The stroke being drawn was finished.
    StrokeEnded,
    /// Nothing was under way.
    Idle,
}

/// A press with `button` would start a stroke: it is no menu press, no
/// gesture is under way, and it is not an eraser press in vector mode.
pub open spec fn press_starts_stroke(st: AppState, button: u32, menu_held: bool, eraser_held: bool) -> bool {
    &&& !(button == 3 || menu_held)
    &&& st.current_stroke is None
    &&& !st.is_erasing
    &&& !((button == 2 || eraser_held) && st.erase_mode == EraseMode::Vector)
}

/// What a stylus press does: the menu button cancels any gesture; a press
/// during a gesture is ignored; otherwise the eraser (in vector mode) starts
/// an eraser gesture and anything else starts a stroke with the next id.
pub open spec fn press_spec(old: AppState, new: AppState, button: u32, menu_held: bool, eraser_held: bool, r: PressOutcome) -> bool {
    &&& new.strokes@ == old.strokes@
    &&& new.history@ == old.history@
    &&& new.redo_history@ == old.redo_history@
    &&& new.spatial_index@ == old.spatial_index@
    &&& new.max_undo_steps == old.max_undo_steps
    &&& new.rendered_strokes_count == old.rendered_strokes_count
    &&& new.needs_full_redraw == old.needs_full_redraw
    &&& new.erase_mode == old.erase_mode
    &&& (button == 3 || menu_held) ==> {
            &&& r == PressOutcome::OpenMenu
            &&& !new.is_erasing
            &&& new.active_button == 0
            &&& new.current_stroke is None
            &&& new.next_stroke_id == old.next_stroke_id
            &&& new.current_erased@ == old.current_erased@
        }
    &&& !(button == 3 || menu_held) && (old.current_stroke is Some || old.is_erasing) ==> {
            &&& r == PressOutcome::Ignored
            &&& new.is_erasing == old.is_erasing
            &&& new.active_button == old.active_button
            &&& new.current_stroke == old.current_stroke
            &&& new.next_stroke_id == old.next_stroke_id
            &&& new.current_erased@ == old.current_erased@
        }
    &&& !(button == 3 || menu_held) && old.current_stroke is None && !old.is_erasing ==> {
            let eraser = button == 2 || eraser_held;
            &&& new.active_button == button
            &&& if eraser && old.erase_mode == EraseMode::Vector {
                &&& r == PressOutcome::StartErasing
                &&& new.is_erasing
                &&& new.current_erased@ == Seq::<Stroke>::empty()
                &&& new.current_stroke is None
                &&& new.next_stroke_id == old.next_stroke_id
            } else {
                &&& r == (PressOutcome::StartStroke { id: old.next_stroke_id, eraser })
                &&& !new.is_erasing
                &&& new.current_erased@ == old.current_erased@
                &&& new.current_stroke == Some(old.next_stroke_id)
                &&& new.next_stroke_id == old.next_stroke_id + 1
            }
        }
}

/// What a stylus release does: a release of another button than the one
/// that started the gesture changes nothing; otherwise an eraser gesture ends
/// (its erased strokes become one undoable edit) or the stroke being drawn
/// is finished.
pub open spec fn release_spec(old: AppState, new: AppState, released_button: u32, cells: CellRange, r: ReleaseOutcome) -> bool {
    &&& old.active_button != 0 && released_button != 0 && old.active_button != released_button ==> {
            &&& r == ReleaseOutcome::Ignored
            &&& new == old
        }
    &&& !(old.active_button != 0 && released_button != 0 && old.active_button != released_button) ==> {
            &&& new.active_button == 0
            &&& new.erase_mode == old.erase_mode
            &&& new.next_stroke_id == old.next_stroke_id
            &&& new.max_undo_steps == old.max_undo_steps
            &&& new.rendered_strokes_count == old.rendered_strokes_count
            &&& new.needs_full_redraw == old.needs_full_redraw
            &&& if old.is_erasing {
                &&& r == ReleaseOutcome::ErasingEnded
                &&& !new.is_erasing
                &&& new.strokes@ == old.strokes@
                &&& new.spatial_index@ == old.spatial_index@
                &&& new.current_stroke == old.current_stroke
                &&& new.current_erased@.len() == 0
                &&& if old.current_erased@.len() > 0 {
                    &&& new.history@ == keep_newest(
                        old.history@.push(Action::Erase(old.current_erased)),
                        old.max_undo_steps,
                    )
                    &&& new.redo_history@.len() == 0
                } else {
                    &&& new.history@ == old.history@
                    &&& new.redo_history@ == old.redo_history@
                }
            } else if old.current_stroke is Some {
                let s = Stroke { id: old.current_stroke->0, cells };
                &&& r == ReleaseOutcome::StrokeEnded
                &&& !new.is_erasing
                &&& new.current_stroke is None
                &&& new.strokes@ == old.strokes@.push(s)
                &&& new.spatial_index@ == add_to_cells(old.spatial_index@, s.id, range_cells(cells))
                &&& new.history@ == keep_newest(old.history@.push(Action::Draw(s)), old.max_undo_steps)
                &&& new.redo_history@.len() == 0
                &&& new.current_erased@ == old.current_erased@
            } else {
                &&& r == ReleaseOutcome::Idle
                &&& !new.is_erasing
                &&& new.current_stroke is None
                &&& new.strokes@ == old.strokes@
                &&& new.spatial_index@ == old.spatial_index@
                &&& new.history@ == old.history@
                &&& new.redo_history@ == old.redo_history@
                &&& new.current_erased@ == old.current_erased@
            }
        }
}

/// Which tool a press uses. A menu press opens the menu. Otherwise, on an
/// idle state, the eraser end (button 2, or `eraser_held`) erases: in pixel
/// mode it starts a stroke flagged as eraser ink, which clears the ink it
/// covers, and in vector mode it starts an eraser gesture; the pen tip
/// starts an ordinary ink stroke in either mode. Whatever the mode, a stroke
/// that starts is flagged as eraser ink exactly when the eraser end made it.
pub proof fn law_press_tool(
    s0: AppState,
    s1: AppState,
    button: u32,
    menu_held: bool,
    eraser_held: bool,
    r: PressOutcome,
)
    requires
        press_spec(s0, s1, button, menu_held, eraser_held, r),
    ensures
        r is StartStroke ==> {
            &&& r->eraser == (button == 2 || eraser_held)
            &&& r->id == s0.next_stroke_id
            &&& s1.current_stroke == Some(r->id)
        },
        r == PressOutcome::OpenMenu <==> (button == 3 || menu_held),
        r == PressOutcome::StartErasing ==> (button == 2 || eraser_held) && s0.erase_mode == EraseMode::Vector,
        (!(button == 3 || menu_held) && s0.current_stroke is None && !s0.is_erasing) ==> {
            &&& s0.erase_mode == EraseMode::Pixel ==> r == (PressOutcome::StartStroke {
                id: s0.next_stroke_id,
                eraser: button == 2 || eraser_held,
            })
            &&& (s0.erase_mode == EraseMode::Vector && (button == 2 || eraser_held)) ==> r == PressOutcome::StartErasing
            &&& !(button == 2 || eraser_held) ==> r == (PressOutcome::StartStroke { id: s0.next_stroke_id, eraser: false })
        },
        (!(button == 3 || menu_held) && (s0.current_stroke is Some || s0.is_erasing)) ==> r == PressOutcome::Ignored,
{
}

impl AppState {
    /// A stylus press with `button` (3 opens the menu, 2 erases); `menu_held`
    /// and `eraser_held` say that the menu or eraser button is held down or
    /// that the tool is an eraser tip.
    pub fn stylus_down(&mut self, button: u32, menu_held: bool, eraser_held: bool) -> (r: PressOutcome)
        requires
            press_starts_stroke(*old(self), button, menu_held, eraser_held) ==> old(self).next_stroke_id < u64::MAX,
        ensures
            press_spec(*old(self), *final(self), button, menu_held, eraser_held, r),
            r is StartStroke ==> r->eraser == (button == 2 || eraser_held),
    {
        if button == 3 || menu_held {
            self.is_erasing = false;
            self.active_button = 0;
            self.current_stroke = None;
            return PressOutcome::OpenMenu;
        }
        if self.current_stroke.is_some() || self.is_erasing {
            return PressOutcome::Ignored;
        }
        self.active_button = button;
        let eraser = button == 2 || eraser_held;
        if eraser && self.erase_mode == EraseMode::Vector {
            self.is_erasing = true;
            self.current_erased.clear();
            PressOutcome::StartErasing
        } else {
            let id = self.start_stroke();
            PressOutcome::StartStroke { id, eraser }
        }
    }

    /// What a stylus motion does in the current gesture.
    pub fn stylus_motion(&self) -> (r: MotionOutcome)
        ensures
            r == (if self.is_erasing {
                MotionOutcome::Erase
            } else if self.current_stroke is Some {
                MotionOutcome::Extend
            } else {
                MotionOutcome::Idle
            }),
    {
        if self.is_erasing {
            MotionOutcome::Erase
        } else if self.current_stroke.is_some() {
            MotionOutcome::Extend
        } else {
            MotionOutcome::Idle
        }
    }

    /// A stylus release of `released_button` (0 when the tip lifts).
    /// `cells` is the range of cells covered by the bounding box of the
    /// stroke being drawn, if there is one.
    pub fn stylus_up(&mut self, released_button: u32, cells: CellRange) -> (r: ReleaseOutcome)
        ensures
            release_spec(*old(self), *final(self), released_button, cells, r),
            old(self).index_covers() ==> final(self).index_covers(),
    {
        if self.active_button != 0 && released_button != 0 && self.active_button != released_button {
            return ReleaseOutcome::Ignored;
        }
        self.active_button = 0;
        if self.is_erasing {
            self.is_erasing = false;
            if self.current_erased.len() > 0 {
                let mut erased: Vec<Stroke> = Vec::new();
                std::mem::swap(&mut erased, &mut self.current_erased);
                self.history.push(Action::Erase(erased));
                self.redo_history.clear();
                self.cap_history();
            }
            ReleaseOutcome::ErasingEnded
        } else if self.current_stroke.is_some() {
            self.end_stroke(cells);
            ReleaseOutcome::StrokeEnded
        } else {
            ReleaseOutcome::Idle
        }
    }
}

} // verus!
