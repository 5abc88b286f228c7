use vstd::prelude::*;
use crate::state::geometry::EraseMode;
use crate::state::app_state::AppState;
use crate::state::coherence::coherent;

verus! {

/// The erase mode other than `m`.
pub open spec fn other_mode(m: EraseMode) -> EraseMode {
    if m == EraseMode::Pixel {
        EraseMode::Vector
    } else {
        EraseMode::Pixel
    }
}

/// Pressing the erase-mode button twice gives the mode back.
pub proof fn law_toggle_twice(m: EraseMode)
    ensures
        other_mode(other_mode(m)) == m,
        other_mode(m) != m,
{
}

/// The erase mode after `k` presses of the erase-mode button, starting from `m`.
pub open spec fn toggled_times(m: EraseMode, k: nat) -> EraseMode
    decreases k,
{
    if k == 0 {
        m
    } else {
        other_mode(toggled_times(m, (k - 1) as nat))
    }
}

/// After `k` presses of the erase-mode button the mode is the starting one
/// when `k` is even and the other one when `k` is odd.
pub proof fn law_toggle_parity(m: EraseMode, k: nat)
    ensures
        toggled_times(m, k) == (if k % 2 == 0 { m } else { other_mode(m) }),
    decreases k,
{
    if k > 0 {
        law_toggle_parity(m, (k - 1) as nat);
    }
}

impl AppState {
    /// One press of the menu's erase-mode button: switches the erase mode and
    /// returns the new one (whose `label` the button then shows). Nothing
    /// else changes.
    pub fn toggle_erase_mode(&mut self) -> (m: EraseMode)
        ensures
            m == other_mode(old(self).erase_mode),
            final(self).erase_mode == m,
            final(self).strokes == old(self).strokes,
            final(self).history == old(self).history,
            final(self).redo_history == old(self).redo_history,
            final(self).spatial_index == old(self).spatial_index,
            final(self).next_stroke_id == old(self).next_stroke_id,
            final(self).current_stroke == old(self).current_stroke,
            final(self).current_erased == old(self).current_erased,
            final(self).is_erasing == old(self).is_erasing,
            final(self).active_button == old(self).active_button,
            final(self).max_undo_steps == old(self).max_undo_steps,
            final(self).rendered_strokes_count == old(self).rendered_strokes_count,
            final(self).needs_full_redraw == old(self).needs_full_redraw,
            coherent(*old(self)) ==> coherent(*final(self)),
    {
        let m = self.erase_mode.toggled();
        self.erase_mode = m;
        m
    }
}

impl EraseMode {
    /// The other erase mode: the menu's erase-mode button switches between them.
    pub fn toggled(self) -> (m: EraseMode)
        ensures
            m == other_mode(self),
    {
        if self == EraseMode::Pixel {
            EraseMode::Vector
        } else {
            EraseMode::Pixel
        }
    }

    /// The label of the menu's erase-mode button.
    pub fn label(self) -> (s: &'static str)
        ensures
            s@ == (if self == EraseMode::Vector { "Erase Mode: Vector"@ } else { "Erase Mode: Pixel"@ }),
    {
        if self == EraseMode::Vector {
            "Erase Mode: Vector"
        } else {
            "Erase Mode: Pixel"
        }
    }
}

/// The perspective mode that follows `mode`: the modes go 1, 2, 3 and back to 1.
pub open spec fn following_mode(mode: int) -> int {
    if mode + 1 > 3 {
        1
    } else {
        mode + 1
    }
}

/// Three presses of the perspective button from any of the modes 1, 2, 3
/// come back to it, passing through the other two.
pub proof fn law_perspective_cycle(mode: int)
    requires
        1 <= mode <= 3,
    ensures
        following_mode(following_mode(following_mode(mode))) == mode,
        following_mode(mode) != mode,
        following_mode(following_mode(mode)) != mode,
        1 <= following_mode(mode) <= 3,
{
}

/// The perspective mode after the menu's perspective button is pressed.
pub fn next_perspective_mode(mode: u32) -> (m: u32)
    requires
        mode < u32::MAX,
    ensures
        m == following_mode(mode as int),
{
    let mut m = mode + 1;
    if m > 3 {
        m = 1;
    }
    m
}

/// The perspective mode shown on the menu button: the configured mode
/// clamped into 1 ..= 3.
pub fn shown_perspective_mode(mode: u32) -> (m: u32)
    ensures
        m == (if mode < 1 { 1 } else if mode > 3 { 3 } else { mode }),
{
    if mode < 1 {
        1
    } else if mode > 3 {
        3
    } else {
        mode
    }
}

} // verus!
