use vstd::prelude::*;

verus! {

/// The keys that take part in shortcuts (letters in either case).
#[derive(Clone, Copy, PartialEq, Eq, Debug, Structural)]
pub enum ShortcutKey {
    Escape,
    Q,
    S,
    C,
    /// `0` on the main keyboard or the keypad.
    Zero,
    Z,
    Other,
}

/// What a key press asks for.
#[derive(Clone, Copy, PartialEq, Eq, Debug, Structural)]
pub enum Shortcut {
    HideWindow,
    CloseWindow,
    SaveSketch,
    SaveGrids,
    CopySketch,
    CopyMainGrid,
    ResetView,
    Undo,
    Redo,
    /// Not a shortcut: the key goes on to other handlers.
    PassThrough,
}

/// The shortcut table: Escape hides the overlay; with Ctrl, Q closes it, S
/// saves the sketch (with Shift: the grid cells), C copies the main grid
/// (with Shift: the whole sketch), 0 resets the view, and Z undoes (with
/// Shift: redoes). Every other press passes through.
pub open spec fn spec_shortcut(key: ShortcutKey, ctrl: bool, shift: bool) -> Shortcut {
    match key {
        ShortcutKey::Escape => Shortcut::HideWindow,
        ShortcutKey::Q => if ctrl { Shortcut::CloseWindow } else { Shortcut::PassThrough },
        ShortcutKey::S => if !ctrl {
            Shortcut::PassThrough
        } else if shift {
            Shortcut::SaveGrids
        } else {
            Shortcut::SaveSketch
        },
        ShortcutKey::C => if !ctrl {
            Shortcut::PassThrough
        } else if shift {
            Shortcut::CopySketch
        } else {
            Shortcut::CopyMainGrid
        },
        ShortcutKey::Zero => if ctrl { Shortcut::ResetView } else { Shortcut::PassThrough },
        ShortcutKey::Z => if !ctrl {
            Shortcut::PassThrough
        } else if shift {
            Shortcut::Redo
        } else {
            Shortcut::Undo
        },
        ShortcutKey::Other => Shortcut::PassThrough,
    }
}

/// What each answer of the shortcut table requires of the press: Escape
/// hides the overlay whatever the modifiers; without Ctrl nothing else is a
/// shortcut; every other answer comes from one key with Ctrl, Shift choosing
/// between the two answers of S, C and Z and not mattering for Q and 0.
pub proof fn law_shortcut_answers(key: ShortcutKey, ctrl: bool, shift: bool)
    ensures
        (spec_shortcut(key, ctrl, shift) == Shortcut::HideWindow) <==> key == ShortcutKey::Escape,
        (key != ShortcutKey::Escape && !ctrl) ==> spec_shortcut(key, ctrl, shift) == Shortcut::PassThrough,
        key == ShortcutKey::Other ==> spec_shortcut(key, ctrl, shift) == Shortcut::PassThrough,
        (spec_shortcut(key, ctrl, shift) == Shortcut::CloseWindow) <==> (key == ShortcutKey::Q && ctrl),
        (spec_shortcut(key, ctrl, shift) == Shortcut::SaveSketch) <==> (key == ShortcutKey::S && ctrl && !shift),
        (spec_shortcut(key, ctrl, shift) == Shortcut::SaveGrids) <==> (key == ShortcutKey::S && ctrl && shift),
        (spec_shortcut(key, ctrl, shift) == Shortcut::CopyMainGrid) <==> (key == ShortcutKey::C && ctrl && !shift),
        (spec_shortcut(key, ctrl, shift) == Shortcut::CopySketch) <==> (key == ShortcutKey::C && ctrl && shift),
        (spec_shortcut(key, ctrl, shift) == Shortcut::ResetView) <==> (key == ShortcutKey::Zero && ctrl),
        (spec_shortcut(key, ctrl, shift) == Shortcut::Undo) <==> (key == ShortcutKey::Z && ctrl && !shift),
        (spec_shortcut(key, ctrl, shift) == Shortcut::Redo) <==> (key == ShortcutKey::Z && ctrl && shift),
        (key == ShortcutKey::Q || key == ShortcutKey::Zero || key == ShortcutKey::Escape) ==>
            spec_shortcut(key, ctrl, shift) == spec_shortcut(key, ctrl, !shift),
        (ctrl && (key == ShortcutKey::S || key == ShortcutKey::C || key == ShortcutKey::Z)) ==>
            spec_shortcut(key, ctrl, shift) != spec_shortcut(key, ctrl, !shift),
{
}

/// Decides what a key press with the given modifiers does.
pub fn shortcut_for(key: ShortcutKey, ctrl: bool, shift: bool) -> (s: Shortcut)
    ensures
        s == spec_shortcut(key, ctrl, shift),
        (key != ShortcutKey::Escape && !ctrl) ==> s == Shortcut::PassThrough,
        (s == Shortcut::SaveSketch || s == Shortcut::SaveGrids) ==> (key == ShortcutKey::S && ctrl),
{
    if key == ShortcutKey::Escape {
        return Shortcut::HideWindow;
    }
    if key == ShortcutKey::Q && ctrl {
        return Shortcut::CloseWindow;
    }
    if key == ShortcutKey::S && ctrl {
        if shift {
            return Shortcut::SaveGrids;
        } else {
            return Shortcut::SaveSketch;
        }
    }
    if key == ShortcutKey::C && ctrl {
        if shift {
            return Shortcut::CopySketch;
        } else {
            return Shortcut::CopyMainGrid;
        }
    }
    if key == ShortcutKey::Zero && ctrl {
        return Shortcut::ResetView;
    }
    if key == ShortcutKey::Z {
        if ctrl {
            if shift {
                return Shortcut::Redo;
            } else {
                return Shortcut::Undo;
            }
        }
    }
    Shortcut::PassThrough
}

} // verus!
