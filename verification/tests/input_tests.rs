use sketchlayer::state::history::Stroke;
use sketchlayer::events::keyboard::{Shortcut, ShortcutKey, shortcut_for};
use sketchlayer::events::pointer::{MotionOutcome, PressOutcome, ReleaseOutcome};
use sketchlayer::state::app_state::AppState;
use sketchlayer::state::geometry::{CellRange, EraseMode};
use sketchlayer::ui::canvas::RedrawPlan;
use sketchlayer::ui::menu::{next_perspective_mode, shown_perspective_mode};
use sketchlayer::config::{PathChoice, resolve_load_file, resolve_save_dir, has_home_prefix};

fn cell() -> CellRange {
    CellRange { min_x: 0, max_x: 0, min_y: 0, max_y: 0 }
}

#[test]
fn shortcut_table() {
    assert_eq!(shortcut_for(ShortcutKey::Escape, false, false), Shortcut::HideWindow);
    assert_eq!(shortcut_for(ShortcutKey::Q, true, false), Shortcut::CloseWindow);
    assert_eq!(shortcut_for(ShortcutKey::Q, false, false), Shortcut::PassThrough);
    assert_eq!(shortcut_for(ShortcutKey::S, true, false), Shortcut::SaveSketch);
    assert_eq!(shortcut_for(ShortcutKey::S, true, true), Shortcut::SaveGrids);
    assert_eq!(shortcut_for(ShortcutKey::C, true, true), Shortcut::CopySketch);
    assert_eq!(shortcut_for(ShortcutKey::C, true, false), Shortcut::CopyMainGrid);
    assert_eq!(shortcut_for(ShortcutKey::Zero, true, false), Shortcut::ResetView);
    assert_eq!(shortcut_for(ShortcutKey::Z, true, false), Shortcut::Undo);
    assert_eq!(shortcut_for(ShortcutKey::Z, true, true), Shortcut::Redo);
    assert_eq!(shortcut_for(ShortcutKey::Z, false, true), Shortcut::PassThrough);
    assert_eq!(shortcut_for(ShortcutKey::Other, true, true), Shortcut::PassThrough);
}

#[test]
fn pen_press_draw_release() {
    let mut s = AppState::new(50);
    assert_eq!(s.stylus_motion(), MotionOutcome::Idle);
    assert_eq!(s.stylus_down(1, false, false), PressOutcome::StartStroke { id: 0, eraser: false });
    assert_eq!(s.active_button, 1);
    assert_eq!(s.stylus_motion(), MotionOutcome::Extend);
    assert_eq!(s.stylus_down(1, false, false), PressOutcome::Ignored);
    assert_eq!(s.stylus_up(3, cell()), ReleaseOutcome::Ignored);
    assert_eq!(s.stylus_up(0, cell()), ReleaseOutcome::StrokeEnded);
    assert_eq!(s.strokes.len(), 1);
    assert_eq!(s.active_button, 0);
    assert_eq!(s.stylus_up(0, cell()), ReleaseOutcome::Idle);
}

#[test]
fn eraser_button_in_pixel_mode_draws_eraser_ink() {
    let mut s = AppState::new(50);
    assert_eq!(s.stylus_down(2, false, false), PressOutcome::StartStroke { id: 0, eraser: true });
    assert_eq!(s.stylus_up(2, cell()), ReleaseOutcome::StrokeEnded);
}

#[test]
fn eraser_in_vector_mode_starts_erasing() {
    let mut s = AppState::new(50);
    s.erase_mode = EraseMode::Vector;
    assert_eq!(s.stylus_down(1, false, true), PressOutcome::StartErasing);
    assert_eq!(s.stylus_motion(), MotionOutcome::Erase);
    assert_eq!(s.stylus_up(0, cell()), ReleaseOutcome::ErasingEnded);
    assert!(s.history.is_empty());
}

#[test]
fn menu_button_cancels_gesture() {
    let mut s = AppState::new(50);
    s.stylus_down(1, false, false);
    assert_eq!(s.stylus_down(3, false, false), PressOutcome::OpenMenu);
    assert!(s.current_stroke.is_none());
    assert_eq!(s.active_button, 0);
    assert_eq!(s.stylus_down(1, true, false), PressOutcome::OpenMenu);
}

#[test]
fn redraw_plans() {
    let mut s = AppState::new(50);
    assert_eq!(s.plan_redraw(true), RedrawPlan::Rebuild);
    assert!(!s.needs_full_redraw);
    assert_eq!(s.plan_redraw(true), RedrawPlan::Reuse);
    s.stylus_down(1, false, false);
    s.stylus_up(0, cell());
    assert_eq!(s.plan_redraw(true), RedrawPlan::AppendFrom(0));
    assert_eq!(s.rendered_strokes_count, 1);
    assert_eq!(s.plan_redraw(false), RedrawPlan::Rebuild);
}

#[test]
fn menu_helpers() {
    assert_eq!(EraseMode::Pixel.toggled(), EraseMode::Vector);
    assert_eq!(EraseMode::Vector.toggled(), EraseMode::Pixel);
    assert_eq!(EraseMode::Vector.label(), "Erase Mode: Vector");
    assert_eq!(EraseMode::Pixel.label(), "Erase Mode: Pixel");
    assert_eq!(next_perspective_mode(1), 2);
    assert_eq!(next_perspective_mode(3), 1);
    assert_eq!(next_perspective_mode(0), 1);
    assert_eq!(shown_perspective_mode(0), 1);
    assert_eq!(shown_perspective_mode(7), 3);
    assert_eq!(shown_perspective_mode(2), 2);
}

#[test]
fn path_resolution() {
    assert_eq!(resolve_save_dir(&None, true), PathChoice::Fallback);
    assert_eq!(resolve_save_dir(&Some(String::new()), true), PathChoice::Fallback);
    assert_eq!(resolve_save_dir(&Some("~/art".to_string()), true), PathChoice::HomeRelative);
    assert_eq!(resolve_save_dir(&Some("~/art".to_string()), false), PathChoice::AsGiven);
    assert_eq!(resolve_save_dir(&Some("/tmp/x".to_string()), true), PathChoice::AsGiven);
    assert_eq!(resolve_load_file(&None, true), None);
    assert_eq!(resolve_load_file(&Some(String::new()), true), None);
    assert_eq!(resolve_load_file(&Some("~/a.sketchlayer".to_string()), true), Some(PathChoice::HomeRelative));
    assert_eq!(resolve_load_file(&Some("~a".to_string()), true), Some(PathChoice::AsGiven));
    assert!(has_home_prefix("~/"));
    assert!(!has_home_prefix("~"));
    assert!(!has_home_prefix("é~/"));
}

#[test]
fn menu_toggles_and_cycles_return() {
    for m in [EraseMode::Pixel, EraseMode::Vector] {
        assert_eq!(m.toggled().toggled(), m);
        assert_ne!(m.toggled(), m);
    }
    for mode in 1..=3u32 {
        let once = next_perspective_mode(mode);
        let twice = next_perspective_mode(once);
        assert_eq!(next_perspective_mode(twice), mode);
        assert!(once != mode && twice != mode && (1..=3).contains(&once));
    }
}

#[test]
fn full_id_counter_still_allows_menu_and_ignored_presses() {
    let mut s = AppState::new(50);
    s.load_strokes(vec![Stroke { id: u64::MAX - 1, cells: cell() }]);
    assert_eq!(s.next_stroke_id, u64::MAX);
    assert_eq!(s.stylus_down(3, false, false), PressOutcome::OpenMenu);
    assert_eq!(s.stylus_down(1, true, false), PressOutcome::OpenMenu);
    s.erase_mode = EraseMode::Vector;
    assert_eq!(s.stylus_down(2, false, false), PressOutcome::StartErasing);
    assert_eq!(s.stylus_down(1, false, false), PressOutcome::Ignored);
    assert!(s.is_erasing);
    assert_eq!(s.active_button, 2);
    assert_eq!(s.next_stroke_id, u64::MAX);
    assert_eq!(s.strokes.len(), 1);
}

#[test]
fn finished_stroke_is_indexed_under_its_cells() {
    let mut s = AppState::new(50);
    let cells = CellRange { min_x: 2, max_x: 3, min_y: -1, max_y: 0 };
    s.stylus_down(1, false, false);
    assert_eq!(s.stylus_up(0, cells), ReleaseOutcome::StrokeEnded);
    let found: Vec<u64> = s.spatial_index.query(&CellRange { min_x: 3, max_x: 9, min_y: 0, max_y: 0 }).into_iter().collect();
    assert_eq!(found, vec![0]);
    assert!(s.spatial_index.query(&CellRange { min_x: 4, max_x: 9, min_y: 0, max_y: 0 }).is_empty());
}

#[test]
fn erase_mode_button_parity_and_redraw_request() {
    let mut s = AppState::new(50);
    s.plan_redraw(true);
    for k in 1..=7u32 {
        let m = s.toggle_erase_mode();
        assert_eq!(m, s.erase_mode);
        let expected = if k % 2 == 0 { EraseMode::Pixel } else { EraseMode::Vector };
        assert_eq!(s.erase_mode, expected);
        assert_eq!(m.label(), if k % 2 == 0 { "Erase Mode: Pixel" } else { "Erase Mode: Vector" });
    }
    assert!(!s.needs_full_redraw);
    s.request_full_redraw();
    assert!(s.needs_full_redraw);
    assert_eq!(s.plan_redraw(true), RedrawPlan::Rebuild);
}
