use sketchlayer::state::app_state::AppState;
use sketchlayer::state::geometry::{CellRange, EraseMode};
use sketchlayer::state::history::{Action, Stroke, sorted_by_id, copy_strokes};

fn range(min_x: i32, max_x: i32, min_y: i32, max_y: i32) -> CellRange {
    CellRange { min_x, max_x, min_y, max_y }
}

fn ids(state: &AppState) -> Vec<u64> {
    state.strokes.iter().map(|s| s.id).collect()
}

fn draw(state: &mut AppState, cells: CellRange) -> u64 {
    let id = state.start_stroke();
    state.end_stroke(cells);
    id
}

#[test]
fn fresh_state() {
    let s = AppState::new(50);
    assert_eq!(s.next_stroke_id, 0);
    assert!(s.strokes.is_empty());
    assert!(s.history.is_empty() && s.redo_history.is_empty());
    assert_eq!(s.erase_mode, EraseMode::Pixel);
    assert!(s.needs_full_redraw);
    assert_eq!(s.max_undo_steps, 50);
}

#[test]
fn strokes_get_increasing_ids_and_are_undoable() {
    let mut s = AppState::new(50);
    let a = draw(&mut s, range(0, 0, 0, 0));
    let b = draw(&mut s, range(1, 1, 1, 1));
    assert_eq!((a, b), (0, 1));
    assert_eq!(ids(&s), vec![0, 1]);
    assert_eq!(s.history.len(), 2);
    assert!(s.undo());
    assert_eq!(ids(&s), vec![0]);
    assert_eq!(s.redo_history.len(), 1);
    assert!(s.redo());
    assert_eq!(ids(&s), vec![0, 1]);
    assert!(s.redo_history.is_empty());
    assert!(!s.redo());
}

#[test]
fn undo_on_empty_history_does_nothing() {
    let mut s = AppState::new(5);
    assert!(!s.undo());
    assert!(!s.redo());
    assert!(s.strokes.is_empty());
}

#[test]
fn new_stroke_clears_redo() {
    let mut s = AppState::new(50);
    draw(&mut s, range(0, 0, 0, 0));
    s.undo();
    assert_eq!(s.redo_history.len(), 1);
    draw(&mut s, range(0, 0, 0, 0));
    assert!(s.redo_history.is_empty());
    assert_eq!(ids(&s), vec![1]);
}

#[test]
fn end_without_stroke_changes_nothing() {
    let mut s = AppState::new(50);
    s.end_stroke(range(0, 0, 0, 0));
    assert!(s.strokes.is_empty());
    assert!(s.history.is_empty());
}

#[test]
fn history_is_capped_to_newest() {
    let mut s = AppState::new(2);
    draw(&mut s, range(0, 0, 0, 0));
    draw(&mut s, range(0, 0, 0, 0));
    draw(&mut s, range(0, 0, 0, 0));
    assert_eq!(s.history.len(), 2);
    assert!(matches!(s.history[0], Action::Draw(Stroke { id: 1, .. })));
    assert!(s.undo());
    assert!(s.undo());
    assert!(!s.undo());
    assert_eq!(ids(&s), vec![0]);
}

#[test]
fn zero_limit_keeps_no_history() {
    let mut s = AppState::new(0);
    draw(&mut s, range(0, 0, 0, 0));
    assert!(s.history.is_empty());
    assert!(!s.undo());
    assert_eq!(ids(&s), vec![0]);
}

#[test]
fn erase_removes_hit_candidates_top_first() {
    let mut s = AppState::new(50);
    draw(&mut s, range(0, 0, 0, 0));
    draw(&mut s, range(0, 1, 0, 0));
    draw(&mut s, range(5, 5, 5, 5));
    s.needs_full_redraw = false;
    // all strokes are hit, but only the first two are listed in cell (0, 0)
    let erased = s.erase_at(&range(0, 0, 0, 0), &vec![true, true, true]);
    assert!(erased);
    assert!(s.needs_full_redraw);
    assert_eq!(ids(&s), vec![2]);
    let gone: Vec<u64> = s.current_erased.iter().map(|x| x.id).collect();
    assert_eq!(gone, vec![1, 0]);
    assert!(s.spatial_index.query(&range(0, 1, 0, 0)).is_empty());
}

#[test]
fn erase_spares_strokes_not_hit() {
    let mut s = AppState::new(50);
    draw(&mut s, range(0, 0, 0, 0));
    draw(&mut s, range(0, 0, 0, 0));
    s.needs_full_redraw = false;
    assert!(!s.erase_at(&range(0, 0, 0, 0), &vec![false, false]));
    assert!(!s.needs_full_redraw);
    assert!(!s.erase_at(&range(9, 9, 9, 9), &vec![true, true]));
    assert_eq!(ids(&s), vec![0, 1]);
    assert!(s.erase_at(&range(0, 0, 0, 0), &vec![true, false]));
    assert_eq!(ids(&s), vec![1]);
}

#[test]
fn erase_gesture_is_undone_in_id_order() {
    let mut s = AppState::new(50);
    for _ in 0..4 {
        draw(&mut s, range(0, 0, 0, 0));
    }
    s.erase_mode = EraseMode::Vector;
    let _ = s.stylus_down(2, false, false);
    assert!(s.is_erasing);
    s.erase_at(&range(0, 0, 0, 0), &vec![false, true, false, true]);
    s.stylus_up(0, range(0, 0, 0, 0));
    assert!(!s.is_erasing);
    assert_eq!(ids(&s), vec![0, 2]);
    assert!(matches!(s.history.last(), Some(Action::Erase(e)) if e.len() == 2));
    assert!(s.undo());
    assert_eq!(ids(&s), vec![0, 1, 2, 3]);
    assert_eq!(s.spatial_index.query(&range(0, 0, 0, 0)).len(), 4);
    assert!(s.redo());
    assert_eq!(ids(&s), vec![0, 2]);
    assert_eq!(s.spatial_index.query(&range(0, 0, 0, 0)).len(), 2);
}

#[test]
fn clear_is_undoable() {
    let mut s = AppState::new(50);
    draw(&mut s, range(0, 0, 0, 0));
    draw(&mut s, range(1, 1, 0, 0));
    assert!(s.clear_canvas());
    assert!(s.strokes.is_empty());
    assert!(!s.clear_canvas());
    assert!(s.undo());
    assert_eq!(ids(&s), vec![0, 1]);
    assert!(s.redo());
    assert!(s.strokes.is_empty());
    assert!(s.spatial_index.query(&range(0, 1, 0, 0)).is_empty());
}

#[test]
fn load_replaces_canvas() {
    let mut s = AppState::new(50);
    draw(&mut s, range(0, 0, 0, 0));
    s.load_strokes(vec![
        Stroke { id: 4, cells: range(0, 0, 0, 0) },
        Stroke { id: 9, cells: range(2, 2, 2, 2) },
    ]);
    assert_eq!(ids(&s), vec![4, 9]);
    assert_eq!(s.next_stroke_id, 10);
    assert!(s.history.is_empty());
    assert_eq!(s.spatial_index.query(&range(2, 2, 2, 2)).len(), 1);
    assert!(s.spatial_index.query(&range(0, 0, 0, 0)).contains(&4));
    s.load_strokes(vec![]);
    assert_eq!(s.next_stroke_id, 1);
}

#[test]
fn sorting_is_stable_by_id() {
    let c = range(0, 0, 0, 0);
    let d = range(1, 1, 1, 1);
    let v = vec![
        Stroke { id: 3, cells: c },
        Stroke { id: 1, cells: c },
        Stroke { id: 3, cells: d },
        Stroke { id: 2, cells: c },
    ];
    let r = sorted_by_id(&v);
    assert_eq!(r, vec![
        Stroke { id: 1, cells: c },
        Stroke { id: 2, cells: c },
        Stroke { id: 3, cells: c },
        Stroke { id: 3, cells: d },
    ]);
    assert_eq!(copy_strokes(&v), v);
}
