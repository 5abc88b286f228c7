use sketchlayer::events::pointer::{PressOutcome, ReleaseOutcome};
use sketchlayer::state::app_state::AppState;
use sketchlayer::state::geometry::{CellRange, EraseMode};
use sketchlayer::state::history::{Action, Stroke};
use sketchlayer::ui::canvas::RedrawPlan;

fn range(x: i32, y: i32) -> CellRange {
    CellRange { min_x: x, max_x: x, min_y: y, max_y: y }
}

/// A comparable picture of an edit: its kind and the ids it names.
fn edit(a: &Action) -> (char, Vec<u64>) {
    match a {
        Action::Draw(s) => ('d', vec![s.id]),
        Action::Erase(v) => ('e', v.iter().map(|s| s.id).collect()),
        Action::Clear(v) => ('c', v.iter().map(|s| s.id).collect()),
    }
}

/// The canvas and both histories.
fn snapshot(s: &AppState) -> (Vec<Stroke>, Vec<(char, Vec<u64>)>, Vec<(char, Vec<u64>)>) {
    (
        s.strokes.clone(),
        s.history.iter().map(edit).collect(),
        s.redo_history.iter().map(edit).collect(),
    )
}

fn pen_stroke(s: &mut AppState, cells: CellRange) -> u64 {
    match s.stylus_down(1, false, false) {
        PressOutcome::StartStroke { id, eraser: false } => {
            assert_eq!(s.stylus_up(0, cells), ReleaseOutcome::StrokeEnded);
            id
        }
        other => panic!("unexpected press outcome {:?}", other),
    }
}

/// Three strokes in cells (0,0), (1,0), (2,0), then one vector-eraser gesture
/// over cells 0..=1 that hits strokes 0 and 1.
fn drawn_and_erased() -> AppState {
    let mut s = AppState::new(50);
    for x in 0..3 {
        pen_stroke(&mut s, range(x, 0));
    }
    s.erase_mode = EraseMode::Vector;
    assert_eq!(s.stylus_down(2, false, false), PressOutcome::StartErasing);
    let query = CellRange { min_x: 0, max_x: 1, min_y: 0, max_y: 0 };
    assert!(s.erase_at(&query, &vec![true, true, true]));
    assert_eq!(s.stylus_up(2, range(0, 0)), ReleaseOutcome::ErasingEnded);
    s
}

#[test]
fn gesture_session_undo_then_redo_round_trip() {
    let mut s = drawn_and_erased();
    assert_eq!(s.strokes.iter().map(|x| x.id).collect::<Vec<_>>(), vec![2]);
    assert_eq!(edit(s.history.last().unwrap()), ('e', vec![1, 0]));
    let before = snapshot(&s);
    assert!(s.undo());
    assert_eq!(s.strokes.iter().map(|x| x.id).collect::<Vec<_>>(), vec![0, 1, 2]);
    assert!(s.redo());
    assert_eq!(snapshot(&s), before);
}

#[test]
fn gesture_session_redo_then_undo_round_trip() {
    let mut s = drawn_and_erased();
    assert!(s.undo());
    assert!(s.undo());
    let before = snapshot(&s);
    assert_eq!(s.strokes.iter().map(|x| x.id).collect::<Vec<_>>(), vec![0, 1]);
    assert!(s.redo());
    assert_eq!(s.strokes.iter().map(|x| x.id).collect::<Vec<_>>(), vec![0, 1, 2]);
    assert!(s.undo());
    assert_eq!(snapshot(&s), before);
}

#[test]
fn clear_undo_redo_round_trip() {
    let mut s = AppState::new(50);
    pen_stroke(&mut s, range(0, 0));
    pen_stroke(&mut s, range(5, 5));
    assert!(s.clear_canvas());
    assert!(s.strokes.is_empty());
    let cleared = snapshot(&s);
    assert!(s.undo());
    assert_eq!(s.strokes.iter().map(|x| x.id).collect::<Vec<_>>(), vec![0, 1]);
    assert!(s.redo());
    assert_eq!(snapshot(&s), cleared);
    assert!(!s.clear_canvas());
}

#[test]
fn every_undo_and_redo_of_a_session_is_reversible() {
    let mut s = drawn_and_erased();
    pen_stroke(&mut s, range(7, 7));
    s.clear_canvas();
    let mut undone = 0;
    loop {
        let before = snapshot(&s);
        if !s.undo() {
            break;
        }
        undone += 1;
        let after = snapshot(&s);
        assert!(s.redo());
        assert_eq!(snapshot(&s), before);
        assert!(s.undo());
        assert_eq!(snapshot(&s), after);
    }
    assert_eq!(undone, 6);
    assert!(s.strokes.is_empty());
}

#[test]
fn erased_strokes_leave_canvas_and_index_during_gesture() {
    let mut s = AppState::new(50);
    for x in 0..3 {
        pen_stroke(&mut s, range(x, 0));
    }
    s.erase_mode = EraseMode::Vector;
    s.stylus_down(2, false, false);
    assert!(s.erase_at(&range(1, 0), &vec![true, true, true]));
    assert_eq!(s.strokes.iter().map(|x| x.id).collect::<Vec<_>>(), vec![0, 2]);
    assert_eq!(s.current_erased.iter().map(|x| x.id).collect::<Vec<_>>(), vec![1]);
    assert!(s.spatial_index.query(&range(1, 0)).is_empty());
    assert!(!s.erase_at(&range(1, 0), &vec![true, true]));
    assert!(s.history.len() == 3);
}

#[test]
fn loaded_sorted_strokes_continue_ids() {
    let mut s = AppState::new(50);
    s.load_strokes(vec![Stroke { id: 3, cells: range(0, 0) }, Stroke { id: 9, cells: range(1, 1) }]);
    assert_eq!(s.next_stroke_id, 10);
    assert_eq!(pen_stroke(&mut s, range(2, 2)), 10);
    assert!(s.undo());
    assert_eq!(s.strokes.iter().map(|x| x.id).collect::<Vec<_>>(), vec![3, 9]);
    assert!(!s.undo());
}

#[test]
fn menu_press_during_erase_leaves_erased_strokes_out_of_history() {
    let mut s = AppState::new(50);
    pen_stroke(&mut s, range(0, 0));
    s.erase_mode = EraseMode::Vector;
    assert_eq!(s.stylus_down(2, false, false), PressOutcome::StartErasing);
    assert!(s.erase_at(&range(0, 0), &vec![true]));
    assert_eq!(s.stylus_down(3, false, false), PressOutcome::OpenMenu);
    assert!(!s.is_erasing);
    assert_eq!(s.stylus_up(0, range(0, 0)), ReleaseOutcome::Idle);
    assert!(s.strokes.is_empty());
    assert_eq!(s.history.iter().map(edit).collect::<Vec<_>>(), vec![('d', vec![0])]);
    assert_eq!(s.stylus_down(2, false, false), PressOutcome::StartErasing);
    assert!(s.current_erased.is_empty());
}

/// Carries out a redraw plan on a list standing for what the cache shows.
fn redraw(s: &mut AppState, shown: &mut Vec<Stroke>) {
    match s.plan_redraw(true) {
        RedrawPlan::Rebuild => *shown = s.strokes.clone(),
        RedrawPlan::AppendFrom(i) => shown.extend_from_slice(&s.strokes[i..]),
        RedrawPlan::Reuse => {}
    }
    assert_eq!(*shown, s.strokes);
}

#[test]
fn cache_shows_canvas_after_every_redraw() {
    let mut s = AppState::new(50);
    let mut shown: Vec<Stroke> = Vec::new();
    redraw(&mut s, &mut shown);
    pen_stroke(&mut s, range(0, 0));
    redraw(&mut s, &mut shown);
    pen_stroke(&mut s, range(1, 0));
    pen_stroke(&mut s, range(2, 0));
    redraw(&mut s, &mut shown);
    redraw(&mut s, &mut shown);
    s.erase_mode = EraseMode::Vector;
    s.stylus_down(2, false, false);
    let hits = vec![true; s.strokes.len()];
    s.erase_at(&range(1, 0), &hits);
    redraw(&mut s, &mut shown);
    s.stylus_up(2, range(0, 0));
    redraw(&mut s, &mut shown);
    s.undo();
    redraw(&mut s, &mut shown);
    s.redo();
    redraw(&mut s, &mut shown);
    s.clear_canvas();
    redraw(&mut s, &mut shown);
    assert!(shown.is_empty());
}

#[test]
fn whole_eraser_gesture_commits_removed_strokes_as_one_edit() {
    let mut s = AppState::new(50);
    for x in 0..5 {
        pen_stroke(&mut s, range(x, 0));
    }
    let history_before = s.history.len();
    s.erase_mode = EraseMode::Vector;
    assert_eq!(s.stylus_down(1, false, true), PressOutcome::StartErasing);
    let touches = [CellRange { min_x: 3, max_x: 4, min_y: 0, max_y: 0 }, range(9, 9), range(0, 0), range(1, 0)];
    let flags = [vec![true, true, true, false, true], vec![true; 4], vec![true; 4], vec![false, true, true]];
    let expect_removed = [true, false, true, false];
    for ((q, hits), want) in touches.iter().zip(flags.iter()).zip(expect_removed.iter()) {
        assert_eq!(hits.len(), s.strokes.len());
        assert_eq!(s.erase_at(q, hits), *want);
    }
    assert_eq!(s.current_erased.iter().map(|x| x.id).collect::<Vec<_>>(), vec![4, 0]);
    assert_eq!(s.stylus_up(1, range(0, 0)), ReleaseOutcome::ErasingEnded);
    assert_eq!(s.strokes.iter().map(|x| x.id).collect::<Vec<_>>(), vec![1, 2, 3]);
    assert_eq!(s.history.len(), history_before + 1);
    assert_eq!(edit(s.history.last().unwrap()), ('e', vec![4, 0]));
    assert!(s.redo_history.is_empty() && s.current_erased.is_empty());
    assert!(!s.is_erasing && s.active_button == 0);
}

#[test]
fn eraser_gesture_on_repeated_ids_takes_out_by_position() {
    let mut s = AppState::new(50);
    s.load_strokes(vec![
        Stroke { id: 1, cells: range(0, 0) },
        Stroke { id: 1, cells: range(1, 0) },
        Stroke { id: 2, cells: range(2, 0) },
    ]);
    s.erase_mode = EraseMode::Vector;
    assert_eq!(s.stylus_down(2, false, false), PressOutcome::StartErasing);
    let q = CellRange { min_x: 0, max_x: 2, min_y: 0, max_y: 0 };
    assert!(s.erase_at(&q, &vec![false, true, false]));
    assert_eq!(s.stylus_up(0, range(0, 0)), ReleaseOutcome::ErasingEnded);
    assert_eq!(s.strokes, vec![Stroke { id: 1, cells: range(0, 0) }, Stroke { id: 2, cells: range(2, 0) }]);
    match s.history.last() {
        Some(Action::Erase(v)) => assert_eq!(*v, vec![Stroke { id: 1, cells: range(1, 0) }]),
        _ => panic!("expected an erase edit"),
    }
}
