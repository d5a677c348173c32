use parks::generator::ParksLevel;
use parks::play::{cell_borders, BorderWeight, DragMode, HighlightMode, Marking, PlaySession, UserLevel};
use std::time::Duration;

fn small_level() -> ParksLevel {
    // the 4 x 4 board of 2 x 2 blocks, solved by trees (0,1) (1,3) (2,0) (3,2)
    ParksLevel {
        size: 4,
        difficulty: "Hard".to_string(),
        solution_trees: vec![(0, 1), (1, 3), (2, 0), (3, 2)],
        regions: vec![
            vec![0, 0, 1, 1],
            vec![0, 0, 1, 1],
            vec![2, 2, 3, 3],
            vec![2, 2, 3, 3],
        ],
        region_sizes: vec![4, 4, 4, 4],
        attempts: 1,
        elapsed: Duration::from_millis(3),
    }
}

fn session() -> PlaySession {
    let mut s = PlaySession::new(3);
    s.install_level(1, UserLevel::new(small_level()));
    s
}

fn board(s: &PlaySession, slot: usize) -> Vec<Vec<Marking>> {
    s.levels[slot].as_ref().unwrap().markings.clone()
}

use parks::play::Marking::{MarkedEmpty as X, MarkedTree as T, NotMarked as O};

#[test]
fn new_level_is_blank() {
    let u = UserLevel::new(small_level());
    assert_eq!(u.size(), 4);
    assert_eq!(u.markings, vec![vec![O; 4]; 4]);
    assert!(u.undo_stack.is_empty() && u.redo_stack.is_empty());
    assert_eq!(u.correct_tree_count(), 0);
    assert!(!u.is_solved());
    assert_eq!(u.region(2, 3), Some(3));
    assert_eq!(u.region(4, 0), None);
}

#[test]
fn press_and_release_cycles_a_cell() {
    let mut s = session();
    // unmarked: crossed out on press, committed on release
    s.cell_press(1, 0, 1);
    assert_eq!(board(&s, 1)[0][1], X);
    assert_eq!(s.active.as_ref().unwrap().drag_mode, Some(DragMode::Cross));
    s.end_interaction();
    assert!(s.active.is_none());
    assert_eq!(s.levels[1].as_ref().unwrap().undo_stack.len(), 1);
    // crossed: becomes a tree on release
    s.cell_press(1, 0, 1);
    assert_eq!(s.active.as_ref().unwrap().drag_mode, None);
    s.end_interaction();
    assert_eq!(board(&s, 1)[0][1], T);
    // tree: back to unmarked
    s.cell_press(1, 0, 1);
    s.end_interaction();
    assert_eq!(board(&s, 1)[0][1], O);
    assert_eq!(s.levels[1].as_ref().unwrap().undo_stack.len(), 3);
}

#[test]
fn automark_crosses_out_what_a_tree_shadows() {
    let mut s = session();
    s.automark = true;
    s.cell_press(1, 0, 1);
    s.end_interaction();
    s.cell_press(1, 0, 1);
    s.end_interaction();
    let b = board(&s, 1);
    assert_eq!(
        b,
        vec![
            vec![X, T, X, X],
            vec![X, X, X, O],
            vec![O, X, O, O],
            vec![O, X, O, O],
        ]
    );
    // the whole release is one action: undo restores the crossed cell only
    s.undo(1);
    assert_eq!(
        board(&s, 1),
        vec![vec![O, X, O, O], vec![O; 4], vec![O; 4], vec![O; 4]]
    );
    s.redo(1);
    assert_eq!(board(&s, 1), b);
}

#[test]
fn drags_cross_then_erase() {
    let mut s = session();
    s.cell_press(1, 2, 2);
    s.cell_drag(1, 2, 3);
    s.cell_drag(1, 3, 3);
    s.cell_drag(1, 2, 3); // visited: ignored
    s.end_interaction();
    let b = board(&s, 1);
    assert_eq!(b[2][2], X);
    assert_eq!(b[2][3], X);
    assert_eq!(b[3][3], X);
    assert_eq!(s.levels[1].as_ref().unwrap().undo_stack.len(), 1);
    assert_eq!(s.levels[1].as_ref().unwrap().undo_stack[0].changes.len(), 3);

    // a press on a marked cell that then drags erases both cells
    s.cell_press(1, 2, 2);
    s.cell_drag(1, 3, 3);
    assert_eq!(s.active.as_ref().unwrap().drag_mode, Some(DragMode::Erase));
    s.cell_drag(1, 3, 2); // unmarked: nothing to erase
    s.end_interaction();
    let b = board(&s, 1);
    assert_eq!(b[2][2], O);
    assert_eq!(b[3][3], O);
    assert_eq!(b[2][3], X);
    s.undo(1);
    assert_eq!(board(&s, 1)[2][2], X);
    assert_eq!(board(&s, 1)[3][3], X);
}

#[test]
fn undo_redo_round_trip_and_redo_cleared() {
    let mut s = session();
    s.cell_press(1, 1, 1);
    s.cell_press(1, 1, 2); // the press releases the first one
    s.end_interaction();
    let after = board(&s, 1);
    s.undo(1);
    s.undo(1);
    assert_eq!(board(&s, 1), vec![vec![O; 4]; 4]);
    s.undo(1); // nothing left
    assert_eq!(board(&s, 1), vec![vec![O; 4]; 4]);
    s.redo(1);
    s.redo(1);
    assert_eq!(board(&s, 1), after);
    s.undo(1);
    s.cell_press(1, 3, 3);
    s.end_interaction();
    assert!(s.levels[1].as_ref().unwrap().redo_stack.is_empty());
}

#[test]
fn held_presses_and_other_slots() {
    let mut s = session();
    s.eye_holding = true;
    s.cell_press(1, 0, 0);
    assert!(s.active.is_none());
    assert_eq!(board(&s, 1)[0][0], O);
    s.eye_holding = false;
    // a slot without a level ignores presses
    s.cell_press(0, 0, 0);
    assert!(s.active.is_none());
    // a drag on another slot than the press is ignored
    s.cell_press(1, 0, 0);
    s.cell_drag(2, 0, 1);
    assert_eq!(s.active.as_ref().unwrap().visited, vec![(0, 0)]);
}

#[test]
fn solving_counts_correct_trees() {
    let mut s = session();
    for &(r, c) in &[(0usize, 1usize), (1, 3), (2, 0), (3, 2)] {
        s.cell_press(1, r, c);
        s.end_interaction();
        s.cell_press(1, r, c);
        s.end_interaction();
    }
    let lvl = s.levels[1].as_ref().unwrap();
    assert_eq!(lvl.correct_tree_count(), 4);
    assert!(lvl.is_solved());
}

#[test]
fn highlight_mode_in_force() {
    let mut s = session();
    assert_eq!(s.get_active_highlight_mode(), HighlightMode::Section);
    s.highlight_mode = HighlightMode::Row;
    assert_eq!(s.get_active_highlight_mode(), HighlightMode::Row);
    s.eye_holding = true;
    s.eye_initial_mode = HighlightMode::Row;
    assert_eq!(s.get_active_highlight_mode(), HighlightMode::Row);
    s.eye_hovered_option = Some(HighlightMode::Off);
    assert_eq!(s.get_active_highlight_mode(), HighlightMode::Off);
}

#[test]
fn highlight_chooser_transitions() {
    let mut s = session();
    s.highlight_mode = HighlightMode::Row;
    s.open_highlight_chooser();
    assert!(s.eye_holding);
    assert_eq!(s.eye_initial_mode, HighlightMode::Row);
    s.hover_highlight_chooser(Some(HighlightMode::Column), false);
    assert_eq!(s.get_active_highlight_mode(), HighlightMode::Column);
    s.hover_highlight_chooser(Some(HighlightMode::Column), true);
    assert!(!s.eye_holding);
    assert_eq!(s.highlight_mode, HighlightMode::Column);

    s.open_highlight_chooser();
    s.hover_highlight_chooser(Some(HighlightMode::Off), false);
    s.cancel_highlight_chooser();
    assert_eq!(s.highlight_mode, HighlightMode::Column, "cancelling restores the mode");

    s.open_highlight_chooser();
    s.hover_highlight_chooser(None, true);
    assert_eq!(s.highlight_mode, HighlightMode::Column, "releasing off the options keeps the mode");
}

#[test]
fn borders_follow_the_highlight() {
    let u = UserLevel::new(small_level());
    assert_eq!(cell_borders(&u, HighlightMode::Section, 0, 0), (BorderWeight::Absent, BorderWeight::Absent));
    assert_eq!(cell_borders(&u, HighlightMode::Section, 0, 2), (BorderWeight::Thick, BorderWeight::Absent));
    assert_eq!(cell_borders(&u, HighlightMode::Section, 1, 1), (BorderWeight::Thin, BorderWeight::Thin));
    assert_eq!(cell_borders(&u, HighlightMode::Section, 2, 1), (BorderWeight::Thin, BorderWeight::Thick));
    assert_eq!(cell_borders(&u, HighlightMode::Row, 2, 1), (BorderWeight::Thin, BorderWeight::Thick));
    assert_eq!(cell_borders(&u, HighlightMode::Column, 2, 1), (BorderWeight::Thick, BorderWeight::Thin));
    assert_eq!(cell_borders(&u, HighlightMode::Off, 2, 1), (BorderWeight::Thin, BorderWeight::Thin));
}
