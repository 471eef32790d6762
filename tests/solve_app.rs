use wordsolve::{BoardElem, Dictionary, SolveApp, WordSizeConstraint};

fn app() -> SolveApp {
    let d = Dictionary::new_from_string("crane\nstory\nsorry\nryots\nburnt", WordSizeConstraint::exactly(5)).unwrap();
    SolveApp::new(d)
}

fn type_word(app: &mut SolveApp, w: &str) {
    for c in w.chars() {
        assert!(app.add(c));
    }
}

#[test]
fn fresh_app_has_no_words() {
    let a = app();
    assert_eq!(a.word_count(), 0);
    assert_eq!(a.get_word(0), None);
    assert_eq!(a.board[0][0], BoardElem::Empty);
}

#[test]
fn typing_marks_gray() {
    let mut a = app();
    type_word(&mut a, "CRANE");
    assert_eq!(a.board[0][1], BoardElem::Gray('R'));
    assert_eq!(a.board[1][0], BoardElem::Empty);
}

#[test]
fn calculate_before_a_full_row() {
    let mut a = app();
    type_word(&mut a, "CRA");
    a.calculate();
    assert_eq!(a.word_count(), 0);
    assert_eq!(a.get_word(0), None);
}

#[test]
fn toggle_and_calculate() {
    let mut a = app();
    type_word(&mut a, "CRANE");
    assert!(a.toggle(0, 1));
    assert_eq!(a.board[0][1], BoardElem::Yellow('R'));
    a.calculate();
    assert_eq!(a.word_count(), 3);
    assert_eq!(a.get_word(0), Some("ryots".to_string()));
    assert_eq!(a.get_word(2), Some("story".to_string()));
    assert_eq!(a.get_word(3), None);
}

#[test]
fn toggle_cycles_marks() {
    let mut a = app();
    type_word(&mut a, "CRANE");
    assert!(a.toggle(0, 0));
    assert_eq!(a.board[0][0], BoardElem::Yellow('C'));
    assert!(a.toggle(0, 0));
    assert_eq!(a.board[0][0], BoardElem::Green('C'));
    assert!(a.toggle(0, 0));
    assert_eq!(a.board[0][0], BoardElem::Gray('C'));
    assert!(!a.toggle(1, 0));
}

#[test]
fn yellow_turns_gray_under_green_column() {
    let mut a = app();
    type_word(&mut a, "CRANE");
    type_word(&mut a, "CRANE");
    assert!(a.toggle(0, 0));
    assert!(a.toggle(0, 0));
    assert_eq!(a.board[0][0], BoardElem::Green('C'));
    assert_eq!(a.board[1][0], BoardElem::Green('C'));
    assert!(a.toggle(0, 1));
    assert_eq!(a.board[1][1], BoardElem::Yellow('R'));
}

#[test]
fn typed_letter_copies_column_mark() {
    let mut a = app();
    type_word(&mut a, "CRANE");
    assert!(a.toggle(0, 1));
    type_word(&mut a, "SR");
    assert_eq!(a.board[1][1], BoardElem::Yellow('R'));
    assert_eq!(a.board[1][0], BoardElem::Gray('S'));
}

#[test]
fn toggle_col_uses_cursor() {
    let mut a = app();
    assert!(!a.toggle_col(0));
    type_word(&mut a, "CRANE");
    assert!(a.toggle_col(1));
    assert_eq!(a.board[0][1], BoardElem::Yellow('R'));
    assert!(!a.toggle_col(7));
}

#[test]
fn remove_steps_back() {
    let mut a = app();
    assert!(!a.remove());
    type_word(&mut a, "CRANE");
    assert!(a.remove());
    assert_eq!(a.board[0][4], BoardElem::Empty);
    assert!(a.add('S'));
    assert_eq!(a.board[0][4], BoardElem::Gray('S'));
}

#[test]
fn full_board_takes_no_letter() {
    let mut a = app();
    for _ in 0..6 {
        type_word(&mut a, "CRANE");
    }
    assert!(!a.add('X'));
}
