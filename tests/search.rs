use wordsolve::{
    extract_constraints, find_words, search, BoardElem, Constraints, Dictionary, Requirement, SolverArgs,
    WordSizeConstraint, BOARD_COLS, BOARD_ROWS,
};

fn dict(words: &str) -> Dictionary {
    Dictionary::new_from_string(words, WordSizeConstraint::exactly(5)).unwrap()
}

fn open_constraints() -> Constraints {
    Constraints {
        correct: vec![None; 5],
        excluded: vec![[false; 26]; 5],
        unused: [false; 26],
        multiplicity: [None; 26],
    }
}

fn found(d: &Dictionary, c: &Constraints) -> Vec<String> {
    search(d, c).into_iter().map(|id| d.get_word(id)).collect()
}

#[test]
fn forced_first_letter() {
    let d = dict("crane\nstore\nbrine\nstare\nglobe");
    let mut c = open_constraints();
    c.correct[0] = Some(Dictionary::uchar_to_u8('S'));
    assert_eq!(found(&d, &c), vec!["stare", "store"]);
}

#[test]
fn exact_multiplicity() {
    // "eaten" holds two E's as well; "earns" holds one.
    let d = dict("erase\nearns\neaten");
    let mut c = open_constraints();
    c.multiplicity[4] = Some(Requirement::Exactly(2));
    assert_eq!(found(&d, &c), vec!["eaten", "erase"]);
}

#[test]
fn at_least_multiplicity() {
    let d = dict("erase\neaten\nglobe\nmummy");
    let mut c = open_constraints();
    c.multiplicity[4] = Some(Requirement::AtLeast(1));
    assert_eq!(found(&d, &c), vec!["eaten", "erase", "globe"]);
}

#[test]
fn search_twice_same_order() {
    let d = dict("stare\ncrane\nslate\nbrine\nstore\nshore");
    let c = open_constraints();
    let first = search(&d, &c);
    let second = search(&d, &c);
    assert_eq!(first, second);
    assert_eq!(found(&d, &c), vec!["brine", "crane", "shore", "slate", "stare", "store"]);
}

#[test]
fn forced_absent_word_finds_nothing() {
    let d = dict("stare\nstore");
    let mut c = open_constraints();
    for (i, ch) in "ZZZZZ".chars().enumerate() {
        c.correct[i] = Some(Dictionary::uchar_to_u8(ch));
    }
    assert!(search(&d, &c).is_empty());
}

#[test]
fn unused_and_excluded_letters() {
    let d = dict("stare\nstore\nshore\nsnore");
    let mut c = open_constraints();
    c.unused[Dictionary::uchar_to_usize('T')] = true;
    c.excluded[1][Dictionary::uchar_to_usize('N')] = true;
    assert_eq!(found(&d, &c), vec!["shore"]);
}

#[test]
fn empty_dictionary_finds_nothing() {
    let d = dict("");
    assert!(search(&d, &open_constraints()).is_empty());
}

fn crane_board() -> [[BoardElem; BOARD_COLS]; BOARD_ROWS] {
    let mut board = [[BoardElem::Empty; BOARD_COLS]; BOARD_ROWS];
    board[0] = [
        BoardElem::Gray('C'),
        BoardElem::Yellow('R'),
        BoardElem::Gray('A'),
        BoardElem::Gray('N'),
        BoardElem::Gray('E'),
    ];
    board
}

#[test]
fn board_constraints() {
    let mut board = crane_board();
    board[1] = [
        BoardElem::Gray('S'),
        BoardElem::Gray('O'),
        BoardElem::Green('R'),
        BoardElem::Yellow('R'),
        BoardElem::Gray('Y'),
    ];
    let c = extract_constraints(&board);
    let r = Dictionary::uchar_to_usize('R');
    assert_eq!(c.correct[2], Some(r as u8));
    assert_eq!(c.correct[0], None);
    assert!(c.excluded[1][r]);
    assert!(c.excluded[3][r]);
    assert!(!c.excluded[2][r]);
    assert!(c.unused[Dictionary::uchar_to_usize('C')]);
    assert!(c.unused[Dictionary::uchar_to_usize('S')]);
    assert!(!c.unused[r]);
    assert_eq!(c.multiplicity[r], Some(Requirement::AtLeast(2)));
    assert_eq!(c.multiplicity[Dictionary::uchar_to_usize('A')], None);
}

#[test]
fn gray_and_present_letter_is_exact() {
    let mut board = [[BoardElem::Empty; BOARD_COLS]; BOARD_ROWS];
    board[0] = [
        BoardElem::Yellow('E'),
        BoardElem::Gray('E'),
        BoardElem::Gray('R'),
        BoardElem::Gray('I'),
        BoardElem::Gray('E'),
    ];
    let c = extract_constraints(&board);
    let e = Dictionary::uchar_to_usize('E');
    assert_eq!(c.multiplicity[e], Some(Requirement::Exactly(1)));
    assert!(!c.unused[e]);
    assert!(c.unused[Dictionary::uchar_to_usize('R')]);
}

#[test]
fn find_words_on_board() {
    let d = dict("crane\nstory\nsorry\nryots\nburnt");
    let board = crane_board();
    let ids = find_words(SolverArgs { board: &board, dictionary: &d });
    let words: Vec<String> = ids.into_iter().map(|id| d.get_word(id)).collect();
    assert_eq!(words, vec!["ryots", "sorry", "story"]);
}
