//! The puzzle board and the constraints it gives.
use vstd::prelude::*;

use crate::letters::upper_num;
use crate::search::{is_search_result, search, Constraints, Requirement};
use crate::trie::{Dictionary, WordId};

verus! {

/// Number of columns on the board.
pub const BOARD_COLS: usize = 5;

/// Number of rows on the board.
pub const BOARD_ROWS: usize = 6;

/// One board cell.
#[derive(Clone, Copy, Debug, PartialEq, Eq, Structural)]
pub enum BoardElem {
    /// No letter.
    Empty,
    /// The letter is not in the solution.
    Gray(char),
    /// The letter is in the solution, elsewhere.
    Yellow(char),
    /// The letter is in the solution, here.
    Green(char),
}

/// A board: rows of guesses, each cell marked.
pub type Board = [[BoardElem; BOARD_COLS]; BOARD_ROWS];

/// What a search needs: the board and the dictionary to search.
pub struct SolverArgs<'a> {
    /// The current board.
    pub board: &'a Board,
    /// The dictionary to search.
    pub dictionary: &'a Dictionary,
}

/// The cell's letter, if it holds one.
pub open spec fn cell_char(e: BoardElem) -> Option<char> {
    match e {
        BoardElem::Empty => None,
        BoardElem::Gray(c) => Some(c),
        BoardElem::Yellow(c) => Some(c),
        BoardElem::Green(c) => Some(c),
    }
}

/// Every cell with a letter holds an upper case ASCII letter.
pub open spec fn board_wf(b: Board) -> bool {
    forall|r: int, k: int|
        0 <= r < BOARD_ROWS && 0 <= k < BOARD_COLS ==> match cell_char(#[trigger] b@[r]@[k]) {
            Some(c) => 'A' <= c <= 'Z',
            None => true,
        }
}

/// The cell is yellow or green with letter number `l`.
pub open spec fn marks_present(e: BoardElem, l: int) -> bool {
    match e {
        BoardElem::Yellow(c) => upper_num(c) == l,
        BoardElem::Green(c) => upper_num(c) == l,
        _ => false,
    }
}

/// How many of the first `upto` cells of a row are yellow or green with
/// letter number `l`.
pub open spec fn row_count(row: [BoardElem; BOARD_COLS], l: int, upto: int) -> nat
    decreases upto,
{
    if upto <= 0 {
        0
    } else {
        row_count(row, l, upto - 1) + if marks_present(row@[upto - 1], l) { 1nat } else { 0nat }
    }
}

/// The most times that one of the first `rows` rows marks letter `l` as present.
pub open spec fn max_count(b: Board, l: int, rows: int) -> nat
    decreases rows,
{
    if rows <= 0 {
        0
    } else {
        let before = max_count(b, l, rows - 1);
        let here = row_count(b@[rows - 1], l, BOARD_COLS as int);
        if here > before {
            here
        } else {
            before
        }
    }
}

/// The letter of the last green cell in column `k` among the first `rows` rows.
pub open spec fn green_at(b: Board, k: int, rows: int) -> Option<u8>
    decreases rows,
{
    if rows <= 0 {
        None
    } else {
        match b@[rows - 1]@[k] {
            BoardElem::Green(c) => Some(upper_num(c) as u8),
            _ => green_at(b, k, rows - 1),
        }
    }
}

/// Some cell of column `k` among the first `rows` rows is yellow with letter
/// number `l`.
pub open spec fn yellow_in(b: Board, k: int, l: int, rows: int) -> bool {
    exists|r: int| 0 <= r < rows && is_yellow_of(#[trigger] b@[r]@[k], l)
}

/// The cell is yellow with letter number `l`.
pub open spec fn is_yellow_of(e: BoardElem, l: int) -> bool {
    match e {
        BoardElem::Yellow(c) => upper_num(c) == l,
        _ => false,
    }
}

/// The cell is gray with letter number `l`.
pub open spec fn is_gray_of(e: BoardElem, l: int) -> bool {
    match e {
        BoardElem::Gray(c) => upper_num(c) == l,
        _ => false,
    }
}

/// Some cell among the first `rows` rows is gray with letter number `l`.
pub open spec fn gray_in(b: Board, l: int, rows: int) -> bool {
    exists|r: int, k: int|
        0 <= r < rows && 0 <= k < BOARD_COLS && is_gray_of(#[trigger] b@[r]@[k], l)
}

/// What the board says of letter `l`'s count: none where no cell marks it
/// present; where some does, at least the most that one row marks, or
/// exactly that where a cell also shows it gray.
pub open spec fn board_requirement(b: Board, l: int) -> Option<Requirement> {
    let n = max_count(b, l, BOARD_ROWS as int);
    if n == 0 {
        None
    } else if gray_in(b, l, BOARD_ROWS as int) {
        Some(Requirement::Exactly(n as u8))
    } else {
        Some(Requirement::AtLeast(n as u8))
    }
}

impl Constraints {
    /// The constraints that board `b` gives: per column the last green
    /// letter and the yellow letters; absent the letters shown gray and never
    /// present; count requirements from the rows.
    pub open spec fn describes(&self, b: Board) -> bool {
        &&& self.correct@.len() == BOARD_COLS
        &&& self.excluded@.len() == BOARD_COLS
        &&& forall|k: int| 0 <= k < BOARD_COLS ==> #[trigger] self.correct@[k] == green_at(b, k, BOARD_ROWS as int)
        &&& forall|k: int, l: int|
            0 <= k < BOARD_COLS && 0 <= l < 26 ==> #[trigger] self.excluded@[k]@[l] == yellow_in(b, k, l, BOARD_ROWS as int)
        &&& forall|l: int|
            0 <= l < 26 ==> #[trigger] self.unused@[l] == (gray_in(b, l, BOARD_ROWS as int) && max_count(b, l, BOARD_ROWS as int) == 0)
        &&& forall|l: int| 0 <= l < 26 ==> #[trigger] self.multiplicity@[l] == board_requirement(b, l)
    }
}

/// Folds one row of the board into the per-column and per-letter state.
fn scan_row(
    b: &Board,
    r: usize,
    correct: &mut Vec<Option<u8>>,
    excluded: &mut Vec<[bool; 26]>,
    gray: &mut [bool; 26],
) -> (here: [u8; 26])
    requires
        board_wf(*b),
        r < BOARD_ROWS,
        old(correct)@.len() == BOARD_COLS,
        old(excluded)@.len() == BOARD_COLS,
        forall|k: int| 0 <= k < BOARD_COLS ==> #[trigger] old(correct)@[k] == green_at(*b, k, r as int),
        forall|k: int, l: int|
            0 <= k < BOARD_COLS && 0 <= l < 26 ==> #[trigger] old(excluded)@[k]@[l] == yellow_in(*b, k, l, r as int),
        forall|l: int| 0 <= l < 26 ==> #[trigger] old(gray)@[l] == gray_in(*b, l, r as int),
    ensures
        final(correct)@.len() == BOARD_COLS,
        final(excluded)@.len() == BOARD_COLS,
        forall|k: int| 0 <= k < BOARD_COLS ==> #[trigger] final(correct)@[k] == green_at(*b, k, r + 1),
        forall|k: int, l: int|
            0 <= k < BOARD_COLS && 0 <= l < 26 ==> #[trigger] final(excluded)@[k]@[l] == yellow_in(*b, k, l, r + 1),
        forall|l: int| 0 <= l < 26 ==> #[trigger] final(gray)@[l] == gray_in(*b, l, r + 1),
        forall|l: int| 0 <= l < 26 ==> #[trigger] here@[l] == row_count(b@[r as int], l, BOARD_COLS as int),
        forall|l: int| 0 <= l < 26 ==> #[trigger] here@[l] <= BOARD_COLS,
{
    let row = b[r];
    let mut here = [0u8; 26];
    let mut k: usize = 0;
    while k < BOARD_COLS
        invariant
            board_wf(*b),
            r < BOARD_ROWS,
            row == b@[r as int],
            0 <= k <= BOARD_COLS,
            correct@.len() == BOARD_COLS,
            excluded@.len() == BOARD_COLS,
            forall|j: int| 0 <= j < k ==> #[trigger] correct@[j] == green_at(*b, j, r + 1),
            forall|j: int| k <= j < BOARD_COLS ==> #[trigger] correct@[j] == green_at(*b, j, r as int),
            forall|j: int, l: int|
                0 <= j < k && 0 <= l < 26 ==> #[trigger] excluded@[j]@[l] == yellow_in(*b, j, l, r + 1),
            forall|j: int, l: int|
                k <= j < BOARD_COLS && 0 <= l < 26 ==> #[trigger] excluded@[j]@[l] == yellow_in(*b, j, l, r as int),
            forall|l: int|
                0 <= l < 26 ==> #[trigger] gray@[l] == (gray_in(*b, l, r as int) || exists|j: int|
                    0 <= j < k && is_gray_of(#[trigger] row@[j], l)),
            forall|l: int| 0 <= l < 26 ==> #[trigger] here@[l] == row_count(row, l, k as int),
            forall|l: int| 0 <= l < 26 ==> #[trigger] here@[l] <= k,
        decreases BOARD_COLS - k,
    {
        let e = row[k];
        let ghost g0 = *gray;
        let ghost x0 = *excluded;
        let ghost c0 = *correct;
        proof {
            assert(match cell_char(b@[r as int]@[k as int]) {
                Some(c) => 'A' <= c <= 'Z',
                None => true,
            });
        }
        match e {
            BoardElem::Gray(ch) => {
                gray[Dictionary::uchar_to_usize(ch)] = true;
            },
            BoardElem::Yellow(ch) => {
                let l = Dictionary::uchar_to_usize(ch);
                let mut col = excluded[k];
                col[l] = true;
                excluded.set(k, col);
                here[l] = here[l] + 1;
            },
            BoardElem::Green(ch) => {
                let l = Dictionary::uchar_to_usize(ch);
                correct.set(k, Some(Dictionary::uchar_to_u8(ch)));
                here[l] = here[l] + 1;
            },
            BoardElem::Empty => {},
        }
        proof {
            let kk = k as int;
            assert forall|l: int| 0 <= l < 26 implies #[trigger] here@[l] == row_count(row, l, kk + 1) by {
                assert(row_count(row, l, kk + 1) == row_count(row, l, kk) + if marks_present(row@[kk], l) { 1nat } else { 0nat });
            }
            assert forall|l: int|
                0 <= l < 26 implies #[trigger] gray@[l] == (gray_in(*b, l, r as int) || exists|j: int|
                    0 <= j < kk + 1 && is_gray_of(#[trigger] row@[j], l)) by {
                if is_gray_of(row@[kk], l) {
                    assert(gray@[l]);
                }
                if exists|j: int| 0 <= j < kk + 1 && is_gray_of(#[trigger] row@[j], l) {
                    let j = choose|j: int| 0 <= j < kk + 1 && is_gray_of(#[trigger] row@[j], l);
                    if j < kk {
                        assert(g0@[l]);
                    }
                }
                if g0@[l] {
                    if !gray_in(*b, l, r as int) {
                        let j = choose|j: int| 0 <= j < kk && is_gray_of(#[trigger] row@[j], l);
                        assert(0 <= j < kk + 1 && is_gray_of(row@[j], l));
                    }
                }
            }
            assert forall|j: int, l: int|
                0 <= j < kk + 1 && 0 <= l < 26 implies #[trigger] excluded@[j]@[l] == yellow_in(*b, j, l, r + 1) by {
                if j == kk {
                    if yellow_in(*b, j, l, r + 1) && !is_yellow_of(row@[kk], l) {
                        let q = choose|q: int| 0 <= q < r + 1 && is_yellow_of(#[trigger] b@[q]@[j], l);
                        assert(q < r);
                        assert(yellow_in(*b, j, l, r as int));
                    }
                    if yellow_in(*b, j, l, r as int) {
                        let q = choose|q: int| 0 <= q < r && is_yellow_of(#[trigger] b@[q]@[j], l);
                        assert(0 <= q < r + 1);
                    }
                    if is_yellow_of(row@[kk], l) {
                        assert(is_yellow_of(b@[r as int]@[j], l));
                    }
                } else {
                    assert(excluded@[j] == x0@[j]);
                }
            }
            assert forall|j: int, l: int|
                kk + 1 <= j < BOARD_COLS && 0 <= l < 26 implies #[trigger] excluded@[j]@[l] == yellow_in(*b, j, l, r as int) by {
                assert(excluded@[j] == x0@[j]);
            }
            assert forall|j: int| 0 <= j < kk + 1 implies #[trigger] correct@[j] == green_at(*b, j, r + 1) by {
                if j < kk {
                    assert(correct@[j] == c0@[j]);
                }
            }
            assert forall|j: int| kk + 1 <= j < BOARD_COLS implies #[trigger] correct@[j] == green_at(*b, j, r as int) by {
                assert(correct@[j] == c0@[j]);
            }
        }
        k += 1;
    }
    proof {
        assert forall|l: int| 0 <= l < 26 implies #[trigger] gray@[l] == gray_in(*b, l, r + 1) by {
            if gray_in(*b, l, r + 1) {
                let (q, j) = choose|q: int, j: int|
                    0 <= q < r + 1 && 0 <= j < BOARD_COLS && is_gray_of(#[trigger] b@[q]@[j], l);
                if q < r {
                    assert(gray_in(*b, l, r as int));
                } else {
                    assert(is_gray_of(row@[j], l));
                }
            }
            if gray_in(*b, l, r as int) {
                let (q, j) = choose|q: int, j: int|
                    0 <= q < r && 0 <= j < BOARD_COLS && is_gray_of(#[trigger] b@[q]@[j], l);
                assert(0 <= q < r + 1 && 0 <= j < BOARD_COLS && is_gray_of(b@[q]@[j], l));
            }
            if exists|j: int| 0 <= j < BOARD_COLS && is_gray_of(#[trigger] row@[j], l) {
                let j = choose|j: int| 0 <= j < BOARD_COLS && is_gray_of(#[trigger] row@[j], l);
                assert(is_gray_of(b@[r as int]@[j], l));
            }
        }
    }
    here
}

/// The constraints that board `b` gives.
pub fn extract_constraints(b: &Board) -> (c: Constraints)
    requires
        board_wf(*b),
    ensures
        c.wf(),
        c.describes(*b),
        forall|k: int|
            0 <= k < BOARD_COLS && (#[trigger] c.correct@[k]) is Some ==> !c.unused@[c.correct@[k]->0 as int],
{
    let mut correct: Vec<Option<u8>> = Vec::new();
    let mut excluded: Vec<[bool; 26]> = Vec::new();
    let mut k: usize = 0;
    while k < BOARD_COLS
        invariant
            0 <= k <= BOARD_COLS,
            correct@.len() == k,
            excluded@.len() == k,
            forall|j: int| 0 <= j < k ==> #[trigger] correct@[j] == green_at(*b, j, 0),
            forall|j: int, l: int| 0 <= j < k && 0 <= l < 26 ==> #[trigger] excluded@[j]@[l] == yellow_in(*b, j, l, 0),
        decreases BOARD_COLS - k,
    {
        correct.push(None);
        excluded.push([false; 26]);
        k += 1;
    }
    let mut gray = [false; 26];
    let mut most = [0u8; 26];
    let mut r: usize = 0;
    while r < BOARD_ROWS
        invariant
            board_wf(*b),
            0 <= r <= BOARD_ROWS,
            correct@.len() == BOARD_COLS,
            excluded@.len() == BOARD_COLS,
            forall|j: int| 0 <= j < BOARD_COLS ==> #[trigger] correct@[j] == green_at(*b, j, r as int),
            forall|j: int, l: int|
                0 <= j < BOARD_COLS && 0 <= l < 26 ==> #[trigger] excluded@[j]@[l] == yellow_in(*b, j, l, r as int),
            forall|l: int| 0 <= l < 26 ==> #[trigger] gray@[l] == gray_in(*b, l, r as int),
            forall|l: int| 0 <= l < 26 ==> #[trigger] most@[l] == max_count(*b, l, r as int),
            forall|l: int| 0 <= l < 26 ==> #[trigger] most@[l] <= BOARD_COLS,
        decreases BOARD_ROWS - r,
    {
        let here = scan_row(b, r, &mut correct, &mut excluded, &mut gray);
        let mut l: usize = 0;
        while l < 26
            invariant
                0 <= l <= 26,
                r < BOARD_ROWS,
                forall|m: int| 0 <= m < l ==> #[trigger] most@[m] == max_count(*b, m, r + 1),
                forall|m: int| l <= m < 26 ==> #[trigger] most@[m] == max_count(*b, m, r as int),
                forall|m: int| 0 <= m < 26 ==> #[trigger] most@[m] <= BOARD_COLS,
                forall|m: int| 0 <= m < 26 ==> #[trigger] here@[m] == row_count(b@[r as int], m, BOARD_COLS as int),
                forall|m: int| 0 <= m < 26 ==> #[trigger] here@[m] <= BOARD_COLS,
            decreases 26 - l,
        {
            if here[l] > most[l] {
                most[l] = here[l];
            }
            l += 1;
        }
        r += 1;
    }
    let mut unused = [false; 26];
    let mut multiplicity: [Option<Requirement>; 26] = [None; 26];
    let mut l: usize = 0;
    while l < 26
        invariant
            0 <= l <= 26,
            forall|m: int| 0 <= m < 26 ==> #[trigger] gray@[m] == gray_in(*b, m, BOARD_ROWS as int),
            forall|m: int| 0 <= m < 26 ==> #[trigger] most@[m] == max_count(*b, m, BOARD_ROWS as int),
            forall|m: int|
                0 <= m < l ==> #[trigger] unused@[m] == (gray_in(*b, m, BOARD_ROWS as int) && max_count(*b, m, BOARD_ROWS as int) == 0),
            forall|m: int| 0 <= m < l ==> #[trigger] multiplicity@[m] == board_requirement(*b, m),
            forall|m: int| l <= m < 26 ==> !#[trigger] unused@[m],
            forall|m: int| l <= m < 26 ==> #[trigger] multiplicity@[m] == None::<Requirement>,
        decreases 26 - l,
    {
        if most[l] > 0 {
            multiplicity[l] = Some(
                if gray[l] {
                    Requirement::Exactly(most[l])
                } else {
                    Requirement::AtLeast(most[l])
                },
            );
        } else {
            unused[l] = gray[l];
        }
        l += 1;
    }
    let c = Constraints { correct, excluded, unused, multiplicity };
    proof {
        assert forall|i: int| 0 <= i < c.correct@.len() && (#[trigger] c.correct@[i]) is Some implies c.correct@[i]->0 < 26 by {
            lemma_green_letter(*b, i, BOARD_ROWS as int);
        }
        assert forall|k: int|
            0 <= k < BOARD_COLS && (#[trigger] c.correct@[k]) is Some implies !c.unused@[c.correct@[k]->0 as int] by {
            lemma_green_letter(*b, k, BOARD_ROWS as int);
            lemma_green_counted(*b, k, BOARD_ROWS as int);
        }
    }
    c
}

/// A row cell marked present with `l` counts toward the row's count of `l`.
proof fn lemma_row_count_positive(row: [BoardElem; BOARD_COLS], l: int, k: int, upto: int)
    requires
        0 <= k < upto,
        marks_present(row@[k], l),
    ensures
        row_count(row, l, upto) > 0,
    decreases upto,
{
    if upto - 1 > k {
        lemma_row_count_positive(row, l, k, upto - 1);
    }
}

/// A letter green somewhere is marked present in some row.
proof fn lemma_green_counted(b: Board, k: int, rows: int)
    requires
        0 <= k < BOARD_COLS,
        0 <= rows <= BOARD_ROWS,
        green_at(b, k, rows) is Some,
        board_wf(b),
    ensures
        max_count(b, green_at(b, k, rows)->0 as int, rows) > 0,
    decreases rows,
{
    let e = b@[rows - 1]@[k];
    assert(match cell_char(e) {
        Some(c) => 'A' <= c <= 'Z',
        None => true,
    });
    if let BoardElem::Green(c) = e {
        lemma_row_count_positive(b@[rows - 1], upper_num(c), k, BOARD_COLS as int);
    } else {
        lemma_green_counted(b, k, rows - 1);
    }
}

/// A green letter is a letter number.
proof fn lemma_green_letter(b: Board, k: int, rows: int)
    requires
        board_wf(b),
        0 <= k < BOARD_COLS,
        rows <= BOARD_ROWS,
    ensures
        green_at(b, k, rows) is Some ==> green_at(b, k, rows)->0 < 26,
    decreases rows,
{
    if rows > 0 {
        assert(match cell_char(b@[rows - 1]@[k]) {
            Some(c) => 'A' <= c <= 'Z',
            None => true,
        });
        lemma_green_letter(b, k, rows - 1);
    }
}

/// The words of the dictionary that fit the board, in increasing order.
pub fn find_words(args: SolverArgs) -> (r: Vec<WordId>)
    requires
        args.dictionary.wf(),
        board_wf(*args.board),
    ensures
        exists|c: Constraints| c.wf() && c.describes(*args.board) && is_search_result(args.dictionary, &c, r@),
{
    let c = extract_constraints(args.board);
    search(args.dictionary, &c)
}

} // verus!
