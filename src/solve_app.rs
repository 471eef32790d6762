//! Board-editing state around a dictionary: letters typed onto the board,
//! cell marks toggled, and the fitting words worked out on request.
use vstd::prelude::*;

use crate::board::{board_wf, cell_char, find_words, Board, BoardElem, SolverArgs, BOARD_COLS, BOARD_ROWS};
use crate::search::{is_search_result, Constraints};
use crate::letters::text_of_letters;
use crate::trie::{Dictionary, WordId};

verus! {

/// The cell is yellow or green with letter `c`.
pub open spec fn is_mark_of(e: BoardElem, c: char) -> bool {
    e == BoardElem::Yellow(c) || e == BoardElem::Green(c)
}

/// The mark a new letter `c` takes in column `col`: that of the first row,
/// from row `r` down, whose cell in the column is yellow or green with `c`;
/// gray where there is none.
pub open spec fn mark_from(b: Board, col: int, c: char, r: int) -> BoardElem
    decreases BOARD_ROWS - r,
{
    if r >= BOARD_ROWS || r < 0 {
        BoardElem::Gray(c)
    } else if is_mark_of(b@[r]@[col], c) {
        b@[r]@[col]
    } else {
        mark_from(b, col, c, r + 1)
    }
}

/// The mark a new letter takes holds that letter.
proof fn lemma_mark_letter(b: Board, col: int, c: char, r: int)
    ensures
        cell_char(mark_from(b, col, c, r)) == Some(c),
    decreases BOARD_ROWS - r,
{
    if 0 <= r < BOARD_ROWS && !is_mark_of(b@[r]@[col], c) {
        lemma_mark_letter(b, col, c, r + 1);
    }
}

/// Some cell of column `col` is green.
pub open spec fn column_has_green(b: Board, col: int) -> bool {
    exists|r: int| 0 <= r < BOARD_ROWS && (#[trigger] b@[r]@[col]) is Green
}

/// The mark that toggling the cell at (`rownum`, `colnum`) gives: gray turns
/// yellow; yellow turns green, or gray where the column already has a green
/// cell; green turns gray.
pub open spec fn next_mark(b: Board, rownum: int, colnum: int) -> BoardElem {
    match b@[rownum]@[colnum] {
        BoardElem::Gray(c) => BoardElem::Yellow(c),
        BoardElem::Yellow(c) => if column_has_green(b, colnum) {
            BoardElem::Gray(c)
        } else {
            BoardElem::Green(c)
        },
        BoardElem::Green(c) => BoardElem::Gray(c),
        BoardElem::Empty => BoardElem::Empty,
    }
}

/// Some cell of `row` other than column `colnum` is yellow or green with `c`.
pub open spec fn marked_elsewhere(row: [BoardElem; BOARD_COLS], colnum: int, c: char) -> bool {
    exists|k: int| 0 <= k < BOARD_COLS && k != colnum && is_mark_of(#[trigger] row@[k], c)
}

/// Toggling the cell at (`rownum`, `colnum`) also sets row `rn`'s cell in that
/// column: it holds the same letter, and either is that cell or its row marks
/// the letter present nowhere else.
pub open spec fn toggle_reaches(b: Board, rn: int, rownum: int, colnum: int) -> bool {
    let c = cell_char(b@[rownum]@[colnum]);
    &&& c is Some
    &&& cell_char(b@[rn]@[colnum]) == c
    &&& (rn == rownum || !marked_elsewhere(b@[rn], colnum, c->0))
}

/// The board after toggling the cell at (`rownum`, `colnum`).
pub open spec fn toggled(b: Board, rownum: int, colnum: int, after: Board) -> bool {
    forall|rn: int, k: int|
        0 <= rn < BOARD_ROWS && 0 <= k < BOARD_COLS ==> #[trigger] after@[rn]@[k] == if k == colnum
            && toggle_reaches(b, rn, rownum, colnum) {
            next_mark(b, rownum, colnum)
        } else {
            b@[rn]@[k]
        }
}

/// The row whose cell in column `colnum` toggling that column reaches, from
/// the cursor: the cursor's row where the column is before the cursor, else
/// the row above it, if any.
pub open spec fn toggle_col_row(cursor: (int, int), colnum: int) -> Option<int> {
    if colnum >= cursor.1 {
        if cursor.0 > 0 {
            Some(cursor.0 - 1)
        } else {
            None
        }
    } else {
        Some(cursor.0)
    }
}

/// `after` is `b` with the cell at (`rn`, `k`) set to `e`.
pub open spec fn board_set(b: Board, rn: int, k: int, e: BoardElem, after: Board) -> bool {
    forall|i: int, j: int|
        0 <= i < BOARD_ROWS && 0 <= j < BOARD_COLS ==> #[trigger] after@[i]@[j] == if i == rn && j == k {
            e
        } else {
            b@[i]@[j]
        }
}

/// Tells whether some cell of column `col` is green.
fn any_green(b: &Board, col: usize) -> (r: bool)
    requires
        col < BOARD_COLS,
    ensures
        r == column_has_green(*b, col as int),
{
    let mut rn: usize = 0;
    while rn < BOARD_ROWS
        invariant
            0 <= rn <= BOARD_ROWS,
            col < BOARD_COLS,
            forall|i: int| 0 <= i < rn ==> !((#[trigger] b@[i]@[col as int]) is Green),
        decreases BOARD_ROWS - rn,
    {
        if let BoardElem::Green(_) = b[rn][col] {
            return true;
        }
        rn += 1;
    }
    false
}

/// Tells whether some cell of `row` other than column `colnum` is yellow or
/// green with `c`.
fn elsewhere(row: &[BoardElem; BOARD_COLS], colnum: usize, c: char) -> (r: bool)
    ensures
        r == marked_elsewhere(*row, colnum as int, c),
{
    let mut k: usize = 0;
    while k < BOARD_COLS
        invariant
            0 <= k <= BOARD_COLS,
            forall|j: int| 0 <= j < k && j != colnum ==> !is_mark_of(#[trigger] row@[j], c),
        decreases BOARD_COLS - k,
    {
        if k != colnum {
            let hit = match row[k] {
                BoardElem::Yellow(oc) => oc == c,
                BoardElem::Green(oc) => oc == c,
                _ => false,
            };
            if hit {
                return true;
            }
        }
        k += 1;
    }
    false
}

/// The state of the solver application.
pub struct SolveApp {
    /// The current board.
    pub board: Board,
    pub(crate) row: usize,
    pub(crate) col: usize,
    pub(crate) dictionary: Dictionary,
    pub(crate) words: Option<Vec<WordId>>,
}

impl SolveApp {
    /// The cursor: the row and the column the next letter goes to.
    pub closed spec fn cursor(&self) -> (int, int) {
        (self.row as int, self.col as int)
    }

    /// The words last worked out, if any.
    pub closed spec fn found(&self) -> Option<Seq<WordId>> {
        match self.words {
            Some(ws) => Some(ws@),
            None => None,
        }
    }

    /// The board.
    pub closed spec fn cells(&self) -> Board {
        self.board
    }

    /// The dictionary searched.
    pub closed spec fn dict(&self) -> Dictionary {
        self.dictionary
    }

    /// The board holds upper case letters, the cursor is on it or just past
    /// its last row, and the words worked out name words of the dictionary.
    pub closed spec fn wf(&self) -> bool {
        &&& self.dictionary.wf()
        &&& board_wf(self.board)
        &&& self.row <= BOARD_ROWS
        &&& self.col < BOARD_COLS
        &&& self.row == BOARD_ROWS ==> self.col == 0
        &&& match self.words {
            Some(ws) => forall|k: int| 0 <= k < ws@.len() ==> self.dictionary.valid_id(#[trigger] ws@[k]),
            None => true,
        }
    }

    /// What well-formedness gives callers: the cursor is on the board or at
    /// the start of the row past it, the board holds upper case letters, the
    /// dictionary is well formed, and the words last worked out name words of it.
    pub proof fn lemma_wf(&self)
        requires
            self.wf(),
        ensures
            0 <= self.cursor().0 <= BOARD_ROWS,
            0 <= self.cursor().1 < BOARD_COLS,
            self.cursor().0 == BOARD_ROWS ==> self.cursor().1 == 0,
            self.dict().wf(),
            board_wf(self.cells()),
            match self.found() {
                Some(ws) => forall|k: int| 0 <= k < ws.len() ==> self.dict().valid_id(#[trigger] ws[k]),
                None => true,
            },
    {
    }

    /// A fresh application: an empty board, the cursor at its first cell, no
    /// words worked out.
    pub fn new(dictionary: Dictionary) -> (r: SolveApp)
        requires
            dictionary.wf(),
        ensures
            r.wf(),
            r.cursor() == (0int, 0int),
            r.found() is None,
            r.dict() == dictionary,
            forall|rn: int, k: int|
                0 <= rn < BOARD_ROWS && 0 <= k < BOARD_COLS ==> #[trigger] r.cells()@[rn]@[k] == BoardElem::Empty,
    {
        let r = SolveApp {
            board: [[BoardElem::Empty; BOARD_COLS]; BOARD_ROWS],
            row: 0,
            col: 0,
            dictionary,
            words: None,
        };
        proof {
            assert forall|rn: int, k: int|
                0 <= rn < BOARD_ROWS && 0 <= k < BOARD_COLS implies #[trigger] r.board@[rn]@[k] == BoardElem::Empty by {
                assert(r.board@[rn] == [BoardElem::Empty; BOARD_COLS]);
            }
        }
        r
    }

    /// Types letter `c` at the cursor, with the mark of the first row whose
    /// cell in that column is yellow or green with `c` (gray where none is),
    /// and moves the cursor on; false, with nothing changed, where the board
    /// is full.
    pub fn add(&mut self, c: char) -> (r: bool)
        requires
            old(self).wf(),
            'A' <= c <= 'Z',
        ensures
            final(self).wf(),
            final(self).dict() == old(self).dict(),
            final(self).found() == old(self).found(),
            r == (old(self).cursor().0 < BOARD_ROWS),
            !r ==> final(self).cells() == old(self).cells() && final(self).cursor() == old(self).cursor(),
            r ==> board_set(
                old(self).cells(),
                old(self).cursor().0,
                old(self).cursor().1,
                mark_from(old(self).cells(), old(self).cursor().1, c, 0),
                final(self).cells(),
            ),
            r ==> final(self).cursor() == if old(self).cursor().1 + 1 == BOARD_COLS {
                (old(self).cursor().0 + 1, 0int)
            } else {
                (old(self).cursor().0, old(self).cursor().1 + 1)
            },
    {
        if self.row >= BOARD_ROWS {
            return false;
        }
        let col = self.col;
        let mut found: Option<BoardElem> = None;
        let mut r: usize = 0;
        while r < BOARD_ROWS
            invariant
                0 <= r <= BOARD_ROWS,
                col < BOARD_COLS,
                found is None ==> mark_from(self.board, col as int, c, 0) == mark_from(self.board, col as int, c, r as int),
                found is Some ==> mark_from(self.board, col as int, c, 0) == found->0,
            decreases BOARD_ROWS - r,
        {
            let e = self.board[r][col];
            if found.is_none() {
                let hit = match e {
                    BoardElem::Yellow(oc) => oc == c,
                    BoardElem::Green(oc) => oc == c,
                    _ => false,
                };
                if hit {
                    found = Some(e);
                }
            }
            r += 1;
        }
        let mark = match found {
            Some(e) => e,
            None => BoardElem::Gray(c),
        };
        let ghost b0 = self.board;
        proof {
            lemma_mark_letter(b0, col as int, c, 0);
        }
        let mut row = self.board[self.row];
        row[col] = mark;
        self.board[self.row] = row;
        self.col = self.col + 1;
        if self.col == BOARD_COLS {
            self.col = 0;
            self.row = self.row + 1;
        }
        proof {
            assert forall|i: int, j: int|
                0 <= i < BOARD_ROWS && 0 <= j < BOARD_COLS implies match cell_char(#[trigger] self.board@[i]@[j]) {
                    Some(ch) => 'A' <= ch <= 'Z',
                    None => true,
                } by {
                assert(match cell_char(b0@[i]@[j]) {
                    Some(ch) => 'A' <= ch <= 'Z',
                    None => true,
                });
            }
        }
        true
    }

    /// Clears the cell before the cursor and moves the cursor back onto it;
    /// false, with nothing changed, at the first cell.
    pub fn remove(&mut self) -> (r: bool)
        requires
            old(self).wf(),
        ensures
            final(self).wf(),
            final(self).dict() == old(self).dict(),
            final(self).found() == old(self).found(),
            r == (old(self).cursor().1 > 0 || old(self).cursor().0 > 0),
            !r ==> final(self).cells() == old(self).cells() && final(self).cursor() == old(self).cursor(),
            r ==> final(self).cursor() == if old(self).cursor().1 > 0 {
                (old(self).cursor().0, old(self).cursor().1 - 1)
            } else {
                (old(self).cursor().0 - 1, BOARD_COLS - 1)
            },
            r ==> board_set(
                old(self).cells(),
                final(self).cursor().0,
                final(self).cursor().1,
                BoardElem::Empty,
                final(self).cells(),
            ),
    {
        if self.col > 0 {
            self.col = self.col - 1;
        } else if self.row > 0 {
            self.row = self.row - 1;
            self.col = BOARD_COLS - 1;
        } else {
            return false;
        }
        let ghost b0 = self.board;
        let mut row = self.board[self.row];
        row[self.col] = BoardElem::Empty;
        self.board[self.row] = row;
        proof {
            assert forall|i: int, j: int|
                0 <= i < BOARD_ROWS && 0 <= j < BOARD_COLS implies match cell_char(#[trigger] self.board@[i]@[j]) {
                    Some(ch) => 'A' <= ch <= 'Z',
                    None => true,
                } by {
                assert(match cell_char(b0@[i]@[j]) {
                    Some(ch) => 'A' <= ch <= 'Z',
                    None => true,
                });
            }
        }
        true
    }

    /// Works out the words that fit the board, once a row is complete;
    /// before that, clears them.
    pub fn calculate(&mut self)
        requires
            old(self).wf(),
        ensures
            final(self).wf(),
            final(self).dict() == old(self).dict(),
            final(self).cells() == old(self).cells(),
            final(self).cursor() == old(self).cursor(),
            old(self).cursor().0 == 0 ==> final(self).found() is None,
            old(self).cursor().0 > 0 ==> {
                &&& final(self).found() is Some
                &&& exists|c: Constraints|
                    c.wf() && c.describes(old(self).cells()) && is_search_result(
                        &old(self).dict(),
                        &c,
                        final(self).found()->0,
                    )
            },
    {
        if self.row > 0 {
            let args = SolverArgs { board: &self.board, dictionary: &self.dictionary };
            let ws = find_words(args);
            self.words = Some(ws);
        } else {
            self.words = None;
        }
    }

    /// Number of words last worked out; none before any.
    pub fn word_count(&self) -> (r: usize)
        requires
            self.wf(),
        ensures
            r == match self.found() {
                Some(ws) => ws.len(),
                None => 0,
            },
    {
        match &self.words {
            Some(words) => words.len(),
            None => 0,
        }
    }

    /// The word at index `elem` among those last worked out, in lower case.
    pub fn get_word(&self, elem: usize) -> (r: Option<String>)
        requires
            self.wf(),
        ensures
            match self.found() {
                Some(ws) => if elem < ws.len() {
                    r is Some && r->0@ == text_of_letters(self.dict().word_of(ws[elem as int]))
                } else {
                    r is None
                },
                None => r is None,
            },
    {
        match &self.words {
            Some(words) => {
                if elem < words.len() {
                    Some(self.dictionary.get_word(words[elem]))
                } else {
                    None
                }
            },
            None => None,
        }
    }

    /// Toggles the mark of the cell at (`rownum`, `colnum`), and sets the
    /// same mark on that column's cells holding its letter in the rows that
    /// mark the letter present nowhere else; false, with nothing changed,
    /// where the cell is empty.
    pub fn toggle(&mut self, rownum: usize, colnum: usize) -> (r: bool)
        requires
            old(self).wf(),
            rownum < BOARD_ROWS,
            colnum < BOARD_COLS,
        ensures
            final(self).wf(),
            final(self).dict() == old(self).dict(),
            final(self).found() == old(self).found(),
            final(self).cursor() == old(self).cursor(),
            r == (old(self).cells()@[rownum as int]@[colnum as int] != BoardElem::Empty),
            !r ==> final(self).cells() == old(self).cells(),
            r ==> toggled(old(self).cells(), rownum as int, colnum as int, final(self).cells()),
    {
        let cell = self.board[rownum][colnum];
        let c = match cell {
            BoardElem::Gray(c) => c,
            BoardElem::Yellow(c) => c,
            BoardElem::Green(c) => c,
            BoardElem::Empty => {
                return false;
            },
        };
        let new = match cell {
            BoardElem::Gray(c) => BoardElem::Yellow(c),
            BoardElem::Yellow(c) => if any_green(&self.board, colnum) {
                BoardElem::Gray(c)
            } else {
                BoardElem::Green(c)
            },
            _ => BoardElem::Gray(c),
        };
        let ghost b0 = self.board;
        proof {
            assert(new == next_mark(b0, rownum as int, colnum as int));
            assert(match cell_char(b0@[rownum as int]@[colnum as int]) {
                Some(ch) => 'A' <= ch <= 'Z',
                None => true,
            });
        }
        let mut rn: usize = 0;
        while rn < BOARD_ROWS
            invariant
                0 <= rn <= BOARD_ROWS,
                rownum < BOARD_ROWS,
                colnum < BOARD_COLS,
                cell_char(b0@[rownum as int]@[colnum as int]) == Some(c),
                'A' <= c <= 'Z',
                new == next_mark(b0, rownum as int, colnum as int),
                board_wf(b0),
                self.dictionary == old(self).dictionary,
                self.words == old(self).words,
                self.row == old(self).row,
                self.col == old(self).col,
                b0 == old(self).board,
                forall|i: int, j: int|
                    0 <= i < rn && 0 <= j < BOARD_COLS ==> #[trigger] self.board@[i]@[j] == if j == colnum
                        && toggle_reaches(b0, i, rownum as int, colnum as int) {
                        next_mark(b0, rownum as int, colnum as int)
                    } else {
                        b0@[i]@[j]
                    },
                forall|i: int| rn <= i < BOARD_ROWS ==> #[trigger] self.board@[i] == b0@[i],
            decreases BOARD_ROWS - rn,
        {
            let mut row = self.board[rn];
            let same = match row[colnum] {
                BoardElem::Gray(oc) => oc == c,
                BoardElem::Yellow(oc) => oc == c,
                BoardElem::Green(oc) => oc == c,
                BoardElem::Empty => false,
            };
            if same && (rn == rownum || !elsewhere(&row, colnum, c)) {
                row[colnum] = new;
                self.board[rn] = row;
            }
            rn += 1;
        }
        proof {
            assert forall|i: int, j: int|
                0 <= i < BOARD_ROWS && 0 <= j < BOARD_COLS implies match cell_char(#[trigger] self.board@[i]@[j]) {
                    Some(ch) => 'A' <= ch <= 'Z',
                    None => true,
                } by {
                assert(match cell_char(b0@[i]@[j]) {
                    Some(ch) => 'A' <= ch <= 'Z',
                    None => true,
                });
            }
        }
        true
    }

    /// Toggles column `colnum` on the row that `toggle_col_row` picks from
    /// the cursor; false, with nothing changed, where the column is off the
    /// board, no row is picked, or the cell is empty.
    pub fn toggle_col(&mut self, colnum: usize) -> (r: bool)
        requires
            old(self).wf(),
        ensures
            final(self).wf(),
            final(self).dict() == old(self).dict(),
            final(self).found() == old(self).found(),
            final(self).cursor() == old(self).cursor(),
            match toggle_col_row(old(self).cursor(), colnum as int) {
                Some(rn) => if colnum < BOARD_COLS {
                    &&& r == (old(self).cells()@[rn]@[colnum as int] != BoardElem::Empty)
                    &&& !r ==> final(self).cells() == old(self).cells()
                    &&& r ==> toggled(old(self).cells(), rn, colnum as int, final(self).cells())
                } else {
                    !r && final(self).cells() == old(self).cells()
                },
                None => !r && final(self).cells() == old(self).cells(),
            },
    {
        let rownum = if colnum >= self.col {
            if self.row > 0 {
                Some(self.row - 1)
            } else {
                None
            }
        } else {
            Some(self.row)
        };
        if colnum < BOARD_COLS {
            match rownum {
                Some(rownum) => self.toggle(rownum, colnum),
                None => false,
            }
        } else {
            false
        }
    }
}

} // verus!
