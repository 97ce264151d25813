//! A generalized N x N tic-tac-toe rules engine.
//!
//! A [`TicTacToe`] board tracks an arbitrary square grid of [`Mark`]s, the
//! mark expected to move next, and the number of consecutive equal marks a
//! player needs to win.  Moves land only on empty cells (a move onto an
//! occupied cell is a silent no-op), and the winner query scans every row,
//! column and diagonal for a long enough run of one player's marks.

use vstd::prelude::*;

mod render;
mod winner;

verus! {

/// A cell's contents; also used as the indicator of whose turn it is.
#[derive(Clone, Copy, Debug, PartialEq, Eq, Structural)]
pub enum Mark {
    Empty,
    Nought,
    Cross,
}

/// The character a mark is drawn with: noughts as `'0'` (the digit zero),
/// crosses as `'X'`, empty cells as a space.
pub open spec fn mark_symbol(m: Mark) -> char {
    match m {
        Mark::Nought => '0',
        Mark::Cross => 'X',
        Mark::Empty => ' ',
    }
}

/// An N x N board with a configurable run length needed to win.
///
/// Cells are stored row-major: the cell at `(row, col)` lives at index
/// `row * board_size + col`.
pub struct TicTacToe {
    board_size: u8,
    marks_needed_for_win: u8,
    mark_in_turn: Mark,
    cells: Vec<Mark>,
}

impl TicTacToe {
    /// The side length of the board.
    pub closed spec fn size(&self) -> int {
        self.board_size as int
    }

    /// How many consecutive equal marks complete a winning run.
    pub closed spec fn win_length(&self) -> int {
        self.marks_needed_for_win as int
    }

    /// The mark expected to move next.
    pub closed spec fn turn(&self) -> Mark {
        self.mark_in_turn
    }

    /// The grid as a sequence of cells, row-major.
    pub closed spec fn grid(&self) -> Seq<Mark> {
        self.cells@
    }

    /// The board always holds exactly `size * size` cells.
    pub open spec fn wf(&self) -> bool {
        self.grid().len() == self.size() * self.size()
    }

    /// Whether `(row, col)` lies on the board.
    pub open spec fn in_bounds(&self, row: int, col: int) -> bool {
        0 <= row < self.size() && 0 <= col < self.size()
    }

    /// The mark at `(row, col)`.
    pub open spec fn cell(&self, row: int, col: int) -> Mark {
        self.grid()[row * self.size() + col]
    }

    /// Creates a board of `board_size * board_size` empty cells, recording
    /// the win threshold and which mark moves first.  Neither `board_size`
    /// nor `marks_needed_for_win` is validated: a threshold larger than the
    /// board merely makes a win unreachable.
    pub fn new(board_size: u8, marks_needed_for_win: u8, mark_in_turn: Mark) -> (board: TicTacToe)
        ensures
            board.wf(),
            board.size() == board_size,
            board.win_length() == marks_needed_for_win,
            board.turn() == mark_in_turn,
            forall|i: int| 0 <= i < board.grid().len() ==> board.grid()[i] == Mark::Empty,
    {
        proof {
            assert((board_size as int) * (board_size as int) <= 255 * 255) by (nonlinear_arith)
                requires
                    board_size as int <= 255,
            ;
        }
        let n: usize = (board_size as usize) * (board_size as usize);
        let mut cells: Vec<Mark> = Vec::new();
        while cells.len() < n
            invariant
                cells@.len() <= n,
                forall|i: int| 0 <= i < cells@.len() ==> cells@[i] == Mark::Empty,
            decreases n - cells@.len(),
        {
            cells.push(Mark::Empty);
        }
        TicTacToe { board_size, marks_needed_for_win, mark_in_turn, cells }
    }

    /// Returns the mark expected to move next; the board is unchanged.
    pub fn whos_turn(&self) -> (m: Mark)
        ensures
            m == self.turn(),
    {
        self.mark_in_turn
    }

    /// The symbol of the mark expected to move next.
    pub fn get_turn_mark(&self) -> (c: char)
        ensures
            c == mark_symbol(self.turn()),
    {
        TicTacToe::get_mark_symbol(self.mark_in_turn)
    }

    /// The drawing symbol of a mark.
    fn get_mark_symbol(mark: Mark) -> (c: char)
        ensures
            c == mark_symbol(mark),
    {
        match mark {
            Mark::Nought => '0',
            Mark::Cross => 'X',
            _ => ' ',
        }
    }

    /// The flat index of `(row, col)` in the row-major cell sequence.
    fn get_cell_index(&self, row: u8, col: u8) -> (idx: usize)
        requires
            self.wf(),
            self.in_bounds(row as int, col as int),
        ensures
            idx == row as int * self.size() + col as int,
            idx < self.grid().len(),
    {
        proof {
            lemma_cell_index_bounds(self.size(), row as int, col as int);
            assert((row as int) * (self.board_size as int) <= 255 * 255) by (nonlinear_arith)
                requires
                    0 <= row as int <= 255,
                    0 <= self.board_size as int <= 255,
            ;
        }
        (row as usize) * (self.board_size as usize) + (col as usize)
    }

    /// Plays `mark` at `(row, col)`.  If the target cell is empty, the mark
    /// is placed there and the turn flips: a nought hands the turn to
    /// crosses, anything else hands it to noughts.  If the target cell is
    /// already occupied, nothing changes at all.
    pub fn make_move(&mut self, row: u8, col: u8, mark: Mark)
        requires
            old(self).wf(),
            old(self).in_bounds(row as int, col as int),
            mark != Mark::Empty,
        ensures
            final(self).wf(),
            final(self).size() == old(self).size(),
            final(self).win_length() == old(self).win_length(),
            old(self).cell(row as int, col as int) == Mark::Empty ==> {
                &&& final(self).grid()
                    == old(self).grid().update(row as int * old(self).size() + col as int, mark)
                &&& final(self).turn()
                    == (if mark == Mark::Nought { Mark::Cross } else { Mark::Nought })
            },
            old(self).cell(row as int, col as int) != Mark::Empty ==> *final(self) == *old(self),
    {
        let idx = self.get_cell_index(row, col);
        if self.cells[idx] == Mark::Empty {
            self.cells[idx] = mark;
            self.mark_in_turn = match mark {
                Mark::Nought => Mark::Cross,
                _ => Mark::Nought,
            };
        }
    }
}

/// A row-major index computed from on-board coordinates lands inside the
/// `size * size` cell sequence.
pub(crate) proof fn lemma_cell_index_bounds(size: int, row: int, col: int)
    requires
        0 <= row < size,
        0 <= col < size,
    ensures
        0 <= row * size + col < size * size,
{
    assert(0 <= row * size + col < size * size) by (nonlinear_arith)
        requires
            0 <= row < size,
            0 <= col < size,
    ;
}

} // verus!
