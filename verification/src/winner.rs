//! Win detection: a directional scan over rows, columns and diagonals.
//!
//! A player wins when `win_length` consecutive cells in one of four
//! directions (east, south, south-east, south-west) all hold that player's
//! mark.  The scan walks every row from its left edge, every column from its
//! top edge, and both diagonal directions from every single cell, counting
//! consecutive equal non-empty marks.

use vstd::prelude::*;

use crate::lemma_cell_index_bounds;
use crate::mark_symbol;
use crate::Mark;
use crate::TicTacToe;

verus! {

impl TicTacToe {
    /// `n` consecutive cells, starting at `(row, col)` and stepping by
    /// `(row_delta, col_delta)`, are all on the board and all hold `m`.
    pub open spec fn run_from(
        &self,
        row: int,
        col: int,
        row_delta: int,
        col_delta: int,
        m: Mark,
        n: nat,
    ) -> bool
        decreases n,
    {
        n == 0 || (self.in_bounds(row, col) && self.cell(row, col) == m && self.run_from(
            row + row_delta,
            col + col_delta,
            row_delta,
            col_delta,
            m,
            (n - 1) as nat,
        ))
    }

    /// The four directions a winning run is looked for in: east, south,
    /// south-east and south-west.  Runs in the four opposite directions
    /// cover the same cells read from the other end.
    pub open spec fn is_direction(row_delta: int, col_delta: int) -> bool {
        ||| (row_delta == 0 && col_delta == 1)
        ||| (row_delta == 1 && col_delta == 0)
        ||| (row_delta == 1 && col_delta == 1)
        ||| (row_delta == 1 && col_delta == -1)
    }

    /// A winning run starts at `(row, col)`: `win_length` consecutive cells
    /// in the given direction all hold the same non-empty mark.
    pub open spec fn has_run(&self, row: int, col: int, row_delta: int, col_delta: int) -> bool {
        &&& self.win_length() >= 1
        &&& self.cell(row, col) != Mark::Empty
        &&& self.run_from(
            row,
            col,
            row_delta,
            col_delta,
            self.cell(row, col),
            self.win_length() as nat,
        )
    }

    /// A winning run starts at offset `step` of the scan line that begins at
    /// `(row, col)` and walks by `(row_delta, col_delta)`.
    pub open spec fn line_run(
        &self,
        row: int,
        col: int,
        row_delta: int,
        col_delta: int,
        step: int,
    ) -> bool {
        self.has_run(row + step * row_delta, col + step * col_delta, row_delta, col_delta)
    }

    /// The mark at offset `step` of that scan line.
    pub open spec fn line_mark(
        &self,
        row: int,
        col: int,
        row_delta: int,
        col_delta: int,
        step: int,
    ) -> Mark {
        self.cell(row + step * row_delta, col + step * col_delta)
    }

    /// `m` has completed a winning run somewhere on the board.
    pub open spec fn is_winner(&self, m: Mark) -> bool {
        &&& m != Mark::Empty
        &&& exists|row: int, col: int, row_delta: int, col_delta: int|
            Self::is_direction(row_delta, col_delta) && #[trigger] self.has_run(
                row,
                col,
                row_delta,
                col_delta,
            ) && self.cell(row, col) == m
    }

    /// Some player has completed a winning run.
    pub open spec fn has_winner(&self) -> bool {
        self.is_winner(Mark::Nought) || self.is_winner(Mark::Cross)
    }

    /// The decreasing measure of a directional scan: the distance from the
    /// cursor to the board edge it is moving towards.
    spec fn scan_progress(size: int, x: int, y: int, row_delta: int) -> int {
        if row_delta == 1 {
            size - x
        } else {
            size - y
        }
    }

    /// One step of the directional scan, continued from a cursor at
    /// `(x, y)` that has already counted `count` consecutive cells of
    /// `prev`: the first mark whose consecutive count reaches `win_length`,
    /// or `Mark::Empty` once the cursor leaves the board.  `fuel` bounds the
    /// walk; a walk from an on-board start leaves the board within `size`
    /// steps, so `size` fuel never runs dry.
    pub open spec fn scan_steps(
        &self,
        x: int,
        y: int,
        row_delta: int,
        col_delta: int,
        count: int,
        prev: Mark,
        fuel: nat,
    ) -> Mark
        decreases fuel,
    {
        if fuel == 0 || !self.in_bounds(x, y) {
            Mark::Empty
        } else {
            let cur = self.cell(x, y);
            let new_count: int = if prev == cur && cur != Mark::Empty {
                count + 1
            } else {
                1
            };
            if new_count == self.win_length() {
                cur
            } else {
                self.scan_steps(
                    x + row_delta,
                    y + col_delta,
                    row_delta,
                    col_delta,
                    new_count,
                    cur,
                    (fuel - 1) as nat,
                )
            }
        }
    }

    /// What scanning one line returns: the walk starts at `(row, col)` with
    /// nothing counted yet.
    pub open spec fn scan_line(&self, row: int, col: int, row_delta: int, col_delta: int) -> Mark {
        self.scan_steps(row, col, row_delta, col_delta, 0, Mark::Empty, self.size() as nat)
    }

    /// The first non-empty answer among the row scans from `row` downwards.
    pub open spec fn rows_winner_from(&self, row: int) -> Mark
        decreases self.size() - row,
    {
        if row < 0 || row >= self.size() {
            Mark::Empty
        } else {
            let m = self.scan_line(row, 0, 0, 1);
            if m != Mark::Empty {
                m
            } else {
                self.rows_winner_from(row + 1)
            }
        }
    }

    /// The first non-empty answer among the column scans from `col` rightwards.
    pub open spec fn cols_winner_from(&self, col: int) -> Mark
        decreases self.size() - col,
    {
        if col < 0 || col >= self.size() {
            Mark::Empty
        } else {
            let m = self.scan_line(0, col, 1, 0);
            if m != Mark::Empty {
                m
            } else {
                self.cols_winner_from(col + 1)
            }
        }
    }

    /// The two diagonal scans launched from one cell: south-east first,
    /// then south-west.
    pub open spec fn cell_diagonals_winner(&self, row: int, col: int) -> Mark {
        let m = self.scan_line(row, col, 1, 1);
        if m != Mark::Empty {
            m
        } else {
            self.scan_line(row, col, 1, -1)
        }
    }

    /// The first non-empty answer among the diagonal scans of row `row`,
    /// from cell `col` rightwards.
    pub open spec fn row_diagonals_winner_from(&self, row: int, col: int) -> Mark
        decreases self.size() - col,
    {
        if col < 0 || col >= self.size() {
            Mark::Empty
        } else {
            let m = self.cell_diagonals_winner(row, col);
            if m != Mark::Empty {
                m
            } else {
                self.row_diagonals_winner_from(row, col + 1)
            }
        }
    }

    /// The first non-empty answer among the diagonal scans from row `row`
    /// downwards, each row walked left to right.
    pub open spec fn diagonals_winner_from(&self, row: int) -> Mark
        decreases self.size() - row,
    {
        if row < 0 || row >= self.size() {
            Mark::Empty
        } else {
            let m = self.row_diagonals_winner_from(row, 0);
            if m != Mark::Empty {
                m
            } else {
                self.diagonals_winner_from(row + 1)
            }
        }
    }

    /// What the winner query returns, in the fixed evaluation order: all
    /// rows top to bottom, then all columns left to right, then for each
    /// cell in row-major order its south-east scan and then its south-west
    /// scan; `Mark::Empty` when every scan comes up empty.
    pub open spec fn winner_mark(&self) -> Mark {
        let m1 = self.rows_winner_from(0);
        if m1 != Mark::Empty {
            m1
        } else {
            let m2 = self.cols_winner_from(0);
            if m2 != Mark::Empty {
                m2
            } else {
                self.diagonals_winner_from(0)
            }
        }
    }
}

/// Distributing a step count over a sum: walking `a + b` steps lands where
/// walking `a` steps and then `b` more does.
proof fn lemma_offset_sum(base: int, delta: int, a: int, b: int)
    ensures
        base + (a + b) * delta == (base + a * delta) + b * delta,
{
    assert((a + b) * delta == a * delta + b * delta) by (nonlinear_arith);
}

/// Every cell of a run holds the run's mark and lies on the board.
proof fn lemma_run_index(
    b: &TicTacToe,
    row: int,
    col: int,
    row_delta: int,
    col_delta: int,
    m: Mark,
    n: nat,
    i: int,
)
    requires
        b.run_from(row, col, row_delta, col_delta, m, n),
        0 <= i < n,
    ensures
        b.in_bounds(row + i * row_delta, col + i * col_delta),
        b.cell(row + i * row_delta, col + i * col_delta) == m,
    decreases i,
{
    if i == 0 {
        assert(row + 0 * row_delta == row);
        assert(col + 0 * col_delta == col);
    } else {
        lemma_run_index(
            b,
            row + row_delta,
            col + col_delta,
            row_delta,
            col_delta,
            m,
            (n - 1) as nat,
            i - 1,
        );
        lemma_offset_sum(row, row_delta, 1, i - 1);
        lemma_offset_sum(col, col_delta, 1, i - 1);
    }
}

/// A run of `n` cells followed by one more cell of the same mark is a run of
/// `n + 1` cells.
proof fn lemma_run_append(
    b: &TicTacToe,
    row: int,
    col: int,
    row_delta: int,
    col_delta: int,
    m: Mark,
    n: nat,
)
    requires
        b.run_from(row, col, row_delta, col_delta, m, n),
        b.in_bounds(row + n * row_delta, col + n * col_delta),
        b.cell(row + n * row_delta, col + n * col_delta) == m,
    ensures
        b.run_from(row, col, row_delta, col_delta, m, n + 1),
    decreases n,
{
    if n == 0 {
        assert(row + 0 * row_delta == row);
        assert(col + 0 * col_delta == col);
        assert(b.run_from(row + row_delta, col + col_delta, row_delta, col_delta, m, 0));
    } else {
        lemma_offset_sum(row, row_delta, 1, n - 1);
        lemma_offset_sum(col, col_delta, 1, n - 1);
        lemma_run_append(
            b,
            row + row_delta,
            col + col_delta,
            row_delta,
            col_delta,
            m,
            (n - 1) as nat,
        );
    }
}

/// Once a directional walk from an on-board start has stepped off the board,
/// every later step of the walk is off the board too.
proof fn lemma_stays_outside(
    b: &TicTacToe,
    row: int,
    col: int,
    row_delta: int,
    col_delta: int,
    t: int,
    u: int,
)
    requires
        TicTacToe::is_direction(row_delta, col_delta),
        b.in_bounds(row, col),
        0 <= t <= u,
        !b.in_bounds(row + t * row_delta, col + t * col_delta),
    ensures
        !b.in_bounds(row + u * row_delta, col + u * col_delta),
{
    assert(0 <= t * row_delta <= u * row_delta) by (nonlinear_arith)
        requires
            0 <= t <= u,
            0 <= row_delta,
    ;
    if col_delta >= 0 {
        assert(0 <= t * col_delta <= u * col_delta) by (nonlinear_arith)
            requires
                0 <= t <= u,
                0 <= col_delta,
        ;
    } else {
        assert(u * col_delta <= t * col_delta <= 0) by (nonlinear_arith)
            requires
                0 <= t <= u,
                col_delta <= 0,
        ;
    }
}

/// A scan that reported a winning run of mark `m` shows that `m` is a winner.
proof fn lemma_scan_hit(b: &TicTacToe, row: int, col: int, row_delta: int, col_delta: int, m: Mark)
    requires
        TicTacToe::is_direction(row_delta, col_delta),
        m != Mark::Empty,
        exists|j: int|
            0 <= j && #[trigger] b.line_run(row, col, row_delta, col_delta, j) && b.line_mark(
                row,
                col,
                row_delta,
                col_delta,
                j,
            ) == m,
    ensures
        b.is_winner(m),
{
    let j = choose|j: int|
        0 <= j && #[trigger] b.line_run(row, col, row_delta, col_delta, j) && b.line_mark(
            row,
            col,
            row_delta,
            col_delta,
            j,
        ) == m;
    assert(b.has_run(row + j * row_delta, col + j * col_delta, row_delta, col_delta));
    assert(b.cell(row + j * row_delta, col + j * col_delta) == m);
}

/// A board whose cells are all empty has no winner: every winning run would
/// have to start at a non-empty cell.
pub proof fn lemma_empty_board_no_winner(board: TicTacToe)
    requires
        board.wf(),
        forall|i: int| 0 <= i < board.grid().len() ==> board.grid()[i] == Mark::Empty,
    ensures
        !board.has_winner(),
{
    assert forall|row: int, col: int, row_delta: int, col_delta: int|
        !(TicTacToe::is_direction(row_delta, col_delta) && #[trigger] board.has_run(
            row,
            col,
            row_delta,
            col_delta,
        )) by {
        if TicTacToe::is_direction(row_delta, col_delta) && board.has_run(
            row,
            col,
            row_delta,
            col_delta,
        ) {
            assert(board.in_bounds(row, col));
            lemma_cell_index_bounds(board.size(), row, col);
            assert(board.grid()[row * board.size() + col] == Mark::Empty);
        }
    }
}

/// A win threshold larger than the board can never be met: no direction
/// holds that many consecutive cells, so the winner query degrades to "no
/// winner yet" instead of failing.
pub proof fn lemma_win_length_beyond_board(board: TicTacToe)
    requires
        board.win_length() > board.size(),
    ensures
        !board.has_winner(),
{
    assert forall|row: int, col: int, row_delta: int, col_delta: int|
        !(TicTacToe::is_direction(row_delta, col_delta) && #[trigger] board.has_run(
            row,
            col,
            row_delta,
            col_delta,
        )) by {
        if TicTacToe::is_direction(row_delta, col_delta) && board.has_run(
            row,
            col,
            row_delta,
            col_delta,
        ) {
            let len = board.win_length();
            let m = board.cell(row, col);
            lemma_run_index(&board, row, col, row_delta, col_delta, m, len as nat, 0);
            lemma_run_index(&board, row, col, row_delta, col_delta, m, len as nat, len - 1);
            if row_delta == 1 {
                assert((len - 1) * row_delta == len - 1) by (nonlinear_arith)
                    requires
                        row_delta == 1,
                ;
            } else {
                assert((len - 1) * col_delta == len - 1) by (nonlinear_arith)
                    requires
                        col_delta == 1,
                ;
            }
            assert(false);
        }
    }
}

impl TicTacToe {
    /// Walks the scan line from `(row, col)` by `(row_delta_factor,
    /// col_delta_factor)`, counting consecutive equal non-empty marks, and
    /// returns the mark of the earliest run that reaches `win_length`, or
    /// `Mark::Empty` when the walk leaves the board first; in every case
    /// exactly `scan_line`.
    ///
    /// With a win length of exactly 1 the walk stops at its very first cell
    /// and reports that cell's mark, empty or not.
    #[verifier::loop_isolation(false)]
    #[verifier::rlimit(100)]
    fn search_cell_row_for_winner(
        &self,
        row: u8,
        col: u8,
        row_delta_factor: i8,
        col_delta_factor: i8,
    ) -> (winner: Mark)
        requires
            self.wf(),
            self.in_bounds(row as int, col as int),
            Self::is_direction(row_delta_factor as int, col_delta_factor as int),
        ensures
            winner == self.scan_line(
                row as int,
                col as int,
                row_delta_factor as int,
                col_delta_factor as int,
            ),
            winner != Mark::Empty ==> exists|j: int|
                0 <= j && #[trigger] self.line_run(
                    row as int,
                    col as int,
                    row_delta_factor as int,
                    col_delta_factor as int,
                    j,
                ) && self.line_mark(
                    row as int,
                    col as int,
                    row_delta_factor as int,
                    col_delta_factor as int,
                    j,
                ) == winner && (forall|k: int|
                    0 <= k < j ==> !(#[trigger] self.line_run(
                        row as int,
                        col as int,
                        row_delta_factor as int,
                        col_delta_factor as int,
                        k,
                    ))),
            winner == Mark::Empty && self.win_length() != 1 ==> forall|j: int|
                0 <= j ==> !(#[trigger] self.line_run(
                    row as int,
                    col as int,
                    row_delta_factor as int,
                    col_delta_factor as int,
                    j,
                )),
            self.win_length() == 1 ==> winner == self.cell(row as int, col as int),
    {
        let ghost r0: int = row as int;
        let ghost c0: int = col as int;
        let ghost dr: int = row_delta_factor as int;
        let ghost dc: int = col_delta_factor as int;
        let ghost mut t: int = 0;

        let size_i: i16 = self.board_size as i16;
        let mut count: u8 = 0;
        let mut prev_mark: Mark = Mark::Empty;
        let mut x: i16 = row as i16;
        let mut y: i16 = col as i16;

        while 0 <= x && x < size_i && 0 <= y && y < size_i
            invariant
                0 <= t <= self.size(),
                x as int == r0 + t * dr,
                y as int == c0 + t * dc,
                self.scan_line(r0, c0, dr, dc) == self.scan_steps(
                    x as int,
                    y as int,
                    dr,
                    dc,
                    count as int,
                    prev_mark,
                    (self.size() - t) as nat,
                ),
                t == 0 ==> count == 0 && prev_mark == Mark::Empty,
                t >= 1 ==> 1 <= count as int <= t,
                t >= 1 ==> prev_mark == self.line_mark(r0, c0, dr, dc, t - 1),
                t >= 1 ==> self.run_from(
                    r0 + (t - count as int) * dr,
                    c0 + (t - count as int) * dc,
                    dr,
                    dc,
                    prev_mark,
                    count as nat,
                ),
                t >= 1 && prev_mark != Mark::Empty ==> (count as int == t || self.line_mark(
                    r0,
                    c0,
                    dr,
                    dc,
                    t - count as int - 1,
                ) != prev_mark),
                self.win_length() >= 1 ==> (count as int) < self.win_length(),
                forall|j: int|
                    0 <= j && j + self.win_length() <= t ==> !(#[trigger] self.line_run(
                        r0,
                        c0,
                        dr,
                        dc,
                        j,
                    )),
            decreases TicTacToe::scan_progress(self.size(), x as int, y as int, dr),
        {
            proof {
                if dr == 1 {
                    assert(t * dr == t) by (nonlinear_arith)
                        requires
                            dr == 1,
                    ;
                } else {
                    assert(t * dc == t) by (nonlinear_arith)
                        requires
                            dc == 1,
                    ;
                }
                assert(t < self.size());
            }
            let idx = self.get_cell_index(x as u8, y as u8);
            let current = self.cells[idx];
            proof {
                assert(current == self.cell(x as int, y as int));
                assert(current == self.line_mark(r0, c0, dr, dc, t));
            }
            let ghost old_count: int = count as int;
            let ghost old_prev: Mark = prev_mark;
            if prev_mark == current && current != Mark::Empty {
                count = count + 1;
                proof {
                    lemma_offset_sum(r0, dr, t - old_count, old_count);
                    lemma_offset_sum(c0, dc, t - old_count, old_count);
                    lemma_run_append(
                        self,
                        r0 + (t - old_count) * dr,
                        c0 + (t - old_count) * dc,
                        dr,
                        dc,
                        prev_mark,
                        old_count as nat,
                    );
                }
            } else {
                count = 1;
                prev_mark = current;
                proof {
                    assert(self.run_from(x as int + dr, y as int + dc, dr, dc, current, 0));
                    assert(self.run_from(x as int, y as int, dr, dc, current, 1));
                }
            }
            if count == self.marks_needed_for_win {
                proof {
                    assert(self.scan_steps(
                        x as int,
                        y as int,
                        dr,
                        dc,
                        old_count,
                        old_prev,
                        (self.size() - t) as nat,
                    ) == current);
                    if self.win_length() == 1 {
                        assert(t == 0);
                        assert(r0 + 0 * dr == r0 && c0 + 0 * dc == c0);
                    }
                    let j = t + 1 - self.win_length();
                    assert(self.run_from(r0 + j * dr, c0 + j * dc, dr, dc, current, count as nat));
                    if current != Mark::Empty {
                        assert(self.line_run(r0, c0, dr, dc, j) && self.line_mark(
                            r0,
                            c0,
                            dr,
                            dc,
                            j,
                        ) == current);
                        assert forall|k: int| 0 <= k < j implies !(#[trigger] self.line_run(
                            r0,
                            c0,
                            dr,
                            dc,
                            k,
                        )) by {
                            assert(k + self.win_length() <= t);
                        }
                    }
                }
                return current;
            }
            proof {
                if self.win_length() >= 1 && t + 1 - self.win_length() >= 0 {
                    let j = t + 1 - self.win_length();
                    if self.line_run(r0, c0, dr, dc, j) {
                        let m2 = self.line_mark(r0, c0, dr, dc, j);
                        assert(m2 != Mark::Empty);
                        if self.win_length() >= 2 {
                            lemma_run_index(
                                self,
                                r0 + j * dr,
                                c0 + j * dc,
                                dr,
                                dc,
                                m2,
                                self.win_length() as nat,
                                t - j,
                            );
                            lemma_offset_sum(r0, dr, j, t - j);
                            lemma_offset_sum(c0, dc, j, t - j);
                            assert(current == m2);
                            lemma_run_index(
                                self,
                                r0 + j * dr,
                                c0 + j * dc,
                                dr,
                                dc,
                                m2,
                                self.win_length() as nat,
                                t - 1 - j,
                            );
                            lemma_offset_sum(r0, dr, j, t - 1 - j);
                            lemma_offset_sum(c0, dc, j, t - 1 - j);
                            assert(old_prev == m2);
                            if old_count < t - j {
                                lemma_run_index(
                                    self,
                                    r0 + j * dr,
                                    c0 + j * dc,
                                    dr,
                                    dc,
                                    m2,
                                    self.win_length() as nat,
                                    t - old_count - 1 - j,
                                );
                                lemma_offset_sum(r0, dr, j, t - old_count - 1 - j);
                                lemma_offset_sum(c0, dc, j, t - old_count - 1 - j);
                            }
                            assert(old_count >= t - j);
                            assert(false);
                        } else {
                            assert(false);
                        }
                    }
                    assert(!self.line_run(r0, c0, dr, dc, j));
                }
            }
            proof {
                assert(self.scan_steps(
                    x as int,
                    y as int,
                    dr,
                    dc,
                    old_count,
                    old_prev,
                    (self.size() - t) as nat,
                ) == self.scan_steps(
                    x as int + dr,
                    y as int + dc,
                    dr,
                    dc,
                    count as int,
                    prev_mark,
                    (self.size() - (t + 1)) as nat,
                ));
            }
            x = x + (row_delta_factor as i16);
            y = y + (col_delta_factor as i16);
            proof {
                lemma_offset_sum(r0, dr, t, 1);
                lemma_offset_sum(c0, dc, t, 1);
                t = t + 1;
            }
        }
        proof {
            assert(self.scan_steps(
                x as int,
                y as int,
                dr,
                dc,
                count as int,
                prev_mark,
                (self.size() - t) as nat,
            ) == Mark::Empty);
            if self.win_length() == 1 {
                assert(t == 0);
                assert(r0 + 0 * dr == r0 && c0 + 0 * dc == c0);
                assert(false);
            }
            assert forall|j: int| 0 <= j implies !(#[trigger] self.line_run(
                r0,
                c0,
                dr,
                dc,
                j,
            )) by {
                if self.line_run(r0, c0, dr, dc, j) {
                    if j + self.win_length() <= t {
                        assert(!self.line_run(r0, c0, dr, dc, j));
                    } else {
                        let m2 = self.line_mark(r0, c0, dr, dc, j);
                        let i = if j >= t {
                            0
                        } else {
                            t - j
                        };
                        lemma_run_index(
                            self,
                            r0 + j * dr,
                            c0 + j * dc,
                            dr,
                            dc,
                            m2,
                            self.win_length() as nat,
                            i,
                        );
                        lemma_offset_sum(r0, dr, j, i);
                        lemma_offset_sum(c0, dc, j, i);
                        lemma_stays_outside(self, r0, c0, dr, dc, t, j + i);
                        assert(false);
                    }
                }
            }
        }
        Mark::Empty
    }

    /// Scans all rows, then all columns, then both diagonal directions from
    /// every cell, and returns the mark of the first winning run found, or
    /// `Mark::Empty` when no player has completed a run of `win_length`.
    #[verifier::loop_isolation(false)]
    #[verifier::rlimit(100)]
    pub fn get_winner_mark(&self) -> (winner: Mark)
        requires
            self.wf(),
        ensures
            winner == self.winner_mark(),
            winner != Mark::Empty ==> self.is_winner(winner),
            winner == Mark::Empty ==> !self.has_winner(),
    {
        let size = self.board_size;

        let mut row: u8 = 0;
        while row < size
            invariant
                row <= size,
                self.rows_winner_from(0) == self.rows_winner_from(row as int),
                self.win_length() != 1 ==> forall|r: int, j: int|
                    0 <= r < row && 0 <= j ==> !(#[trigger] self.line_run(r, 0, 0, 1, j)),
            decreases size - row,
        {
            let winning_mark = self.search_cell_row_for_winner(row, 0, 0, 1);
            if winning_mark != Mark::Empty {
                proof {
                    lemma_scan_hit(self, row as int, 0, 0, 1, winning_mark);
                    assert(self.rows_winner_from(row as int) == winning_mark);
                    assert(self.winner_mark() == winning_mark);
                }
                return winning_mark;
            }
            proof {
                assert(self.rows_winner_from(row as int) == self.rows_winner_from(row as int + 1));
            }
            row = row + 1;
        }

        let mut col: u8 = 0;
        while col < size
            invariant
                col <= size,
                self.rows_winner_from(0) == Mark::Empty,
                self.cols_winner_from(0) == self.cols_winner_from(col as int),
                self.win_length() != 1 ==> forall|r: int, j: int|
                    0 <= r < self.size() && 0 <= j ==> !(#[trigger] self.line_run(r, 0, 0, 1, j)),
                self.win_length() != 1 ==> forall|c: int, j: int|
                    0 <= c < col && 0 <= j ==> !(#[trigger] self.line_run(0, c, 1, 0, j)),
            decreases size - col,
        {
            let winning_mark = self.search_cell_row_for_winner(0, col, 1, 0);
            if winning_mark != Mark::Empty {
                proof {
                    lemma_scan_hit(self, 0, col as int, 1, 0, winning_mark);
                    assert(self.cols_winner_from(col as int) == winning_mark);
                    assert(self.winner_mark() == winning_mark);
                }
                return winning_mark;
            }
            proof {
                assert(self.cols_winner_from(col as int) == self.cols_winner_from(col as int + 1));
            }
            col = col + 1;
        }

        let mut d_row: u8 = 0;
        while d_row < size
            invariant
                d_row <= size,
                self.rows_winner_from(0) == Mark::Empty,
                self.cols_winner_from(0) == Mark::Empty,
                self.diagonals_winner_from(0) == self.diagonals_winner_from(d_row as int),
                self.win_length() != 1 ==> forall|r: int, j: int|
                    0 <= r < self.size() && 0 <= j ==> !(#[trigger] self.line_run(r, 0, 0, 1, j)),
                self.win_length() != 1 ==> forall|c: int, j: int|
                    0 <= c < self.size() && 0 <= j ==> !(#[trigger] self.line_run(0, c, 1, 0, j)),
                self.win_length() != 1 ==> forall|r: int, c: int, j: int|
                    0 <= r < d_row && 0 <= c < self.size() && 0 <= j ==> !(#[trigger] self.line_run(
                        r,
                        c,
                        1,
                        1,
                        j,
                    )),
                self.win_length() != 1 ==> forall|r: int, c: int, j: int|
                    0 <= r < d_row && 0 <= c < self.size() && 0 <= j ==> !(#[trigger] self.line_run(
                        r,
                        c,
                        1,
                        -1,
                        j,
                    )),
                self.win_length() == 1 ==> forall|r: int, c: int|
                    0 <= r < d_row && 0 <= c < self.size() ==> #[trigger] self.cell(r, c)
                        == Mark::Empty,
            decreases size - d_row,
        {
            let mut d_col: u8 = 0;
            while d_col < size
                invariant
                    d_col <= size,
                    d_row < size,
                    self.rows_winner_from(0) == Mark::Empty,
                    self.cols_winner_from(0) == Mark::Empty,
                    self.diagonals_winner_from(0) == self.diagonals_winner_from(d_row as int),
                    self.row_diagonals_winner_from(d_row as int, 0)
                        == self.row_diagonals_winner_from(d_row as int, d_col as int),
                    self.win_length() != 1 ==> forall|c: int, j: int|
                        0 <= c < d_col && 0 <= j ==> !(#[trigger] self.line_run(
                            d_row as int,
                            c,
                            1,
                            1,
                            j,
                        )),
                    self.win_length() != 1 ==> forall|c: int, j: int|
                        0 <= c < d_col && 0 <= j ==> !(#[trigger] self.line_run(
                            d_row as int,
                            c,
                            1,
                            -1,
                            j,
                        )),
                    self.win_length() == 1 ==> forall|c: int|
                        0 <= c < d_col ==> #[trigger] self.cell(d_row as int, c) == Mark::Empty,
                decreases size - d_col,
            {
                let mut winning_mark = self.search_cell_row_for_winner(d_row, d_col, 1, 1);
                if winning_mark != Mark::Empty {
                    proof {
                        lemma_scan_hit(self, d_row as int, d_col as int, 1, 1, winning_mark);
                        assert(self.cell_diagonals_winner(d_row as int, d_col as int)
                            == winning_mark);
                        assert(self.row_diagonals_winner_from(d_row as int, d_col as int)
                            == winning_mark);
                        assert(self.diagonals_winner_from(d_row as int) == winning_mark);
                        assert(self.winner_mark() == winning_mark);
                    }
                    return winning_mark;
                }
                winning_mark = self.search_cell_row_for_winner(d_row, d_col, 1, -1);
                if winning_mark != Mark::Empty {
                    proof {
                        lemma_scan_hit(self, d_row as int, d_col as int, 1, -1, winning_mark);
                        assert(self.cell_diagonals_winner(d_row as int, d_col as int)
                            == winning_mark);
                        assert(self.row_diagonals_winner_from(d_row as int, d_col as int)
                            == winning_mark);
                        assert(self.diagonals_winner_from(d_row as int) == winning_mark);
                        assert(self.winner_mark() == winning_mark);
                    }
                    return winning_mark;
                }
                proof {
                    assert(self.cell_diagonals_winner(d_row as int, d_col as int) == Mark::Empty);
                    assert(self.row_diagonals_winner_from(d_row as int, d_col as int)
                        == self.row_diagonals_winner_from(d_row as int, d_col as int + 1));
                }
                d_col = d_col + 1;
            }
            proof {
                assert(self.row_diagonals_winner_from(d_row as int, d_col as int) == Mark::Empty);
                assert(self.diagonals_winner_from(d_row as int) == self.diagonals_winner_from(
                    d_row as int + 1,
                ));
            }
            d_row = d_row + 1;
        }

        proof {
            assert(self.diagonals_winner_from(d_row as int) == Mark::Empty);
            assert(self.winner_mark() == Mark::Empty);
            assert forall|r: int, c: int, dr: int, dc: int|
                !(TicTacToe::is_direction(dr, dc) && #[trigger] self.has_run(r, c, dr, dc)) by {
                if TicTacToe::is_direction(dr, dc) && self.has_run(r, c, dr, dc) {
                    assert(self.in_bounds(r, c));
                    if self.win_length() == 1 {
                        assert(self.cell(r, c) == Mark::Empty);
                        assert(false);
                    } else {
                        if dr == 0 && dc == 1 {
                            assert(self.line_run(r, 0, 0, 1, c) == self.has_run(r, c, 0, 1));
                        } else if dr == 1 && dc == 0 {
                            assert(self.line_run(0, c, 1, 0, r) == self.has_run(r, c, 1, 0));
                        } else if dr == 1 && dc == 1 {
                            assert(self.line_run(r, c, 1, 1, 0) == self.has_run(r, c, 1, 1));
                        } else {
                            assert(self.line_run(r, c, 1, -1, 0) == self.has_run(r, c, 1, -1));
                        }
                        assert(false);
                    }
                }
            }
            assert(!self.has_winner());
        }
        Mark::Empty
    }

    /// The winner's symbol: `'0'` or `'X'` when a player has completed a
    /// winning run, `' '` otherwise.
    pub fn get_winner(&self) -> (c: char)
        requires
            self.wf(),
        ensures
            c == mark_symbol(self.winner_mark()),
            !self.has_winner() ==> c == ' ',
            self.has_winner() ==> (c == '0' && self.is_winner(Mark::Nought)) || (c == 'X'
                && self.is_winner(Mark::Cross)),
    {
        TicTacToe::get_mark_symbol(self.get_winner_mark())
    }
}

} // verus!
