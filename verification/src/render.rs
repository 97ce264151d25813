//! Rendering: serializing the grid to a human-readable text block.
//!
//! Each row of the board becomes one line of `size` symbol characters
//! (`' '`, `'0'` or `'X'`) terminated by a newline.

use vstd::prelude::*;
use vstd::string::StringExecFns;

use crate::mark_symbol;
use crate::Mark;
use crate::TicTacToe;

verus! {

/// A character the board renderer can emit: a mark symbol or the newline.
pub open spec fn is_render_char(c: char) -> bool {
    c == ' ' || c == '0' || c == 'X' || c == '\n'
}

impl TicTacToe {
    /// One rendered row: the symbols of row `row`'s cells, then a newline.
    pub open spec fn render_row(&self, row: int) -> Seq<char> {
        Seq::new(self.size() as nat, |col: int| mark_symbol(self.cell(row, col))).push('\n')
    }

    /// The first `n` rendered rows, concatenated.
    pub open spec fn render_rows(&self, n: int) -> Seq<char>
        decreases n,
    {
        if n <= 0 {
            Seq::empty()
        } else {
            self.render_rows(n - 1) + self.render_row(n - 1)
        }
    }

    /// The rendered board: `size` lines, each holding the `size` symbols of
    /// one row followed by a newline.
    pub open spec fn render(&self) -> Seq<char> {
        self.render_rows(self.size())
    }

    /// Line `i` of the rendered text: its characters `i * (size + 1)` up to
    /// `(i + 1) * (size + 1)`.
    pub open spec fn render_line(&self, i: int) -> Seq<char> {
        self.render().subrange(i * (self.size() + 1), (i + 1) * (self.size() + 1))
    }

    /// The drawing symbol of a mark, as a one-character string slice.
    fn get_mark_symbol_str(mark: Mark) -> (s: &'static str)
        ensures
            s@ == seq![mark_symbol(mark)],
    {
        match mark {
            Mark::Nought => {
                proof {
                    reveal_strlit("0");
                    assert("0"@ =~= seq![mark_symbol(mark)]);
                }
                "0"
            },
            Mark::Cross => {
                proof {
                    reveal_strlit("X");
                    assert("X"@ =~= seq![mark_symbol(mark)]);
                }
                "X"
            },
            Mark::Empty => {
                proof {
                    reveal_strlit(" ");
                    assert(" "@ =~= seq![mark_symbol(mark)]);
                }
                " "
            },
        }
    }

    /// Serializes the grid to text: one line per row, each cell drawn as its
    /// symbol, each line terminated by a newline.  A read-only projection:
    /// the board is unchanged.
    #[verifier::loop_isolation(false)]
    pub fn get_board(&self) -> (text: String)
        requires
            self.wf(),
        ensures
            text@ == self.render(),
    {
        let mut text = String::new();
        let mut row: u8 = 0;
        while row < self.board_size
            invariant
                row <= self.board_size,
                text@ == self.render_rows(row as int),
            decreases self.board_size - row,
        {
            let ghost r: int = row as int;
            proof {
                assert(self.render_rows(r) + Seq::new(
                    0 as nat,
                    |j: int| mark_symbol(self.cell(r, j)),
                ) =~= self.render_rows(r));
            }
            let mut col: u8 = 0;
            while col < self.board_size
                invariant
                    col <= self.board_size,
                    row < self.board_size,
                    text@ == self.render_rows(r) + Seq::new(
                        col as nat,
                        |j: int| mark_symbol(self.cell(r, j)),
                    ),
                decreases self.board_size - col,
            {
                let idx = self.get_cell_index(row, col);
                let symbol = TicTacToe::get_mark_symbol_str(self.cells[idx]);
                text.append(symbol);
                proof {
                    assert(Seq::new((col + 1) as nat, |j: int| mark_symbol(self.cell(r, j)))
                        =~= Seq::new(col as nat, |j: int| mark_symbol(self.cell(r, j))) + seq![
                        mark_symbol(self.cell(r, col as int)),
                    ]);
                    assert(text@ =~= self.render_rows(r) + Seq::new(
                        (col + 1) as nat,
                        |j: int| mark_symbol(self.cell(r, j)),
                    ));
                }
                col = col + 1;
            }
            text.append("\n");
            proof {
                reveal_strlit("\n");
                assert("\n"@ =~= seq!['\n']);
                assert(self.render_row(r) =~= Seq::new(
                    self.size() as nat,
                    |j: int| mark_symbol(self.cell(r, j)),
                ) + seq!['\n']);
                assert(text@ =~= self.render_rows(r) + self.render_row(r));
                assert(text@ == self.render_rows(r + 1));
            }
            row = row + 1;
        }
        text
    }
}

/// The length of the first `n` rendered rows: `n` lines of `size + 1`
/// characters each.
proof fn lemma_render_rows_len(board: TicTacToe, n: int)
    requires
        0 <= n,
    ensures
        board.render_rows(n).len() == n * (board.size() + 1),
    decreases n,
{
    if n > 0 {
        lemma_render_rows_len(board, n - 1);
        assert(board.render_row(n - 1).len() == board.size() + 1);
        assert(n * (board.size() + 1) == (n - 1) * (board.size() + 1) + (board.size() + 1))
            by (nonlinear_arith);
    } else {
        assert(n * (board.size() + 1) == 0) by (nonlinear_arith)
            requires
                n == 0,
        ;
    }
}

/// Line `i` of the first `n` rendered rows is row `i`'s rendering.
proof fn lemma_render_rows_line(board: TicTacToe, n: int, i: int)
    requires
        0 <= i < n,
    ensures
        board.render_rows(n).subrange(
            i * (board.size() + 1),
            (i + 1) * (board.size() + 1),
        ) == board.render_row(i),
    decreases n,
{
    let w = board.size() + 1;
    lemma_render_rows_len(board, n);
    lemma_render_rows_len(board, n - 1);
    if i == n - 1 {
        assert(board.render_rows(n).subrange(i * w, (i + 1) * w) =~= board.render_row(i));
    } else {
        lemma_render_rows_line(board, n - 1, i);
        assert(0 <= i * w && (i + 1) * w <= (n - 1) * w) by (nonlinear_arith)
            requires
                0 <= i,
                i + 1 <= n - 1,
                w >= 1,
        ;
        assert((i + 1) * w == i * w + w) by (nonlinear_arith);
        assert(board.render_rows(n).subrange(i * w, (i + 1) * w) =~= board.render_rows(
            n - 1,
        ).subrange(i * w, (i + 1) * w));
    }
}

/// Every character of the first `n` rendered rows is a renderer character.
proof fn lemma_render_rows_chars(board: TicTacToe, n: int, k: int)
    requires
        0 <= n,
        0 <= k < board.render_rows(n).len(),
    ensures
        is_render_char(board.render_rows(n)[k]),
    decreases n,
{
    if n > 0 {
        if k < board.render_rows(n - 1).len() {
            lemma_render_rows_chars(board, n - 1, k);
            assert(board.render_rows(n)[k] == board.render_rows(n - 1)[k]);
        } else {
            let kk = k - board.render_rows(n - 1).len();
            if kk < board.size() {
                assert(board.render_rows(n)[k] == mark_symbol(board.cell(n - 1, kk)));
            } else {
                assert(board.render_rows(n)[k] == '\n');
            }
        }
    }
}

/// The shape of a rendered board: exactly `size` lines, each of `size + 1`
/// characters counting its terminating newline; line `i` holds the symbols
/// of row `i`'s cells in order; and the text uses only the three mark
/// symbols and the newline.
pub proof fn lemma_render_shape(board: TicTacToe)
    ensures
        board.render().len() == board.size() * (board.size() + 1),
        forall|i: int|
            0 <= i < board.size() ==> #[trigger] board.render_line(i) == board.render_row(i),
        forall|i: int|
            0 <= i < board.size() ==> (#[trigger] board.render_row(i)).len() == board.size() + 1,
        forall|i: int|
            0 <= i < board.size() ==> (#[trigger] board.render_row(i))[board.size()] == '\n',
        forall|i: int, j: int|
            0 <= i < board.size() && 0 <= j < board.size() ==> #[trigger] board.render_row(i)[j]
                == mark_symbol(board.cell(i, j)),
        forall|k: int|
            0 <= k < board.render().len() ==> is_render_char(#[trigger] board.render()[k]),
{
    lemma_render_rows_len(board, board.size());
    assert forall|i: int|
        0 <= i < board.size() implies #[trigger] board.render_line(i) == board.render_row(i) by {
        lemma_render_rows_line(board, board.size(), i);
    }
    assert forall|k: int|
        0 <= k < board.render().len() implies is_render_char(#[trigger] board.render()[k]) by {
        lemma_render_rows_chars(board, board.size(), k);
    }
}

} // verus!
