use tic_tac_toe::Mark;
use tic_tac_toe::TicTacToe;

fn render_chars(board: &TicTacToe) -> Vec<char> {
    board.get_board().chars().collect()
}

#[test]
fn fresh_board_is_blank() {
    let board = TicTacToe::new(3, 3, Mark::Nought);
    assert_eq!(board.get_board(), "   \n   \n   \n");
}

#[test]
fn render_shape_holds_for_many_sizes() {
    for size in 0u8..8u8 {
        let mut board = TicTacToe::new(size, 3, Mark::Nought);
        if size >= 2 {
            board.make_move(0, 0, Mark::Nought);
            board.make_move(1, 1, Mark::Cross);
        }
        let width = size as usize + 1;
        let chars = render_chars(&board);
        assert_eq!(chars.len(), size as usize * width);
        for row in 0..size as usize {
            let line = &chars[row * width..(row + 1) * width];
            assert_eq!(line.len(), width);
            assert_eq!(line[size as usize], '\n');
            for &c in &line[..size as usize] {
                assert!(c == ' ' || c == '0' || c == 'X');
            }
        }
    }
}

#[test]
fn render_draws_each_mark_in_place() {
    let mut board = TicTacToe::new(3, 3, Mark::Nought);
    board.make_move(0, 0, Mark::Nought);
    board.make_move(1, 2, Mark::Cross);
    board.make_move(2, 1, Mark::Nought);
    assert_eq!(board.get_board(), "0  \n  X\n 0 \n");
}

#[test]
fn move_on_empty_cell_flips_turn() {
    let mut board = TicTacToe::new(3, 3, Mark::Nought);
    board.make_move(0, 0, Mark::Nought);
    assert_eq!(board.whos_turn(), Mark::Cross);
    board.make_move(0, 1, Mark::Cross);
    assert_eq!(board.whos_turn(), Mark::Nought);
}

#[test]
fn move_on_occupied_cell_changes_nothing() {
    let mut board = TicTacToe::new(3, 3, Mark::Nought);
    board.make_move(1, 1, Mark::Nought);
    let text_before = board.get_board();
    let turn_before = board.whos_turn();
    board.make_move(1, 1, Mark::Cross);
    assert_eq!(board.get_board(), text_before);
    assert_eq!(board.whos_turn(), turn_before);
}

#[test]
fn turn_symbol_follows_turn() {
    let board = TicTacToe::new(4, 3, Mark::Nought);
    assert_eq!(board.whos_turn(), Mark::Nought);
    assert_eq!(board.get_turn_mark(), '0');
    let mut board = TicTacToe::new(4, 3, Mark::Cross);
    assert_eq!(board.get_turn_mark(), 'X');
    board.make_move(0, 0, Mark::Cross);
    assert_eq!(board.get_turn_mark(), '0');
    let board = TicTacToe::new(4, 3, Mark::Empty);
    assert_eq!(board.get_turn_mark(), ' ');
}

#[test]
fn fresh_board_has_no_winner() {
    for (size, win_length) in [(0u8, 3u8), (1, 1), (3, 3), (5, 4), (3, 9), (8, 0)] {
        let board = TicTacToe::new(size, win_length, Mark::Nought);
        assert_eq!(board.get_winner(), ' ');
        assert_eq!(board.get_winner_mark(), Mark::Empty);
    }
}

#[test]
fn descending_diagonal_wins_with_interleaved_moves() {
    let mut board = TicTacToe::new(3, 3, Mark::Nought);
    board.make_move(0, 0, Mark::Nought);
    board.make_move(0, 1, Mark::Cross);
    board.make_move(1, 1, Mark::Nought);
    board.make_move(1, 0, Mark::Cross);
    assert_eq!(board.get_winner(), ' ');
    board.make_move(2, 2, Mark::Nought);
    assert_eq!(board.get_winner(), '0');
    assert_eq!(board.get_winner_mark(), Mark::Nought);
}

#[test]
fn full_middle_row_wins() {
    let mut board = TicTacToe::new(3, 3, Mark::Cross);
    board.make_move(1, 0, Mark::Cross);
    board.make_move(1, 1, Mark::Cross);
    assert_eq!(board.get_winner(), ' ');
    board.make_move(1, 2, Mark::Cross);
    assert_eq!(board.get_winner(), 'X');
}

#[test]
fn column_wins() {
    let mut board = TicTacToe::new(3, 3, Mark::Cross);
    board.make_move(0, 2, Mark::Cross);
    board.make_move(1, 2, Mark::Cross);
    assert_eq!(board.get_winner(), ' ');
    board.make_move(2, 2, Mark::Cross);
    assert_eq!(board.get_winner(), 'X');
}

#[test]
fn ascending_diagonal_wins() {
    let mut board = TicTacToe::new(3, 3, Mark::Nought);
    board.make_move(0, 2, Mark::Nought);
    board.make_move(1, 1, Mark::Nought);
    board.make_move(2, 0, Mark::Nought);
    assert_eq!(board.get_winner(), '0');
}

#[test]
fn five_by_five_needs_four_in_a_row() {
    let mut board = TicTacToe::new(5, 4, Mark::Nought);
    board.make_move(0, 1, Mark::Nought);
    board.make_move(1, 2, Mark::Nought);
    board.make_move(2, 3, Mark::Nought);
    assert_eq!(board.get_winner(), ' ');
    board.make_move(3, 4, Mark::Nought);
    assert_eq!(board.get_winner(), '0');
}

#[test]
fn win_length_one_is_won_by_any_mark() {
    let mut board = TicTacToe::new(3, 1, Mark::Cross);
    assert_eq!(board.get_winner(), ' ');
    board.make_move(2, 2, Mark::Cross);
    assert_eq!(board.get_winner(), 'X');
}

#[test]
fn win_length_zero_never_wins() {
    let mut board = TicTacToe::new(2, 0, Mark::Nought);
    board.make_move(0, 0, Mark::Nought);
    board.make_move(0, 1, Mark::Nought);
    board.make_move(1, 0, Mark::Nought);
    board.make_move(1, 1, Mark::Nought);
    assert_eq!(board.get_winner(), ' ');
}

#[test]
fn win_length_beyond_board_never_wins() {
    let mut board = TicTacToe::new(3, 4, Mark::Nought);
    for row in 0..3u8 {
        for col in 0..3u8 {
            board.make_move(row, col, Mark::Nought);
        }
    }
    assert_eq!(board.get_winner(), ' ');
}

#[test]
fn long_run_on_large_board_wins() {
    let mut board = TicTacToe::new(10, 5, Mark::Cross);
    for step in 0..4u8 {
        board.make_move(2 + step, 3 + step, Mark::Cross);
    }
    assert_eq!(board.get_winner(), ' ');
    board.make_move(6, 7, Mark::Cross);
    assert_eq!(board.get_winner(), 'X');
}

#[test]
fn first_row_in_scan_order_decides_between_two_winners() {
    // Both players complete a row (alternation is not enforced); rows are
    // scanned top to bottom, so the winner is the mark of the upper row.
    let mut board = TicTacToe::new(3, 3, Mark::Nought);
    for col in 0..3u8 {
        board.make_move(0, col, Mark::Cross);
        board.make_move(2, col, Mark::Nought);
    }
    assert_eq!(board.get_winner(), 'X');
    assert_eq!(board.get_winner(), 'X');

    let mut board = TicTacToe::new(3, 3, Mark::Nought);
    for col in 0..3u8 {
        board.make_move(0, col, Mark::Nought);
        board.make_move(2, col, Mark::Cross);
    }
    assert_eq!(board.get_winner(), '0');
    assert_eq!(board.get_winner(), '0');
}

#[test]
fn columns_scan_before_diagonals() {
    // A full column of crosses and a full descending diagonal of noughts:
    // columns are scanned before diagonals, so crosses win.
    let mut board = TicTacToe::new(4, 3, Mark::Nought);
    for row in 0..3u8 {
        board.make_move(row, 3, Mark::Cross);
        board.make_move(row, row, Mark::Nought);
    }
    assert_eq!(board.get_winner(), 'X');
}

#[test]
fn earliest_run_on_a_scan_line_decides() {
    // One row holds a run of each mark; the run nearer the start of the
    // scan line is reported.
    let mut board = TicTacToe::new(6, 3, Mark::Nought);
    for col in 0..3u8 {
        board.make_move(1, col, Mark::Cross);
        board.make_move(1, col + 3, Mark::Nought);
    }
    assert_eq!(board.get_winner(), 'X');

    let mut board = TicTacToe::new(6, 3, Mark::Nought);
    for col in 0..3u8 {
        board.make_move(1, col, Mark::Nought);
        board.make_move(1, col + 3, Mark::Cross);
    }
    assert_eq!(board.get_winner(), '0');
}

#[test]
fn threshold_one_follows_scan_order() {
    // With a threshold of 1 each scan stops at its first cell, so the row
    // phase only ever sees the left edge: the cross at the left of row 1 is
    // found before the nought in the middle of row 0.
    let mut board = TicTacToe::new(3, 1, Mark::Nought);
    board.make_move(0, 1, Mark::Nought);
    board.make_move(1, 0, Mark::Cross);
    assert_eq!(board.get_winner(), 'X');
}

#[test]
fn queries_are_idempotent() {
    let mut board = TicTacToe::new(3, 3, Mark::Nought);
    board.make_move(0, 0, Mark::Nought);
    board.make_move(2, 1, Mark::Cross);
    assert_eq!(board.get_board(), board.get_board());
    assert_eq!(board.get_winner(), board.get_winner());
    assert_eq!(board.get_winner_mark(), board.get_winner_mark());
    assert_eq!(board.whos_turn(), board.whos_turn());
}

#[test]
fn empty_board_renders_to_empty_text() {
    let board = TicTacToe::new(0, 3, Mark::Nought);
    assert_eq!(board.get_board(), "");
    assert_eq!(board.get_winner(), ' ');
}
