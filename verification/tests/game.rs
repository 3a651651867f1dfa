//! Tests of the tic-tac-toe rules: legality, terminality, rewards and the
//! zero-sum law on concrete boards.

use mcts::state::State;
use mcts::tic_tac_toe::TicTacToe;

fn play(moves: &[(usize, usize)]) -> TicTacToe {
    let mut g = TicTacToe::new();
    for m in moves {
        assert!(!g.is_terminal());
        assert!(g.get_legal_actions().contains(m));
        g = g.step(m);
    }
    g
}

#[test]
fn fresh_board_is_open() {
    let g = TicTacToe::new();
    assert!(!g.is_terminal());
    assert_eq!(g.to_play(), 0);
    let legal = g.get_legal_actions();
    assert_eq!(legal.len(), 9);
    for i in 0..3 {
        for j in 0..3 {
            assert!(legal.contains(&(i, j)));
        }
    }
}

#[test]
fn step_alternates_players_and_removes_cells() {
    let g = play(&[(0, 0), (1, 1)]);
    assert_eq!(g.to_play(), 0);
    let legal = g.get_legal_actions();
    assert_eq!(legal.len(), 7);
    assert!(!legal.contains(&(0, 0)));
    assert!(!legal.contains(&(1, 1)));
}

#[test]
fn completed_row_wins() {
    // X: top row; O: two cells of the middle row.
    let g = play(&[(0, 0), (1, 0), (0, 1), (1, 1), (0, 2)]);
    assert!(g.player_has_won(0));
    assert!(!g.player_has_won(1));
    assert!(g.is_terminal());
    assert_eq!(g.reward(0), 1);
    assert_eq!(g.reward(1), -1);
}

#[test]
fn completed_column_and_diagonal_win() {
    // O completes the left column.
    let g = play(&[(1, 1), (0, 0), (1, 2), (1, 0), (2, 2), (2, 0)]);
    assert!(g.player_has_won(1));
    assert!(g.is_terminal());
    // X completes the main diagonal.
    let d = play(&[(0, 0), (0, 1), (1, 1), (0, 2), (2, 2)]);
    assert!(d.player_has_won(0));
    assert!(d.is_terminal());
}

#[test]
fn full_board_without_winner_is_a_draw() {
    let g = play(&[
        (0, 0),
        (1, 1),
        (2, 2),
        (0, 2),
        (2, 0),
        (2, 1),
        (0, 1),
        (1, 0),
        (1, 2),
    ]);
    assert!(g.is_terminal());
    assert!(!g.player_has_won(0));
    assert!(!g.player_has_won(1));
    assert_eq!(g.reward(0), 0);
    assert_eq!(g.reward(1), 0);
}

#[test]
fn rewards_are_zero_sum_on_terminal_boards() {
    let win = play(&[(0, 0), (1, 0), (0, 1), (1, 1), (0, 2)]);
    assert_eq!(win.reward(0) + win.reward(1), 0);
    let draw = play(&[
        (0, 0),
        (1, 1),
        (2, 2),
        (0, 2),
        (2, 0),
        (2, 1),
        (0, 1),
        (1, 0),
        (1, 2),
    ]);
    assert_eq!(draw.reward(0) + draw.reward(1), 0);
}

#[test]
fn render_cells_shows_marks() {
    let g = play(&[(0, 0), (1, 1)]);
    let cells = g.render_cells();
    assert_eq!(cells.len(), 9);
    assert_eq!(cells[0], 'X');
    assert_eq!(cells[4], 'O');
    assert_eq!(cells[8], ' ');
}
