use mcts_rs::board::Board;
use mcts_rs::game::{Game, GameState};
use mcts_rs::games::tictactoe::{TicTacToe, TicTacToeState};

fn explore_states(game: &mut TicTacToe, state: usize) {
    let actions = game.get(state).all_legal_actions.clone();
    for action in actions.iter() {
        let next_state = game.transition(state, *action);
        explore_states(game, next_state);
    }
}

fn board(cells: [i8; 9]) -> Board {
    Board { rows: 3, cols: 3, cells: cells.to_vec() }
}

#[test]
fn test_tictactoe_finds_all_states() {
    let mut tictactoe = TicTacToe::new();
    let empty_board = Board::zeros(3, 3);
    let initial_state = tictactoe.get_state(&empty_board);
    explore_states(&mut tictactoe, initial_state);

    assert_eq!(tictactoe.num_states(), 5478, "The number of states should be 5478");
}

#[test]
fn tictactoe_interning_returns_same_id() {
    let mut game = TicTacToe::new();
    let b = board([1, -1, 0, 0, 0, 0, 0, 0, 0]);
    let a = game.get_state(&b);
    let again = game.get_state(&b);
    assert_eq!(a, again);
    assert_eq!(game.num_states(), 1);
    let empty = game.get_state(&Board::zeros(3, 3));
    let after = game.transition(empty, (0, 0));
    let direct = game.get_state(&board([1, 0, 0, 0, 0, 0, 0, 0, 0]));
    assert_eq!(after, direct);
    assert_eq!(game.num_states(), 3);
}

#[test]
fn tictactoe_transition_places_side_to_move() {
    let mut game = TicTacToe::new();
    let s = game.get_state(&board([1, 0, 0, 0, 0, 0, 0, 0, 0]));
    assert_eq!(game.get(s).player, -1);
    let t = game.transition(s, (1, 2));
    assert_eq!(game.get(t).state.cells, vec![1, 0, 0, 0, 0, -1, 0, 0, 0]);
    assert_eq!(game.get(t).player, 1);
}

#[test]
fn tictactoe_empty_board_has_nine_actions_in_row_major_order() {
    let st = TicTacToeState::new(Board::zeros(3, 3));
    assert_eq!(st.player, 1);
    assert!(!st.is_terminal);
    assert!(st.result.is_none());
    let expected: Vec<(usize, usize)> =
        vec![(0, 0), (0, 1), (0, 2), (1, 0), (1, 1), (1, 2), (2, 0), (2, 1), (2, 2)];
    assert_eq!(st.all_legal_actions, expected);
}

#[test]
fn tictactoe_legal_actions_are_empty_cells() {
    let st = TicTacToeState::new(board([1, -1, 0, 0, 1, 0, -1, 0, 0]));
    assert_eq!(st.all_legal_actions, vec![(0, 2), (1, 0), (1, 2), (2, 1), (2, 2)]);
    assert_eq!(st.player, 1);
}

#[test]
fn tictactoe_row_win_for_plus() {
    let r = TicTacToeState::game_result(&board([1, 1, 1, -1, -1, 0, 0, 0, 0]));
    assert_eq!(r, Some(vec![(1, 1), (-1, -1)]));
}

#[test]
fn tictactoe_column_win_for_minus() {
    let r = TicTacToeState::game_result(&board([-1, 1, 1, -1, 1, 0, -1, 0, 0]));
    assert_eq!(r, Some(vec![(1, -1), (-1, 1)]));
}

#[test]
fn tictactoe_diagonal_wins() {
    let falling = TicTacToeState::game_result(&board([1, -1, 0, -1, 1, 0, 0, 0, 1]));
    assert_eq!(falling, Some(vec![(1, 1), (-1, -1)]));
    let rising = TicTacToeState::game_result(&board([1, 1, -1, 0, -1, 1, -1, 0, 0]));
    assert_eq!(rising, Some(vec![(1, -1), (-1, 1)]));
}

#[test]
fn tictactoe_full_board_without_line_is_draw() {
    let st = TicTacToeState::new(board([1, -1, 1, 1, -1, -1, -1, 1, 1]));
    assert!(st.is_terminal);
    assert_eq!(st.result, Some(vec![(1, 0), (-1, 0)]));
    assert!(st.all_legal_actions.is_empty());
}

#[test]
fn tictactoe_won_board_has_no_actions() {
    let st = TicTacToeState::new(board([1, 1, 1, -1, -1, 0, 0, 0, 0]));
    assert!(st.is_terminal);
    assert!(st.all_legal_actions.is_empty());
}

#[test]
fn tictactoe_unfinished_board_has_no_result() {
    assert_eq!(TicTacToeState::game_result(&board([1, -1, 0, 0, 0, 0, 0, 0, 0])), None);
}

#[test]
fn tictactoe_terminal_results_cancel() {
    let mut game = TicTacToe::new();
    let empty = game.get_state(&Board::zeros(3, 3));
    explore_states(&mut game, empty);
    for id in 0..game.num_states() {
        let st = game.get(id);
        if st.is_terminal() {
            let r = st.result().clone().unwrap();
            assert_eq!(r[0].0, 1);
            assert_eq!(r[1].0, -1);
            assert_eq!(r[0].1 + r[1].1, 0);
        }
    }
}

#[test]
fn board_sum_key_and_player() {
    let b = board([1, -1, 1, 0, 0, 0, 0, 0, 0]);
    assert_eq!(b.sum(), 1);
    assert_eq!(b.player_to_move(), -1);
    assert_eq!(b.get(0, 2), 1);
    assert_eq!(Board::zeros(3, 3).player_to_move(), 1);
    // Digits cell + 1 read in base three, the last cell least significant.
    let small = Board { rows: 1, cols: 3, cells: vec![1, -1, 0] };
    assert_eq!(small.key(), 2 * 9 + 0 * 3 + 1);
    assert_ne!(board([1, 0, 0, 0, 0, 0, 0, 0, 0]).key(), board([0, 1, 0, 0, 0, 0, 0, 0, 0]).key());
}
