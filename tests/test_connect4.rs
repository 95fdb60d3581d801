use mcts_rs::board::Board;
use mcts_rs::game::Game;
use mcts_rs::games::connect4::{Connect4, Connect4State};

fn board(rows: [[i8; 7]; 6]) -> Board {
    let mut cells = Vec::new();
    for row in rows.iter() {
        cells.extend_from_slice(row);
    }
    Board { rows: 6, cols: 7, cells }
}

fn cant_lose() -> Board {
    board([
        [0, -1, 0, -1, 1, -1, 0],
        [-1, 1, 0, 1, -1, 1, -1],
        [-1, 1, 1, 1, -1, -1, 1],
        [1, -1, 1, -1, 1, -1, 1],
        [1, -1, 1, -1, 1, -1, 1],
        [-1, 1, -1, 1, -1, 1, -1],
    ])
}

fn explore_states(game: &mut Connect4, state: usize) {
    if !game.get(state).is_terminal {
        let actions = game.get(state).all_legal_actions.clone();
        for action in actions.iter() {
            let next_state = game.transition(state, *action);
            explore_states(game, next_state);
        }
    }
}

#[test]
fn test_connect4_all_legal_actions() {
    let mut connect4 = Connect4::new();
    let initial_state = connect4.get_state(&cant_lose());
    let expected_actions = vec![(0, 0), (1, 2), (0, 6)];

    assert_eq!(
        connect4.get(initial_state).all_legal_actions.clone(),
        expected_actions,
        "The legal actions do not match the expected actions"
    );
}

#[test]
fn test_connect4_finds_all_states() {
    let mut connect4 = Connect4::new();
    let initial_state = connect4.get_state(&cant_lose());
    explore_states(&mut connect4, initial_state);

    assert_eq!(connect4.num_states(), 16, "The number of states should be 5478");
}

#[test]
fn connect4_empty_board_offers_bottom_row() {
    let st = Connect4State::new(Board::zeros(6, 7));
    let expected: Vec<(usize, usize)> = (0..7).map(|j| (5, j)).collect();
    assert_eq!(st.all_legal_actions, expected);
    assert_eq!(st.player, 1);
    assert!(!st.is_terminal);
}

#[test]
fn connect4_stone_drops_to_lowest_empty_cell() {
    let mut game = Connect4::new();
    let s = game.get_state(&Board::zeros(6, 7));
    let t = game.transition(s, (5, 3));
    let u = game.transition(t, (4, 3));
    let st = game.get(u);
    assert_eq!(st.state.get(5, 3), 1);
    assert_eq!(st.state.get(4, 3), -1);
    assert_eq!(st.all_legal_actions[3], (3, 3));
    assert_eq!(st.player, 1);
}

#[test]
fn connect4_horizontal_win() {
    let mut rows = [[0i8; 7]; 6];
    rows[5] = [0, 1, 1, 1, 1, 0, 0];
    rows[4] = [0, -1, -1, -1, 0, 0, 0];
    let r = Connect4State::game_result(&board(rows));
    assert_eq!(r, Some(vec![(1, 1), (-1, -1)]));
}

#[test]
fn connect4_vertical_win_for_minus() {
    let mut rows = [[0i8; 7]; 6];
    for i in 2..6 {
        rows[i][6] = -1;
    }
    rows[5][0] = 1;
    rows[5][1] = 1;
    rows[5][2] = 1;
    rows[4][0] = 1;
    let st = Connect4State::new(board(rows));
    assert!(st.is_terminal);
    assert_eq!(st.result, Some(vec![(1, -1), (-1, 1)]));
    assert!(st.all_legal_actions.is_empty());
}

#[test]
fn connect4_diagonal_wins() {
    let mut rising = [[0i8; 7]; 6];
    for t in 0..4 {
        rising[5 - t][t] = 1;
    }
    assert_eq!(Connect4State::game_result(&board(rising)), Some(vec![(1, 1), (-1, -1)]));
    let mut falling = [[0i8; 7]; 6];
    for t in 0..4 {
        falling[2 + t][3 + t] = -1;
    }
    assert_eq!(Connect4State::game_result(&board(falling)), Some(vec![(1, -1), (-1, 1)]));
}

#[test]
fn connect4_full_board_without_four_is_draw() {
    let rows = [
        [1, 1, -1, -1, 1, 1, -1],
        [-1, -1, 1, 1, -1, -1, 1],
        [1, 1, -1, -1, 1, 1, -1],
        [-1, -1, 1, 1, -1, -1, 1],
        [1, 1, -1, -1, 1, 1, -1],
        [-1, -1, 1, 1, -1, -1, 1],
    ];
    let st = Connect4State::new(board(rows));
    assert!(st.is_terminal);
    assert_eq!(st.result, Some(vec![(1, 0), (-1, 0)]));
}

#[test]
fn connect4_unfinished_board_has_no_result() {
    assert_eq!(Connect4State::game_result(&cant_lose()), None);
}
