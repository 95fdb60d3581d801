use mcts_rs::board::Board;
use mcts_rs::game::Game;
use mcts_rs::games::connect4::Connect4;
use mcts_rs::mcts::MCTS;

fn board(rows: [[i8; 7]; 6]) -> Board {
    let mut cells = Vec::new();
    for row in rows.iter() {
        cells.extend_from_slice(row);
    }
    Board { rows: 6, cols: 7, cells }
}

/// The root's child of highest value; of equal values the last.
fn best_child_by_q(mcts: &mut MCTS<Connect4>) -> usize {
    let child_states: Vec<usize> =
        mcts.node(mcts.root).child_to_edge_visits.iter().map(|e| e.0).collect();
    let child_nodes: Vec<usize> = child_states.into_iter().map(|s| mcts.get_node(s)).collect();
    let mut best: Option<usize> = None;
    for n in child_nodes {
        match best {
            Some(b) if mcts.node(b).Q > mcts.node(n).Q => {}
            _ => best = Some(n),
        }
    }
    best.expect("No child found")
}

#[test]
fn test_mcts_chooses_winning_move() {
    let mut connect4 = Connect4::new();
    let b = board([
        [0, 0, 0, 0, 0, 0, 0],
        [0, 0, 0, 0, 0, 0, 0],
        [0, 0, 0, 0, 0, 0, 0],
        [0, 0, 0, 1, 0, 0, 0],
        [0, 0, -1, 1, 0, 0, 0],
        [0, 0, -1, 1, -1, 0, 0],
    ]);
    let one_move_to_win = connect4.get_state(&b);
    let mut mcts = MCTS::new(connect4, one_move_to_win);
    mcts.search(50);

    let winning_node = best_child_by_q(&mut mcts);
    let winning_child_state = &mcts.game.get(mcts.node(winning_node).game_state).state;
    let answer = board([
        [0, 0, 0, 0, 0, 0, 0],
        [0, 0, 0, 0, 0, 0, 0],
        [0, 0, 0, 1, 0, 0, 0],
        [0, 0, 0, 1, 0, 0, 0],
        [0, 0, -1, 1, 0, 0, 0],
        [0, 0, -1, 1, -1, 0, 0],
    ]);
    assert_eq!(*winning_child_state, answer, "MCTS did not pick the winning move");
}

#[test]
fn test_mcts_connect4_test_mcts_results_contain_no_losses() {
    let mut connect4 = Connect4::new();
    let cant_lose = board([
        [0, -1, 0, -1, 1, -1, 0],
        [-1, 1, 0, 1, -1, 1, -1],
        [-1, 1, 1, 1, -1, -1, 1],
        [1, -1, 1, -1, 1, -1, 1],
        [1, -1, 1, -1, 1, -1, 1],
        [-1, 1, -1, 1, -1, 1, -1],
    ]);
    let win_or_draw = connect4.get_state(&cant_lose);
    let mut mcts = MCTS::new(connect4, win_or_draw);
    mcts.search(50);

    let root = mcts.node(mcts.root);
    let losses_for_o = *root.results.get(&-1).expect("results broken");
    assert_eq!(losses_for_o, 0, "Expected zero losses for player -1 at the root");
}

#[test]
fn test_mcts_connect4_test_mcts_blocks_win() {
    let mut connect4 = Connect4::new();
    let b = board([
        [0, 0, 0, 0, 0, 0, 0],
        [0, 0, 0, 1, 0, 0, 0],
        [0, 0, 0, -1, 0, 0, 0],
        [0, 0, -1, 1, 0, 0, 0],
        [0, 0, -1, 1, 1, 0, 0],
        [0, 0, -1, 1, -1, 0, 0],
    ]);
    let o_can_win = connect4.get_state(&b);
    let blocked = board([
        [0, 0, 0, 0, 0, 0, 0],
        [0, 0, 0, 1, 0, 0, 0],
        [0, 0, 1, -1, 0, 0, 0],
        [0, 0, -1, 1, 0, 0, 0],
        [0, 0, -1, 1, 1, 0, 0],
        [0, 0, -1, 1, -1, 0, 0],
    ]);
    let mut mcts = MCTS::new(connect4, o_can_win);
    mcts.search(50);

    let chosen_node = best_child_by_q(&mut mcts);
    let chosen_state = &mcts.game.get(mcts.node(chosen_node).game_state).state;
    assert_eq!(*chosen_state, blocked, "MCTS did not block the winning move");
}

#[test]
fn test_mcts_connect4_test_one_run_expands_and_selects_one() {
    let mut connect4 = Connect4::new();
    let new_game = connect4.get_state(&Board::zeros(6, 7));
    let mut mcts = MCTS::new(connect4, new_game);
    mcts.run();
    assert_eq!(
        mcts.node(mcts.root).N,
        8,
        "One run visits the root and all it's children. 1 + 7 = 8 = root.N"
    );
    mcts.run();
    assert_eq!(mcts.node(mcts.root).N, 9, "one more run has only one path up to root so + 1 more");
}

#[test]
fn connect4_get_node_is_idempotent() {
    let mut connect4 = Connect4::new();
    let s = connect4.get_state(&Board::zeros(6, 7));
    let mut mcts = MCTS::new(connect4, s);
    let a = mcts.get_node(s);
    let b = mcts.get_node(s);
    assert_eq!(a, b);
    assert_eq!(a, mcts.root);
    assert_eq!(mcts.nodes.len(), 1);
    assert_eq!(mcts.node(a).N, 0);
    assert!(!mcts.node(a).is_expanded);
}

#[test]
fn connect4_search_keeps_counts_and_values_consistent() {
    let mut connect4 = Connect4::new();
    let s = connect4.get_state(&Board::zeros(6, 7));
    let mut mcts = MCTS::with_seed(connect4, s, 3);
    mcts.search(40);
    assert_eq!(mcts.node(mcts.root).N, 1 + 7 + 39);
    for i in 0..mcts.nodes.len() {
        let n = mcts.node(i);
        if n.N > 0 {
            let edges: u64 = n.child_to_edge_visits.iter().map(|e| e.1).sum();
            assert_eq!(n.N, 1 + edges);
        }
        assert!(n.Q.abs() <= mcts_rs::mcts::Q_ONE);
        assert_eq!(mcts.node_of[&n.game_state], i);
    }
}
