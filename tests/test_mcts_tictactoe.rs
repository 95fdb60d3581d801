use mcts_rs::board::Board;
use mcts_rs::game::Game;
use mcts_rs::games::tictactoe::TicTacToe;
use mcts_rs::mcts::{exploration_bonus, isqrt, MCTS, Q_ONE};

fn board(cells: [i8; 9]) -> Board {
    Board { rows: 3, cols: 3, cells: cells.to_vec() }
}

/// The root's child of highest value; of equal values the last.
fn best_child_by_q(mcts: &mut MCTS<TicTacToe>) -> usize {
    let child_states: Vec<usize> =
        mcts.node(mcts.root).child_to_edge_visits.iter().map(|e| e.0).collect();
    let child_nodes: Vec<usize> = child_states.into_iter().map(|s| mcts.get_node(s)).collect();
    let mut best: Option<usize> = None;
    for n in child_nodes {
        match best {
            Some(b) if mcts.node(b).Q > mcts.node(n).Q => {}
            _ => best = Some(n),
        }
    }
    best.expect("No child found")
}

#[test]
fn test_mcts_picks_winning_move_when_almost_won() {
    let mut tictactoe = TicTacToe::new();
    let one_move_to_win = board([1, -1, 0, 1, 1, -1, -1, 0, 0]);
    let almost_won = tictactoe.get_state(&one_move_to_win);
    let mut mcts = MCTS::new(tictactoe, almost_won);
    mcts.search(10);

    let winning_node = best_child_by_q(&mut mcts);
    let winning_child_state = &mcts.game.get(mcts.node(winning_node).game_state).state;
    assert_eq!(winning_child_state.get(2, 2), 1, "MCTS did not pick the winning move.");
}

#[test]
fn test_mcts_tictactoe_test_mcts_results_contain_no_losses() {
    let mut tictactoe = TicTacToe::new();
    let one_move_to_win = board([1, -1, 0, 1, 1, -1, -1, 0, 0]);
    let almost_won = tictactoe.get_state(&one_move_to_win);
    let mut mcts = MCTS::new(tictactoe, almost_won);
    mcts.search(50);

    let root = mcts.node(mcts.root);
    let losses_for_o = *root.results.get(&-1).expect("results broken");
    assert_eq!(losses_for_o, 0, "Expected zero losses for player -1 at the root");
}

#[test]
fn test_mcts_tictactoe_test_mcts_blocks_win() {
    let mut tictactoe = TicTacToe::new();
    let o_can_win = tictactoe.get_state(&board([-1, 1, 0, 1, -1, 0, 0, 0, 0]));
    let blocked = board([-1, 1, 0, 1, -1, 0, 0, 0, 1]);
    let mut mcts = MCTS::new(tictactoe, o_can_win);
    mcts.search(50);

    let chosen_node = best_child_by_q(&mut mcts);
    let chosen_state = &mcts.game.get(mcts.node(chosen_node).game_state).state;
    assert_eq!(*chosen_state, blocked, "MCTS did not block the winning move");
}

#[test]
fn test_mcts_tictactoe_test_one_run_expands_and_selects_one() {
    let mut tictactoe = TicTacToe::new();
    let new_game = tictactoe.get_state(&Board::zeros(3, 3));
    let mut mcts = MCTS::new(tictactoe, new_game);
    mcts.run();
    assert_eq!(
        mcts.node(mcts.root).N,
        10,
        "One run visits the root and all it's children. 1 + 9 = 10 = root.N"
    );
    mcts.run();
    assert_eq!(mcts.node(mcts.root).N, 11, "one more run has only one path up to root so + 1 more");
}

#[test]
fn search_keeps_visits_values_and_children_consistent() {
    let mut game = TicTacToe::new();
    let root = game.get_state(&Board::zeros(3, 3));
    let mut mcts = MCTS::with_seed(game, root, 7);
    mcts.search(200);
    assert_eq!(mcts.runs, 200);
    for i in 0..mcts.nodes.len() {
        let n = mcts.node(i);
        if n.N > 0 {
            let edges: u64 = n.child_to_edge_visits.iter().map(|e| e.1).sum();
            assert_eq!(n.N, 1 + edges);
        }
        assert!(-Q_ONE <= n.Q && n.Q <= Q_ONE);
        if n.is_expanded {
            let st = mcts.game.get(n.game_state);
            let mut expected: Vec<Vec<i8>> = Vec::new();
            for a in st.all_legal_actions.iter() {
                let mut cells = st.state.cells.clone();
                cells[a.0 * 3 + a.1] = st.player as i8;
                expected.push(cells);
            }
            let mut children: Vec<Vec<i8>> = n
                .child_to_edge_visits
                .iter()
                .map(|e| mcts.game.get(e.0).state.cells.clone())
                .collect();
            expected.sort();
            children.sort();
            assert_eq!(children, expected);
        }
    }
}

#[test]
fn first_run_sets_every_root_edge_to_one_and_tallies_each_playout() {
    let mut game = TicTacToe::new();
    let root = game.get_state(&Board::zeros(3, 3));
    let mut mcts = MCTS::new(game, root);
    mcts.run();
    let r = mcts.node(mcts.root);
    assert!(r.is_expanded);
    assert_eq!(r.child_to_edge_visits.len(), 9);
    assert!(r.child_to_edge_visits.iter().all(|e| e.1 == 1));
    let tallied: u64 = r.results.values().sum();
    assert_eq!(tallied, 10);
    for e in r.child_to_edge_visits.iter() {
        let c = mcts.node_of[&e.0];
        assert_eq!(mcts.node(c).N, 1);
    }
}

#[test]
fn terminal_root_is_never_expanded() {
    let mut game = TicTacToe::new();
    let won = game.get_state(&board([1, 1, 1, -1, -1, 0, 0, 0, 0]));
    let mut mcts = MCTS::new(game, won);
    mcts.search(3);
    let r = mcts.node(mcts.root);
    assert!(!r.is_expanded);
    assert!(r.is_terminal);
    assert_eq!(r.N, 1);
    // +1 has won, so the side to move at the root (-1) lost every playout.
    assert_eq!(*r.results.get(&-1).unwrap(), 3);
    assert_eq!(r.Q, Q_ONE);
}

#[test]
fn rollout_from_forced_position_returns_its_outcome() {
    let mut game = TicTacToe::new();
    // One empty cell left; filling it gives +1 the top row.
    let s = game.get_state(&board([1, 1, 0, -1, -1, 1, 1, -1, -1]));
    let mut mcts = MCTS::new(game, s);
    let r = mcts.rollout(mcts.root);
    assert_eq!(r, vec![(1, 1), (-1, -1)]);
}

#[test]
fn backprop_flips_the_outcome_and_averages_children() {
    let mut game = TicTacToe::new();
    let s = game.get_state(&board([1, 1, 0, -1, -1, 1, 1, -1, -1]));
    let mut mcts = MCTS::new(game, s);
    mcts.run();
    let root = mcts.node(mcts.root);
    let child = mcts.node(mcts.node_of[&root.child_to_edge_visits[0].0]);
    // The child is won by +1; its side to move (-1) scores -1, so Q = +1.
    assert_eq!(child.N, 1);
    assert_eq!(child.Q, Q_ONE);
    // The root: N = 1 + 1, Q = -(1/2)(+1 + 1 * 1) = -1 in fixed point.
    assert_eq!(root.N, 2);
    assert_eq!(root.Q, -Q_ONE);
    assert_eq!(*root.results.get(&1).unwrap(), 2);
}

#[test]
fn puct_adds_the_exploration_bonus() {
    let mut game = TicTacToe::new();
    let root = game.get_state(&Board::zeros(3, 3));
    let mut mcts = MCTS::new(game, root);
    mcts.run();
    let r = mcts.root;
    let (c, visits) = mcts.node(r).child_to_edge_visits[0];
    let ci = mcts.node_of[&c];
    // sqrt(10) = 3.1622776...; with one edge visit the bonus is 3162277 / 2.
    let expected = mcts.node(ci).Q + 1_581_138;
    assert_eq!(visits, 1);
    assert_eq!(mcts.PUCT(r, ci), expected);
    let best = mcts.best_child(r);
    for e in mcts.node(r).child_to_edge_visits.iter() {
        let other = mcts.node_of[&e.0];
        assert!(mcts.PUCT(r, other) <= mcts.PUCT(r, best));
    }
}

#[test]
fn integer_square_root_and_bonus() {
    assert_eq!(isqrt(0), 0);
    assert_eq!(isqrt(1), 1);
    assert_eq!(isqrt(15), 3);
    assert_eq!(isqrt(16), 4);
    assert_eq!(isqrt(u128::MAX), u64::MAX);
    assert_eq!(exploration_bonus(4, 1), 1_000_000);
    assert_eq!(exploration_bonus(0, 0), 0);
    assert_eq!(exploration_bonus(2, 0), 1_414_213);
}

#[test]
fn select_follows_best_children_and_counts_edges() {
    let mut game = TicTacToe::new();
    let root = game.get_state(&Board::zeros(3, 3));
    let mut mcts = MCTS::new(game, root);
    mcts.run();
    let best = mcts.best_child(mcts.root);
    let path = mcts.select();
    assert_eq!(path, vec![mcts.root, best]);
    let best_state = mcts.node(best).game_state;
    let edge = mcts
        .node(mcts.root)
        .child_to_edge_visits
        .iter()
        .find(|e| e.0 == best_state)
        .unwrap()
        .1;
    assert_eq!(edge, 2);
}

#[test]
fn forced_playouts_give_exact_values() {
    // -1 to move; filling (0, 2) leads to a draw, filling (2, 2) lets +1 win.
    let mut game = TicTacToe::new();
    let s = game.get_state(&board([1, 1, 0, -1, -1, 1, 1, -1, 0]));
    let mut mcts = MCTS::new(game, s);
    mcts.run();
    let root = mcts.node(mcts.root);
    let draw_child = mcts.node(mcts.node_of[&root.child_to_edge_visits[0].0]);
    let loss_child = mcts.node(mcts.node_of[&root.child_to_edge_visits[1].0]);
    assert_eq!((draw_child.N, draw_child.Q), (1, 0));
    assert_eq!((loss_child.N, loss_child.Q), (1, -Q_ONE));
    // Q = -(1/3)(0 + 0 * 1 + (-1) * 1) after the final playout through the draw.
    assert_eq!(root.N, 3);
    assert_eq!(root.Q, 333_333);
    assert_eq!(*root.results.get(&-1).unwrap(), 1);
    assert_eq!(*root.results.get(&0).unwrap(), 2);
    assert_eq!(*root.results.get(&1).unwrap(), 0);
}
