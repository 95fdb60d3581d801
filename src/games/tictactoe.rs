//! Tic-Tac-Toe on a 3 by 3 board: three in a row, column or diagonal wins.
use std::collections::HashMap;
use vstd::prelude::*;
use crate::board::{Board, BoardModel, key_of, lemma_key_injective, player_of};
use crate::game::{Action, Game, GameState, StateModel, interned, outcome, outcome_map, state_ok};

verus! {

broadcast use vstd::std_specs::hash::group_hash_axioms;

/// The cells of line `k`: three rows, then three columns, then the two diagonals.
pub open spec fn ttt_line(k: int) -> (int, int, int) {
    if k < 3 {
        (3 * k, 3 * k + 1, 3 * k + 2)
    } else if k < 6 {
        (k - 3, k, k + 3)
    } else if k == 6 {
        (0, 4, 8)
    } else {
        (2, 4, 6)
    }
}

pub open spec fn line_sum(c: Seq<i8>, k: int) -> int {
    let (a, b, d) = ttt_line(k);
    c[a] + c[b] + c[d]
}

/// Some line sums to three stones of `p`.
pub open spec fn ttt_wins(c: Seq<i8>, p: int) -> bool {
    exists|k: int| 0 <= k < 8 && #[trigger] line_sum(c, k) == 3 * p
}

/// No cell is empty.
pub open spec fn full(c: Seq<i8>) -> bool {
    forall|i: int| 0 <= i < c.len() ==> #[trigger] c[i] != 0
}

/// The outcome for player +1, once the game is over.
pub open spec fn ttt_result(c: Seq<i8>) -> Option<int> {
    if ttt_wins(c, 1) {
        Some(1)
    } else if ttt_wins(c, -1) {
        Some(-1)
    } else if full(c) {
        Some(0)
    } else {
        None
    }
}

/// The empty cells among the first `n`, in row-major order.
pub open spec fn empty_cells(c: Seq<i8>, n: nat) -> Seq<Action>
    decreases n,
{
    if n == 0 {
        seq![]
    } else {
        let prev = empty_cells(c, (n - 1) as nat);
        let i = n - 1;
        if c[i] == 0 {
            prev.push(((i / 3) as usize, (i % 3) as usize))
        } else {
            prev
        }
    }
}

/// The state that the rules give a board.
pub open spec fn ttt_rules(b: BoardModel) -> StateModel {
    let r = ttt_result(b.cells);
    StateModel {
        board: b,
        player: player_of(b.cells),
        result: match r {
            Some(w) => Some(outcome_map(w)),
            None => None,
        },
        is_terminal: r.is_some(),
        actions: if r.is_some() {
            seq![]
        } else {
            empty_cells(b.cells, 9)
        },
    }
}

pub open spec fn ttt_accepts(b: BoardModel) -> bool {
    b.rows == 3 && b.cols == 3 && b.wf()
}

proof fn lemma_empty_cells(c: Seq<i8>, n: nat)
    requires
        c.len() == 9,
        n <= 9,
    ensures
        empty_cells(c, n).len() <= n,
        forall|k: int|
            0 <= k < empty_cells(c, n).len() ==> {
                let a = #[trigger] empty_cells(c, n)[k];
                &&& a.0 < 3
                &&& a.1 < 3
                &&& c[a.0 * 3 + a.1] == 0
            },
        (exists|i: int| 0 <= i < n && c[i] == 0) ==> empty_cells(c, n).len() > 0,
    decreases n,
{
    if n > 0 {
        lemma_empty_cells(c, (n - 1) as nat);
        let i = n - 1;
        assert((i / 3) * 3 + i % 3 == i);
        if exists|j: int| 0 <= j < n && c[j] == 0 {
            if c[i] != 0 {
                let j = choose|j: int| 0 <= j < n && c[j] == 0;
                assert(0 <= j < n - 1);
            }
        }
    }
}

proof fn lemma_rules_ok(b: BoardModel)
    requires
        ttt_accepts(b),
    ensures
        state_ok(ttt_rules(b)),
{
    let c = b.cells;
    lemma_empty_cells(c, 9);
    let m = ttt_rules(b);
    if !m.is_terminal {
        assert(!full(c));
        let i = choose|i: int| 0 <= i < c.len() && c[i] == 0;
        assert(exists|j: int| 0 <= j < 9 && c[j] == 0);
    }
    assert forall|k: int| 0 <= k < m.actions.len() implies {
        &&& m.board.in_range(#[trigger] m.actions[k])
        &&& m.board.cells[m.board.index(m.actions[k])] == 0
    } by {
        let a = empty_cells(c, 9)[k];
        assert(m.board.index(a) == a.0 * 3 + a.1);
    }
}

/// A Tic-Tac-Toe position with what the rules derive from it.
#[derive(Debug)]
pub struct TicTacToeState {
    pub state: Board,
    pub player: i32,
    pub result: Option<Vec<(i32, i32)>>,
    pub is_terminal: bool,
    pub all_legal_actions: Vec<Action>,
}

fn line(k: usize) -> (r: (usize, usize, usize))
    requires
        k < 8,
    ensures
        r.0 as int == ttt_line(k as int).0,
        r.1 as int == ttt_line(k as int).1,
        r.2 as int == ttt_line(k as int).2,
        r.0 < 9 && r.1 < 9 && r.2 < 9,
{
    if k < 3 {
        (3 * k, 3 * k + 1, 3 * k + 2)
    } else if k < 6 {
        (k - 3, k, k + 3)
    } else if k == 6 {
        (0, 4, 8)
    } else {
        (2, 4, 6)
    }
}

impl TicTacToeState {
    /// Derives the side to move, the result and the legal actions of `state`.
    pub fn new(state: Board) -> (r: TicTacToeState)
        requires
            ttt_accepts(state@),
        ensures
            r.model() == ttt_rules(state@),
    {
        let player = state.player_to_move();
        let result = TicTacToeState::game_result(&state);
        let is_terminal = result.is_some();
        let mut all_legal_actions: Vec<Action> = Vec::new();
        if !is_terminal {
            let mut i: usize = 0;
            while i < 9
                invariant
                    ttt_accepts(state@),
                    i <= 9,
                    all_legal_actions@ == empty_cells(state.cells@, i as nat),
                decreases 9 - i,
            {
                if state.cells[i] == 0 {
                    all_legal_actions.push((i / 3, i % 3));
                }
                i += 1;
            }
        }
        TicTacToeState { state, player, result, is_terminal, all_legal_actions }
    }

    /// The outcome map if `state` is won or drawn.
    pub fn game_result(state: &Board) -> (r: Option<Vec<(i32, i32)>>)
        requires
            ttt_accepts(state@),
        ensures
            match ttt_result(state.cells@) {
                Some(w) => r.is_some() && r.unwrap()@ == outcome_map(w),
                None => r.is_none(),
            },
    {
        let c = &state.cells;
        let mut plus = false;
        let mut minus = false;
        let mut k: usize = 0;
        while k < 8
            invariant
                ttt_accepts(state@),
                c@ == state.cells@,
                k <= 8,
                plus == exists|m: int| 0 <= m < k && #[trigger] line_sum(c@, m) == 3,
                minus == exists|m: int| 0 <= m < k && #[trigger] line_sum(c@, m) == -3,
            decreases 8 - k,
        {
            let (a, b, d) = line(k);
            let s = c[a] as i32 + c[b] as i32 + c[d] as i32;
            proof {
                assert(s == line_sum(c@, k as int));
            }
            if s == 3 {
                plus = true;
            }
            if s == -3 {
                minus = true;
            }
            k += 1;
        }
        if plus {
            return Some(outcome(1));
        }
        if minus {
            return Some(outcome(-1));
        }
        let mut i: usize = 0;
        while i < 9
            invariant
                ttt_accepts(state@),
                c@ == state.cells@,
                i <= 9,
                forall|j: int| 0 <= j < i ==> c@[j] != 0,
                !ttt_wins(c@, 1),
                !ttt_wins(c@, -1),
            decreases 9 - i,
        {
            if c[i] == 0 {
                proof {
                    assert(!full(c@));
                }
                return None;
            }
            i += 1;
        }
        proof {
            assert(full(c@));
        }
        Some(outcome(0))
    }
}

impl GameState for TicTacToeState {
    open spec fn model(&self) -> StateModel {
        StateModel {
            board: self.state@,
            player: self.player as int,
            result: match self.result {
                Some(v) => Some(v@),
                None => None,
            },
            is_terminal: self.is_terminal,
            actions: self.all_legal_actions@,
        }
    }

    fn state(&self) -> (r: &Board) {
        &self.state
    }

    fn is_terminal(&self) -> (r: bool) {
        self.is_terminal
    }

    fn player(&self) -> (r: i32) {
        self.player
    }

    fn result(&self) -> (r: &Option<Vec<(i32, i32)>>) {
        &self.result
    }

    fn all_legal_actions(&self) -> (r: &Vec<Action>) {
        &self.all_legal_actions
    }
}

/// The Tic-Tac-Toe rules with their table of interned states.
pub struct TicTacToe {
    game_states: Vec<TicTacToeState>,
    index: HashMap<u128, usize>,
}

impl TicTacToe {
    /// A game with no state interned yet.
    pub fn new() -> (r: TicTacToe)
        ensures
            r.wf(),
            r.states().len() == 0,
    {
        TicTacToe { game_states: Vec::new(), index: HashMap::new() }
    }

    /// How many states have been interned.
    pub fn num_states(&self) -> (r: usize)
        ensures
            r == self.states().len(),
    {
        self.game_states.len()
    }
}

impl Game for TicTacToe {
    type State = TicTacToeState;

    closed spec fn wf(&self) -> bool {
        &&& forall|i: int|
            0 <= i < self.game_states@.len() ==> {
                let s = #[trigger] self.game_states@[i];
                &&& ttt_accepts(s.state@)
                &&& s.model() == ttt_rules(s.state@)
                &&& self.index@.contains_key(key_of(s.state.cells@) as u128)
                &&& self.index@[key_of(s.state.cells@) as u128] == i
            }
        &&& forall|k: u128|
            #[trigger] self.index@.contains_key(k) ==> {
                &&& self.index@[k] < self.game_states@.len()
                &&& key_of(self.game_states@[self.index@[k] as int].state.cells@) == k
            }
    }

    closed spec fn states(&self) -> Seq<StateModel> {
        self.game_states@.map_values(|s: TicTacToeState| s.model())
    }

    open spec fn accepts(b: BoardModel) -> bool {
        ttt_accepts(b)
    }

    open spec fn rules(b: BoardModel) -> StateModel {
        ttt_rules(b)
    }

    proof fn lemma_table(&self) {
        let st = self.states();
        assert forall|i: int| 0 <= i < st.len() implies state_ok(#[trigger] st[i]) by {
            lemma_rules_ok(self.game_states@[i].state@);
        }
        assert forall|i: int, j: int|
            0 <= i < st.len() && 0 <= j < st.len() && #[trigger] st[i].board
                == #[trigger] st[j].board implies i == j by {
            let (a, b) = (self.game_states@[i], self.game_states@[j]);
            assert(a.state.cells@ == b.state.cells@);
        }
    }

    fn get_state(&mut self, board: &Board) -> (r: usize) {
        let k = board.key();
        match self.index.get(&k) {
            Some(i) => {
                let i = *i;
                proof {
                    let s = self.game_states@[i as int];
                    lemma_key_injective(s.state.cells@, board.cells@);
                    assert(s.state@ == board@);
                    assert(self.states()[i as int] == s.model());
                    assert(self.states()[i as int].board == board@);
                    assert(interned(self.states(), board@));
                }
                i
            },
            None => {
                let st = TicTacToeState::new(board.duplicate());
                let id = self.game_states.len();
                let ghost old_states = self.game_states@;
                let ghost old_models = self.states();
                proof {
                    assert(!interned(old_models, board@)) by {
                        if interned(old_models, board@) {
                            let j = choose|j: int| 0 <= j < old_models.len() && #[trigger] old_models[j].board == board@;
                            let sj = old_states[j];
                            assert(self.index@.contains_key(key_of(sj.state.cells@) as u128));
                            assert(sj.state.cells@ == board.cells@);
                        }
                    }
                }
                self.game_states.push(st);
                self.index.insert(k, id);
                proof {
                    assert forall|i: int|
                        0 <= i < old_states.len() && self.states()[i].board
                            == board@ implies false by {
                        assert(self.game_states@[i] == old_states[i]);
                    }
                    assert forall|k2: u128| #[trigger]
                        self.index@.contains_key(k2) implies {
                        &&& self.index@[k2] < self.game_states@.len()
                        &&& key_of(self.game_states@[self.index@[k2] as int].state.cells@) == k2
                    } by {
                        if k2 != k {
                            assert(self.game_states@[self.index@[k2] as int]
                                == old_states[self.index@[k2] as int]);
                        }
                    }
                    assert(self.states() =~= old_models.push(st.model()));
                }
                id
            },
        }
    }

    fn transition(&mut self, game_state: usize, action: Action) -> (r: usize) {
        proof {
            self.lemma_table();
            assert(state_ok(self.states()[game_state as int]));
        }
        let s = &self.game_states[game_state];
        let mut b = s.state.duplicate();
        let p = s.player;
        proof {
            let m = self.states()[game_state as int];
            let k = choose|k: int| 0 <= k < m.actions.len() && m.actions[k] == action;
        }
        b.set(action, p as i8);
        self.get_state(&b)
    }

    fn get(&self, id: usize) -> (r: &TicTacToeState) {
        &self.game_states[id]
    }
}

} // verus!
