//! Connect-4 on a 6 by 7 board: stones drop to the lowest empty cell of a column,
//! and four in a row, column or diagonal wins.
use std::collections::HashMap;
use vstd::prelude::*;
use crate::board::{Board, BoardModel, KEY_CELLS, key_of, lemma_key_injective, player_of};
use crate::game::{Action, Game, GameState, StateModel, interned, outcome, outcome_map, state_ok};

verus! {

broadcast use vstd::std_specs::hash::group_hash_axioms;

/// The position among the cells of stone `t` of line `l` in the 4 by 4 window
/// whose top-left cell is row `i`, column `j`. Lines 0 to 3 are the window's
/// rows, 4 to 7 its columns, 8 the falling and 9 the rising diagonal.
pub open spec fn window_cell(i: int, j: int, l: int, t: int) -> int {
    if l < 4 {
        (i + l) * 7 + j + t
    } else if l < 8 {
        (i + t) * 7 + j + l - 4
    } else if l == 8 {
        (i + t) * 7 + j + t
    } else {
        (i + t) * 7 + j + 3 - t
    }
}

/// The top-left cell of window `w`: windows go row by row, four to a row.
pub open spec fn window_origin(w: int) -> (int, int) {
    (w / 4, w % 4)
}

pub open spec fn window_line_sum(c: Seq<i8>, w: int, l: int) -> int {
    let (i, j) = window_origin(w);
    c[window_cell(i, j, l, 0)] + c[window_cell(i, j, l, 1)] + c[window_cell(i, j, l, 2)]
        + c[window_cell(i, j, l, 3)]
}

/// Some line of window `w` sums to `target`.
pub open spec fn window_has(c: Seq<i8>, w: int, target: int) -> bool {
    exists|l: int| 0 <= l < 10 && #[trigger] window_line_sum(c, w, l) == target
}

/// The position among the cells of the `t`-th cell of window `w`, row by row.
pub open spec fn window_square(w: int, t: int) -> int {
    let (i, j) = window_origin(w);
    (i + t / 4) * 7 + j + t % 4
}

/// Window `w` holds an empty cell.
pub open spec fn window_empty(c: Seq<i8>, w: int) -> bool {
    exists|t: int| 0 <= t < 16 && #[trigger] c[window_square(w, t)] == 0
}

/// The winner of the first window, from `w` on, that holds four in a line;
/// within a window four of +1 are looked for first.
pub open spec fn first_win(c: Seq<i8>, w: nat) -> Option<int>
    decreases 12 - w,
{
    if w >= 12 {
        None
    } else if window_has(c, w as int, 4) {
        Some(1)
    } else if window_has(c, w as int, -4) {
        Some(-1)
    } else {
        first_win(c, w + 1)
    }
}

/// The outcome for player +1, once the game is over.
pub open spec fn c4_result(c: Seq<i8>) -> Option<int> {
    match first_win(c, 0) {
        Some(p) => Some(p),
        None => if exists|w: int| 0 <= w < 12 && #[trigger] window_empty(c, w) {
            None
        } else {
            Some(0)
        },
    }
}

/// The lowest empty cell of column `j` among rows below `i`.
pub open spec fn lowest_empty(c: Seq<i8>, j: int, i: nat) -> Option<usize>
    decreases i,
{
    if i == 0 {
        None
    } else if c[(i - 1) * 7 + j] == 0 {
        Some((i - 1) as usize)
    } else {
        lowest_empty(c, j, (i - 1) as nat)
    }
}

/// For each of the first `n` columns that is not full, its lowest empty cell.
pub open spec fn drop_cells(c: Seq<i8>, n: nat) -> Seq<Action>
    decreases n,
{
    if n == 0 {
        seq![]
    } else {
        let prev = drop_cells(c, (n - 1) as nat);
        match lowest_empty(c, n - 1, 6) {
            Some(i) => prev.push((i, (n - 1) as usize)),
            None => prev,
        }
    }
}

/// The state that the rules give a board.
pub open spec fn c4_rules(b: BoardModel) -> StateModel {
    let r = c4_result(b.cells);
    StateModel {
        board: b,
        player: player_of(b.cells),
        result: match r {
            Some(w) => Some(outcome_map(w)),
            None => None,
        },
        is_terminal: r.is_some(),
        actions: if r.is_some() {
            seq![]
        } else {
            drop_cells(b.cells, 7)
        },
    }
}

pub open spec fn c4_accepts(b: BoardModel) -> bool {
    b.rows == 6 && b.cols == 7 && b.wf()
}

proof fn lemma_lowest_empty(c: Seq<i8>, j: int, i: nat)
    requires
        c.len() == 42,
        0 <= j < 7,
        i <= 6,
    ensures
        match lowest_empty(c, j, i) {
            Some(r) => r < i && c[r * 7 + j] == 0,
            None => forall|r: int| 0 <= r < i ==> #[trigger] c[r * 7 + j] != 0,
        },
    decreases i,
{
    if i > 0 {
        lemma_lowest_empty(c, j, (i - 1) as nat);
    }
}

proof fn lemma_drop_cells(c: Seq<i8>, n: nat)
    requires
        c.len() == 42,
        n <= 7,
    ensures
        drop_cells(c, n).len() <= n,
        forall|k: int|
            0 <= k < drop_cells(c, n).len() ==> {
                let a = #[trigger] drop_cells(c, n)[k];
                &&& a.0 < 6
                &&& a.1 < 7
                &&& c[a.0 * 7 + a.1] == 0
            },
        (exists|r: int, j: int| 0 <= r < 6 && 0 <= j < n && #[trigger] c[r * 7 + j] == 0) ==> drop_cells(
            c,
            n,
        ).len() > 0,
    decreases n,
{
    if n > 0 {
        lemma_drop_cells(c, (n - 1) as nat);
        lemma_lowest_empty(c, n - 1, 6);
        if exists|r: int, j: int| 0 <= r < 6 && 0 <= j < n && #[trigger] c[r * 7 + j] == 0 {
            let (r, j) = choose|r: int, j: int| 0 <= r < 6 && 0 <= j < n && #[trigger] c[r * 7 + j] == 0;
            if j < n - 1 {
                assert(exists|r: int, j: int| 0 <= r < 6 && 0 <= j < n - 1 && #[trigger] c[r * 7 + j] == 0);
            }
        }
    }
}

proof fn lemma_first_win(c: Seq<i8>, w: nat)
    ensures
        match first_win(c, w) {
            Some(p) => p == 1 || p == -1,
            None => true,
        },
    decreases 12 - w,
{
    if w < 12 {
        lemma_first_win(c, w + 1);
    }
}

proof fn lemma_rules_ok(b: BoardModel)
    requires
        c4_accepts(b),
    ensures
        state_ok(c4_rules(b)),
{
    let c = b.cells;
    lemma_first_win(c, 0);
    assert(c.len() <= KEY_CELLS);
    lemma_drop_cells(c, 7);
    let m = c4_rules(b);
    if !m.is_terminal {
        let w = choose|w: int| 0 <= w < 12 && #[trigger] window_empty(c, w);
        let t = choose|t: int| 0 <= t < 16 && #[trigger] c[window_square(w, t)] == 0;
        let (r, j) = (w / 4 + t / 4, w % 4 + t % 4);
        assert(0 <= r < 6 && 0 <= j < 7);
        assert(c[r * 7 + j] == 0);
    }
    assert forall|k: int| 0 <= k < m.actions.len() implies {
        &&& m.board.in_range(#[trigger] m.actions[k])
        &&& m.board.cells[m.board.index(m.actions[k])] == 0
    } by {
        let a = drop_cells(c, 7)[k];
        assert(m.board.index(a) == a.0 * 7 + a.1);
    }
}

/// A Connect-4 position with what the rules derive from it.
#[derive(Debug)]
pub struct Connect4State {
    pub state: Board,
    pub player: i32,
    pub result: Option<Vec<(i32, i32)>>,
    pub is_terminal: bool,
    pub all_legal_actions: Vec<Action>,
}

fn cell(i: usize, j: usize, l: usize, t: usize) -> (r: usize)
    requires
        i < 3,
        j < 4,
        l < 10,
        t < 4,
    ensures
        r == window_cell(i as int, j as int, l as int, t as int),
        r < 42,
{
    if l < 4 {
        (i + l) * 7 + j + t
    } else if l < 8 {
        (i + t) * 7 + j + l - 4
    } else if l == 8 {
        (i + t) * 7 + j + t
    } else {
        (i + t) * 7 + j + 3 - t
    }
}


fn window_has_empty(c: &Vec<i8>, w: usize) -> (r: bool)
    requires
        c@.len() == 42,
        w < 12,
    ensures
        r == window_empty(c@, w as int),
{
    let (i, j) = (w / 4, w % 4);
    let mut t: usize = 0;
    while t < 16
        invariant
            c@.len() == 42,
            w < 12,
            i == w / 4,
            j == w % 4,
            t <= 16,
            forall|u: int| 0 <= u < t ==> #[trigger] c@[window_square(w as int, u)] != 0,
        decreases 16 - t,
    {
        let k = (i + t / 4) * 7 + j + t % 4;
        proof {
            assert(k == window_square(w as int, t as int));
        }
        if c[k] == 0 {
            return true;
        }
        t += 1;
    }
    false
}

impl Connect4State {
    /// Derives the side to move, the result and the legal actions of `state`.
    pub fn new(state: Board) -> (r: Connect4State)
        requires
            c4_accepts(state@),
        ensures
            r.model() == c4_rules(state@),
    {
        let player = state.player_to_move();
        let result = Connect4State::game_result(&state);
        let is_terminal = result.is_some();
        let mut all_legal_actions: Vec<Action> = Vec::new();
        if !is_terminal {
            let mut j: usize = 0;
            while j < 7
                invariant
                    c4_accepts(state@),
                    j <= 7,
                    all_legal_actions@ == drop_cells(state.cells@, j as nat),
                decreases 7 - j,
            {
                let mut i: usize = 6;
                while i > 0 && state.cells[(i - 1) * 7 + j] != 0
                    invariant
                        c4_accepts(state@),
                        i <= 6,
                        j < 7,
                        lowest_empty(state.cells@, j as int, 6) == lowest_empty(
                            state.cells@,
                            j as int,
                            i as nat,
                        ),
                    decreases i,
                {
                    i -= 1;
                }
                if i > 0 {
                    all_legal_actions.push((i - 1, j));
                }
                j += 1;
            }
        }
        Connect4State { state, player, result, is_terminal, all_legal_actions }
    }

    /// The outcome map if `state` is won or drawn.
    pub fn game_result(state: &Board) -> (r: Option<Vec<(i32, i32)>>)
        requires
            c4_accepts(state@),
        ensures
            match c4_result(state.cells@) {
                Some(w) => r.is_some() && r.unwrap()@ == outcome_map(w),
                None => r.is_none(),
            },
    {
        let c = &state.cells;
        let mut has_empty_cells = false;
        let mut w: usize = 0;
        while w < 12
            invariant
                c4_accepts(state@),
                c@ == state.cells@,
                w <= 12,
                first_win(c@, 0) == first_win(c@, w as nat),
                has_empty_cells == exists|v: int| 0 <= v < w && #[trigger] window_empty(c@, v),
            decreases 12 - w,
        {
            let (i, j) = (w / 4, w % 4);
            let mut plus = false;
            let mut minus = false;
            let mut l: usize = 0;
            while l < 10
                invariant
                    c4_accepts(state@),
                    c@ == state.cells@,
                    w < 12,
                    i == w / 4,
                    j == w % 4,
                    l <= 10,
                    plus == exists|m: int|
                        0 <= m < l && #[trigger] window_line_sum(c@, w as int, m) == 4,
                    minus == exists|m: int|
                        0 <= m < l && #[trigger] window_line_sum(c@, w as int, m) == -4,
                decreases 10 - l,
            {
                let s = c[cell(i, j, l, 0)] as i32 + c[cell(i, j, l, 1)] as i32 + c[cell(
                    i,
                    j,
                    l,
                    2,
                )] as i32 + c[cell(i, j, l, 3)] as i32;
                proof {
                    assert(s == window_line_sum(c@, w as int, l as int));
                }
                if s == 4 {
                    plus = true;
                }
                if s == -4 {
                    minus = true;
                }
                l += 1;
            }
            if plus {
                return Some(outcome(1));
            }
            if minus {
                return Some(outcome(-1));
            }
            let empty = window_has_empty(c, w);
            if empty {
                has_empty_cells = true;
            }
            w += 1;
        }
        if !has_empty_cells {
            return Some(outcome(0));
        }
        None
    }
}

impl GameState for Connect4State {
    open spec fn model(&self) -> StateModel {
        StateModel {
            board: self.state@,
            player: self.player as int,
            result: match self.result {
                Some(v) => Some(v@),
                None => None,
            },
            is_terminal: self.is_terminal,
            actions: self.all_legal_actions@,
        }
    }

    fn state(&self) -> (r: &Board) {
        &self.state
    }

    fn is_terminal(&self) -> (r: bool) {
        self.is_terminal
    }

    fn player(&self) -> (r: i32) {
        self.player
    }

    fn result(&self) -> (r: &Option<Vec<(i32, i32)>>) {
        &self.result
    }

    fn all_legal_actions(&self) -> (r: &Vec<Action>) {
        &self.all_legal_actions
    }
}

/// The Connect-4 rules with their table of interned states.
pub struct Connect4 {
    game_states: Vec<Connect4State>,
    index: HashMap<u128, usize>,
}

impl Connect4 {
    /// A game with no state interned yet.
    pub fn new() -> (r: Connect4)
        ensures
            r.wf(),
            r.states().len() == 0,
    {
        Connect4 { game_states: Vec::new(), index: HashMap::new() }
    }

    /// How many states have been interned.
    pub fn num_states(&self) -> (r: usize)
        ensures
            r == self.states().len(),
    {
        self.game_states.len()
    }
}

impl Game for Connect4 {
    type State = Connect4State;

    closed spec fn wf(&self) -> bool {
        &&& forall|i: int|
            0 <= i < self.game_states@.len() ==> {
                let s = #[trigger] self.game_states@[i];
                &&& c4_accepts(s.state@)
                &&& s.model() == c4_rules(s.state@)
                &&& self.index@.contains_key(key_of(s.state.cells@) as u128)
                &&& self.index@[key_of(s.state.cells@) as u128] == i
            }
        &&& forall|k: u128|
            #[trigger] self.index@.contains_key(k) ==> {
                &&& self.index@[k] < self.game_states@.len()
                &&& key_of(self.game_states@[self.index@[k] as int].state.cells@) == k
            }
    }

    closed spec fn states(&self) -> Seq<StateModel> {
        self.game_states@.map_values(|s: Connect4State| s.model())
    }

    open spec fn accepts(b: BoardModel) -> bool {
        c4_accepts(b)
    }

    open spec fn rules(b: BoardModel) -> StateModel {
        c4_rules(b)
    }

    proof fn lemma_table(&self) {
        let st = self.states();
        assert forall|i: int| 0 <= i < st.len() implies state_ok(#[trigger] st[i]) by {
            lemma_rules_ok(self.game_states@[i].state@);
        }
        assert forall|i: int, j: int|
            0 <= i < st.len() && 0 <= j < st.len() && #[trigger] st[i].board
                == #[trigger] st[j].board implies i == j by {
            let (a, b) = (self.game_states@[i], self.game_states@[j]);
            assert(a.state.cells@ == b.state.cells@);
        }
    }

    fn get_state(&mut self, board: &Board) -> (r: usize) {
        let k = board.key();
        match self.index.get(&k) {
            Some(i) => {
                let i = *i;
                proof {
                    let s = self.game_states@[i as int];
                    lemma_key_injective(s.state.cells@, board.cells@);
                    assert(s.state@ == board@);
                    assert(self.states()[i as int] == s.model());
                    assert(self.states()[i as int].board == board@);
                    assert(interned(self.states(), board@));
                }
                i
            },
            None => {
                let st = Connect4State::new(board.duplicate());
                let id = self.game_states.len();
                let ghost old_states = self.game_states@;
                let ghost old_models = self.states();
                proof {
                    assert(!interned(old_models, board@)) by {
                        if interned(old_models, board@) {
                            let j = choose|j: int| 0 <= j < old_models.len() && #[trigger] old_models[j].board == board@;
                            let sj = old_states[j];
                            assert(self.index@.contains_key(key_of(sj.state.cells@) as u128));
                            assert(sj.state.cells@ == board.cells@);
                        }
                    }
                }
                self.game_states.push(st);
                self.index.insert(k, id);
                proof {
                    assert forall|i: int|
                        0 <= i < old_states.len() && self.states()[i].board
                            == board@ implies false by {
                        assert(self.game_states@[i] == old_states[i]);
                    }
                    assert forall|k2: u128| #[trigger]
                        self.index@.contains_key(k2) implies {
                        &&& self.index@[k2] < self.game_states@.len()
                        &&& key_of(self.game_states@[self.index@[k2] as int].state.cells@) == k2
                    } by {
                        if k2 != k {
                            assert(self.game_states@[self.index@[k2] as int]
                                == old_states[self.index@[k2] as int]);
                        }
                    }
                    assert(self.states() =~= old_models.push(st.model()));
                }
                id
            },
        }
    }

    fn transition(&mut self, game_state: usize, action: Action) -> (r: usize) {
        proof {
            self.lemma_table();
            assert(state_ok(self.states()[game_state as int]));
        }
        let s = &self.game_states[game_state];
        let mut b = s.state.duplicate();
        let p = s.player;
        proof {
            let m = self.states()[game_state as int];
            let k = choose|k: int| 0 <= k < m.actions.len() && m.actions[k] == action;
        }
        b.set(action, p as i8);
        self.get_state(&b)
    }

    fn get(&self, id: usize) -> (r: &Connect4State) {
        &self.game_states[id]
    }
}

} // verus!
