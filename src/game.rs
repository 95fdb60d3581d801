//! The contract between the search and a game: interned states and their successors.
use vstd::prelude::*;
use crate::board::{Board, BoardModel, KEY_CELLS, player_of};

verus! {

/// A move: the row and column of the cell to fill.
pub type Action = (usize, usize);

/// The most legal actions a state may offer.
pub const MAX_ACTIONS: usize = 64;

/// What a game state is, mathematically.
pub ghost struct StateModel {
    pub board: BoardModel,
    /// The side to move, +1 or -1.
    pub player: int,
    /// For a finished game, each player paired with its outcome (-1, 0 or +1).
    pub result: Option<Seq<(i32, i32)>>,
    pub is_terminal: bool,
    pub actions: Seq<Action>,
}

/// The outcome map of a finished game in which player +1 scores `w`.
pub open spec fn outcome_map(w: int) -> Seq<(i32, i32)> {
    seq![(1i32, w as i32), (-1i32, (-w) as i32)]
}

/// `r` pairs +1 and -1 with opposite outcomes, each a loss, a draw or a win.
pub open spec fn is_outcome(r: Seq<(i32, i32)>) -> bool {
    &&& r.len() == 2
    &&& r[0].0 == 1
    &&& r[1].0 == -1
    &&& -1 <= r[0].1 <= 1
    &&& r[1].1 == -r[0].1
}

/// The outcome that `r` gives to `player`.
pub open spec fn reward_for(r: Seq<(i32, i32)>, player: int) -> int {
    if r[0].0 == player {
        r[0].1 as int
    } else {
        r[1].1 as int
    }
}

/// The outcome map of a finished game in which player +1 scores `w`.
pub fn outcome(w: i32) -> (r: Vec<(i32, i32)>)
    requires
        -1 <= w <= 1,
    ensures
        r@ == outcome_map(w as int),
        is_outcome(r@),
{
    let v = -w;
    let r = vec![(1i32, w), (-1i32, v)];
    proof {
        assert(r@ =~= outcome_map(w as int));
    }
    r
}

/// The facts about a single state that hold in every game of this library.
pub open spec fn state_ok(m: StateModel) -> bool {
    &&& m.board.wf()
    &&& m.board.cells.len() <= KEY_CELLS
    &&& m.player == player_of(m.board.cells)
    &&& m.is_terminal == m.result.is_some()
    &&& (m.result.is_some() ==> is_outcome(m.result.unwrap()))
    &&& (m.is_terminal <==> m.actions.len() == 0)
    &&& m.actions.len() <= MAX_ACTIONS
    &&& forall|k: int|
        0 <= k < m.actions.len() ==> {
            &&& m.board.in_range(#[trigger] m.actions[k])
            &&& m.board.cells[m.board.index(m.actions[k])] == 0
        }
}

/// Every interned state is sound, and no board is interned twice.
pub open spec fn table_ok(states: Seq<StateModel>) -> bool {
    &&& forall|i: int| 0 <= i < states.len() ==> state_ok(#[trigger] states[i])
    &&& forall|i: int, j: int|
        0 <= i < states.len() && 0 <= j < states.len() && #[trigger] states[i].board
            == #[trigger] states[j].board ==> i == j
}

/// `new` keeps every state of `old` under its id.
pub open spec fn grows(old: Seq<StateModel>, new: Seq<StateModel>) -> bool {
    &&& old.len() <= new.len()
    &&& forall|i: int| 0 <= i < old.len() ==> new[i] == #[trigger] old[i]
}

/// Some state of `states` has board `b`.
pub open spec fn interned(states: Seq<StateModel>, b: BoardModel) -> bool {
    exists|i: int| 0 <= i < states.len() && #[trigger] states[i].board == b
}

/// Interning board `b`, whose state is `m`, took the table from `old` to
/// `new` and gave id `r`: a board already seen leaves the table alone, a new
/// one is appended.
pub open spec fn intern_step(
    old: Seq<StateModel>,
    new: Seq<StateModel>,
    b: BoardModel,
    m: StateModel,
    r: int,
) -> bool {
    &&& interned(old, b) ==> new == old
    &&& !interned(old, b) ==> r == old.len() && new == old.push(m)
}

/// Read access to a state.
pub trait GameState: Sized {
    spec fn model(&self) -> StateModel;

    /// The board.
    fn state(&self) -> (r: &Board)
        ensures
            r@ == self.model().board,
    ;

    /// Whether the game is over.
    fn is_terminal(&self) -> (r: bool)
        ensures
            r == self.model().is_terminal,
    ;

    /// The side to move.
    fn player(&self) -> (r: i32)
        ensures
            r as int == self.model().player,
    ;

    /// Each player's outcome, once the game is over.
    fn result(&self) -> (r: &Option<Vec<(i32, i32)>>)
        ensures
            match r {
                Some(v) => self.model().result == Some(v@),
                None => self.model().result.is_none(),
            },
    ;

    /// The legal actions, in the rule set's order.
    fn all_legal_actions(&self) -> (r: &Vec<Action>)
        ensures
            r@ == self.model().actions,
    ;
}

/// A rule set with its table of interned states; a state is named by its id in
/// the table.
pub trait Game: Sized {
    type State: GameState;

    spec fn wf(&self) -> bool;

    /// The interned states, by id.
    spec fn states(&self) -> Seq<StateModel>;

    /// The boards that this game is played on.
    spec fn accepts(b: BoardModel) -> bool;

    /// The state that the rules give a board.
    spec fn rules(b: BoardModel) -> StateModel;

    /// The table is sound.
    proof fn lemma_table(&self)
        requires
            self.wf(),
        ensures
            table_ok(self.states()),
    ;

    /// The id of the state of `board`, interned on first sight.
    fn get_state(&mut self, board: &Board) -> (r: usize)
        requires
            old(self).wf(),
            Self::accepts(board@),
        ensures
            final(self).wf(),
            grows(old(self).states(), final(self).states()),
            r < final(self).states().len(),
            final(self).states()[r as int] == Self::rules(board@),
            final(self).states()[r as int].board == board@,
            forall|i: int|
                0 <= i < old(self).states().len() && old(self).states()[i].board == board@ ==> r
                    == i,
            intern_step(old(self).states(), final(self).states(), board@, Self::rules(board@), r as int),
    ;

    /// The id of the state reached by playing `action` for the side to move.
    fn transition(&mut self, game_state: usize, action: Action) -> (r: usize)
        requires
            old(self).wf(),
            game_state < old(self).states().len(),
            old(self).states()[game_state as int].actions.contains(action),
        ensures
            final(self).wf(),
            grows(old(self).states(), final(self).states()),
            r < final(self).states().len(),
            ({
                let s = old(self).states()[game_state as int];
                let b = s.board.place(action, s.player);
                &&& final(self).states()[r as int] == Self::rules(b)
                &&& final(self).states()[r as int].board == b
                &&& intern_step(old(self).states(), final(self).states(), b, Self::rules(b), r as int)
            }),
    ;

    /// The state with id `id`.
    fn get(&self, id: usize) -> (r: &Self::State)
        requires
            self.wf(),
            id < self.states().len(),
        ensures
            r.model() == self.states()[id as int],
    ;
}

/// State `y` follows state `x` by one legal move of the side to move.
pub open spec fn step(states: Seq<StateModel>, x: int, y: int) -> bool {
    exists|a: Action| #[trigger]
        states[x].actions.contains(a) && states[y].board == states[x].board.place(a, states[x].player)
}

/// `p` is a sequence of state ids, each following the one before by a legal move.
pub open spec fn is_play(states: Seq<StateModel>, p: Seq<int>) -> bool {
    &&& p.len() >= 1
    &&& forall|i: int| 0 <= i < p.len() ==> 0 <= #[trigger] p[i] < states.len()
    &&& forall|i: int| 0 <= i < p.len() - 1 ==> #[trigger] step(states, p[i], p[i + 1])
}

/// State `t` is reached from state `s` by legal moves through the table.
pub open spec fn reachable(states: Seq<StateModel>, s: int, t: int) -> bool {
    exists|p: Seq<int>| #[trigger] is_play(states, p) && p[0] == s && p.last() == t
}

/// A sequence of legal moves stays one as the table grows.
pub proof fn lemma_play_grows(old: Seq<StateModel>, new: Seq<StateModel>, p: Seq<int>)
    requires
        grows(old, new),
        is_play(old, p),
    ensures
        is_play(new, p),
{
    assert forall|i: int| 0 <= i < p.len() - 1 implies #[trigger] step(new, p[i], p[i + 1]) by {
        assert(step(old, p[i], p[i + 1]));
        assert(new[p[i]] == old[p[i]] && new[p[i + 1]] == old[p[i + 1]]);
    }
}

/// Interning is a function of the board: two ids whose states have one board
/// are one id.
pub proof fn lemma_interning_is_function<G: Game>(g: &G, i: int, j: int)
    requires
        g.wf(),
        0 <= i < g.states().len(),
        0 <= j < g.states().len(),
        g.states()[i].board == g.states()[j].board,
    ensures
        i == j,
{
    g.lemma_table();
}

/// In every finished game the two players' outcomes cancel.
pub proof fn lemma_terminal_results_cancel<G: Game>(g: &G, i: int)
    requires
        g.wf(),
        0 <= i < g.states().len(),
        g.states()[i].is_terminal,
    ensures
        ({
            let r = g.states()[i].result.unwrap();
            reward_for(r, 1) + reward_for(r, -1) == 0
        }),
{
    g.lemma_table();
    assert(state_ok(g.states()[i]));
}

} // verus!
