//! Monte-Carlo graph search: nodes are interned by game state, and visits are
//! counted on the edges from a parent to each of its children.
//!
//! A node's value `Q` is held in fixed point: `Q_ONE` stands for 1, so that
//! `Q` lies between `-Q_ONE` and `Q_ONE`.
#![allow(non_snake_case)]
use std::collections::HashMap;
use rand::rngs::StdRng;
use rand::seq::SliceRandom;
use rand::SeedableRng;
use vstd::prelude::*;
use crate::board::{BoardModel, empties, lemma_empties_fill, lemma_index_in_range};
use crate::game::{
    Action, Game, GameState, MAX_ACTIONS, StateModel, grows, is_outcome, is_play, lemma_play_grows,
    outcome, reachable, reward_for, state_ok, step,
};

verus! {

broadcast use vstd::std_specs::hash::group_hash_axioms;

/// The fixed-point unit of `Q`.
pub const Q_ONE: i64 = 1_000_000;

/// The most iterations that one engine may run.
pub const RUN_LIMIT: u64 = 4_294_967_295;

/// A bound on each node's visit counts that keeps every sum in range.
pub const COUNT_CAP: u64 = 1_000_000_000_000;

/// The seed of the random playouts unless one is given.
pub const DEFAULT_SEED: u64 = 0;

#[verifier::external_type_specification]
#[verifier::external_body]
pub struct ExStdRng(StdRng);

/// Relies on rand's `SeedableRng::seed_from_u64`, which builds a generator from a seed.
#[verifier::external_body]
fn seeded_rng(seed: u64) -> StdRng {
    StdRng::seed_from_u64(seed)
}

/// Relies on rand's `SliceRandom::choose`, which returns one element of a
/// non-empty slice.
#[verifier::external_body]
fn choose_action(actions: &Vec<Action>, rng: &mut StdRng) -> (r: Action)
    requires
        actions@.len() > 0,
    ensures
        actions@.contains(r),
{
    *actions.choose(rng).unwrap()
}

/// The search node of one game state.
#[derive(Debug)]
pub struct MCTSNode {
    /// The id of the state in the game's table.
    pub game_state: usize,
    pub is_terminal: bool,
    pub is_expanded: bool,
    /// The visit count.
    pub N: u64,
    /// The value for the side to move, in units of `1 / Q_ONE`.
    pub Q: i64,
    /// Each child state with the visits of the edge that leads to it.
    pub child_to_edge_visits: Vec<(usize, u64)>,
    /// How often each outcome (-1, 0, +1) was backed up through this node.
    pub results: HashMap<i32, u64>,
}

/// The sum of the visits of edges `e`.
pub open spec fn edge_sum(e: Seq<(usize, u64)>) -> int
    decreases e.len(),
{
    if e.len() == 0 {
        0
    } else {
        edge_sum(e.drop_last()) + e.last().1
    }
}

/// The tally map holds exactly the three outcomes.
pub open spec fn has_tallies(r: Map<i32, u64>) -> bool {
    r.dom() =~= set![-1i32, 0i32, 1i32]
}

pub open spec fn tallies(r: Map<i32, u64>) -> int {
    r[-1i32] + r[0i32] + r[1i32]
}

/// `-(t / n)` rounded toward zero.
pub open spec fn q_value(t: int, n: int) -> int {
    if t >= 0 {
        -(t / n)
    } else {
        (-t) / n
    }
}

/// The largest `r` up to `hi` with `r * r <= x`.
pub open spec fn sqrt_below(x: nat, hi: nat) -> nat
    decreases hi,
{
    if hi * hi <= x || hi == 0 {
        hi
    } else {
        sqrt_below(x, (hi - 1) as nat)
    }
}

/// The square root of `x`, rounded down.
pub open spec fn sqrt_floor(x: nat) -> nat {
    sqrt_below(x, x)
}

/// The root rounded down is the `r` with `r * r <= x < (r + 1) * (r + 1)`.
pub proof fn lemma_sqrt_floor(x: nat, r: nat)
    requires
        r * r <= x < (r + 1) * (r + 1),
    ensures
        sqrt_floor(x) == r,
{
    assert(r <= x) by (nonlinear_arith)
        requires
            r * r <= x,
    ;
    lemma_sqrt_below(x, r, x);
}

proof fn lemma_sqrt_below(x: nat, r: nat, hi: nat)
    requires
        r * r <= x < (r + 1) * (r + 1),
        r <= hi,
    ensures
        sqrt_below(x, hi) == r,
    decreases hi,
{
    if hi > r {
        assert(hi * hi > x) by (nonlinear_arith)
            requires
                hi >= r + 1,
                x < (r + 1) * (r + 1),
        ;
        lemma_sqrt_below(x, r, (hi - 1) as nat);
    }
}

/// The exploration bonus of an edge with `nsa` visits below a parent visited
/// `n` times: `Q_ONE * sqrt(n) / (1 + nsa)`, rounded down.
pub open spec fn exploration(n: int, nsa: int) -> int {
    sqrt_floor((n * Q_ONE * Q_ONE) as nat) as int / (1 + nsa)
}

/// The square root of `x`, rounded down.
pub fn isqrt(x: u128) -> (r: u64)
    ensures
        r * r <= x < (r + 1) * (r + 1),
        r == sqrt_floor(x as nat),
{
    let mut lo: u128 = 0;
    let mut hi: u128 = 0x1_0000_0000_0000_0000;
    while hi - lo > 1
        invariant
            lo < hi <= 0x1_0000_0000_0000_0000,
            lo * lo <= x,
            x < hi * hi,
        decreases hi - lo,
    {
        let mid = lo + (hi - lo) / 2;
        proof {
            assert(mid * mid < 0x1_0000_0000_0000_0000_0000_0000_0000_0000) by (nonlinear_arith)
                requires
                    mid < 0x1_0000_0000_0000_0000,
            ;
        }
        if mid * mid <= x {
            lo = mid;
        } else {
            hi = mid;
        }
    }
    proof {
        lemma_sqrt_floor(x as nat, lo as nat);
    }
    lo as u64
}

/// The exploration bonus in fixed point: `Q_ONE * sqrt(n) / (1 + nsa)`, rounded down.
pub fn exploration_bonus(n: u64, nsa: u64) -> (r: i64)
    requires
        n <= COUNT_CAP,
    ensures
        r == exploration(n as int, nsa as int),
        0 <= r <= Q_ONE * COUNT_CAP,
{
    let x: u128 = n as u128 * 1_000_000_000_000u128;
    proof {
        assert(Q_ONE * Q_ONE == 1_000_000_000_000);
        assert(x == n * Q_ONE * Q_ONE) by (nonlinear_arith)
            requires
                x == n * 1_000_000_000_000,
                Q_ONE * Q_ONE == 1_000_000_000_000,
        ;
    }
    let root = isqrt(x);
    proof {
        assert(root <= 1_000_000_000_000) by (nonlinear_arith)
            requires
                root * root <= x,
                x <= 1_000_000_000_000_000_000_000_000,
        ;
    }
    let b = root as u128 / (1 + nsa as u128);
    proof {
        assert(b <= root) by (nonlinear_arith)
            requires
                b as int == root as int / (1 + nsa as int),
                nsa >= 0,
        ;
    }
    b as i64
}

/// The node is as it was made for state `s`.
pub open spec fn is_fresh(n: MCTSNode, s: usize, terminal: bool) -> bool {
    &&& n.game_state == s
    &&& n.is_terminal == terminal
    &&& !n.is_expanded
    &&& n.N == 0
    &&& n.Q == 0
    &&& n.child_to_edge_visits@.len() == 0
    &&& n.results@ == map![-1i32 => 0u64, 0i32 => 0u64, 1i32 => 0u64]
}

/// The node has not been visited or expanded, and has no tallies.
pub open spec fn unvisited(n: MCTSNode) -> bool {
    &&& n.N == 0
    &&& n.child_to_edge_visits@.len() == 0
    &&& !n.is_expanded
    &&& n.results@ == map![-1i32 => 0u64, 0i32 => 0u64, 1i32 => 0u64]
}

/// The visit count agrees with the edges: 0 before the first visit, then one
/// more than the edges' visits.
pub open spec fn node_settled(n: MCTSNode) -> bool {
    ||| (n.N == 0 && n.child_to_edge_visits@.len() == 0 && !n.is_expanded)
    ||| (n.N > 0 && n.N == 1 + edge_sum(n.child_to_edge_visits@))
}

impl MCTSNode {
    /// An unvisited, unexpanded node for state `game_state`.
    pub fn new(game_state: usize, is_terminal: bool) -> (r: MCTSNode)
        ensures
            is_fresh(r, game_state, is_terminal),
    {
        let mut results: HashMap<i32, u64> = HashMap::new();
        results.insert(-1, 0);
        results.insert(0, 0);
        results.insert(1, 0);
        proof {
            assert(results@ =~= map![-1i32 => 0u64, 0i32 => 0u64, 1i32 => 0u64]);
        }
        MCTSNode {
            game_state,
            is_terminal,
            is_expanded: false,
            N: 0,
            Q: 0,
            child_to_edge_visits: Vec::new(),
            results,
        }
    }
}

/// Node `n` is node `o` with one more visit on edge `k`.
pub open spec fn bumped(o: MCTSNode, n: MCTSNode, k: int) -> bool {
    let e = o.child_to_edge_visits@;
    &&& 0 <= k < e.len()
    &&& n.child_to_edge_visits@ == e.update(k, (e[k].0, (e[k].1 + 1) as u64))
    &&& n.game_state == o.game_state
    &&& n.is_terminal == o.is_terminal
    &&& n.is_expanded == o.is_expanded
    &&& n.N == o.N
    &&& n.Q == o.Q
    &&& n.results@ == o.results@
}

/// One more visit on edge `k` adds one to the edges' visits.
pub proof fn lemma_edge_sum_bump(e: Seq<(usize, u64)>, k: int, v: u64)
    requires
        0 <= k < e.len(),
        v == e[k].1 + 1,
    ensures
        edge_sum(e.update(k, (e[k].0, v))) == edge_sum(e) + 1,
    decreases e.len(),
{
    let f = e.update(k, (e[k].0, v));
    if k == e.len() - 1 {
        assert(f.drop_last() =~= e.drop_last());
    } else {
        assert(f.drop_last() =~= e.drop_last().update(k, (e[k].0, v)));
        lemma_edge_sum_bump(e.drop_last(), k, v);
    }
}

/// Node `n` has the edges of node `o`, and is settled if `o` was.
pub open spec fn keeps(o: MCTSNode, n: MCTSNode) -> bool {
    &&& n.child_to_edge_visits@ == o.child_to_edge_visits@
    &&& n.is_expanded == o.is_expanded
    &&& n.game_state == o.game_state
    &&& (node_settled(o) ==> node_settled(n))
}

/// `path` with `x` appended.
fn extended(path: &Vec<usize>, x: usize) -> (r: Vec<usize>)
    ensures
        r@ == path@.push(x),
{
    let mut r: Vec<usize> = Vec::new();
    let mut i: usize = 0;
    while i < path.len()
        invariant
            i <= path@.len(),
            r@ == path@.take(i as int),
        decreases path@.len() - i,
    {
        r.push(path[i]);
        proof {
            assert(path@.take(i + 1) =~= path@.take(i as int).push(path@[i as int]));
        }
        i += 1;
    }
    r.push(x);
    proof {
        assert(path@.take(i as int) =~= path@);
    }
    r
}

/// Edges of one visit each sum to their number.
pub proof fn lemma_edge_sum_ones(e: Seq<(usize, u64)>)
    requires
        forall|k: int| 0 <= k < e.len() ==> #[trigger] e[k].1 == 1,
    ensures
        edge_sum(e) == e.len(),
    decreases e.len(),
{
    if e.len() > 0 {
        let d = e.drop_last();
        assert forall|k: int| 0 <= k < d.len() implies #[trigger] d[k].1 == 1 by {
            assert(d[k] == e[k]);
        }
        lemma_edge_sum_ones(d);
        assert(e.last() == e[e.len() - 1]);
    }
}

/// Tallying one more outcome adds one to the tallies.
pub proof fn lemma_tally_add(r: Map<i32, u64>, x: i32)
    requires
        has_tallies(r),
        -1 <= x <= 1,
        r[x] < u64::MAX,
    ensures
        has_tallies(r.insert(x, (r[x] + 1) as u64)),
        tallies(r.insert(x, (r[x] + 1) as u64)) == tallies(r) + 1,
{
    assert(r.insert(x, (r[x] + 1) as u64).dom() =~= set![-1i32, 0i32, 1i32]);
}

/// Within the iteration limit, every count that one more iteration can reach stays
/// below the cap.
pub proof fn lemma_caps(runs: u64)
    requires
        runs <= RUN_LIMIT,
    ensures
        (MAX_ACTIONS + 1) * runs + MAX_ACTIONS + 1 < COUNT_CAP,
        (MAX_ACTIONS + 1) * (runs + 1) == (MAX_ACTIONS + 1) * runs + MAX_ACTIONS + 1,
        runs + MAX_ACTIONS + 2 < COUNT_CAP,
{
    assert((MAX_ACTIONS + 1) * runs <= (MAX_ACTIONS + 1) * RUN_LIMIT) by (nonlinear_arith)
        requires
            runs <= RUN_LIMIT,
    ;
    assert((MAX_ACTIONS + 1) * (runs + 1) == (MAX_ACTIONS + 1) * runs + MAX_ACTIONS + 1) by (nonlinear_arith);
    assert((MAX_ACTIONS + 1) * RUN_LIMIT == 279172874175);
}

/// The outcome backed up `steps` levels above where it was scored: the sign
/// flips at every level.
pub open spec fn backed_reward(r: int, steps: int) -> int {
    if steps % 2 == 0 {
        r
    } else {
        -r
    }
}

/// Node `x` stands in `p` at `from` or later.
pub open spec fn in_suffix(p: Seq<usize>, from: int, x: int) -> bool {
    exists|j: int| from <= j < p.len() && #[trigger] p[j] == x as usize
}

/// The edges' visits over a prefix grow one edge at a time and stay within the total.
pub proof fn lemma_edge_sum_prefix(e: Seq<(usize, u64)>, k: int)
    requires
        0 <= k < e.len(),
    ensures
        edge_sum(e.take(k + 1)) == edge_sum(e.take(k)) + e[k].1,
        0 <= edge_sum(e.take(k)) <= edge_sum(e.take(k + 1)) <= edge_sum(e),
    decreases e.len(),
{
    assert(e.take(k + 1).drop_last() =~= e.take(k));
    lemma_edge_sum_nonneg(e.take(k));
    if k + 1 < e.len() {
        lemma_edge_sum_prefix(e.drop_last(), k);
        assert(e.drop_last().take(k + 1) =~= e.take(k + 1));
        assert(e.drop_last().take(k) =~= e.take(k));
    } else {
        assert(e.take(k + 1) =~= e);
    }
}

pub proof fn lemma_edge_sum_nonneg(e: Seq<(usize, u64)>)
    ensures
        edge_sum(e) >= 0,
    decreases e.len(),
{
    if e.len() > 0 {
        lemma_edge_sum_nonneg(e.drop_last());
    }
}

/// Every edge of `edges` leads to a node already visited or listed in `marked`.
#[verifier::opaque]
pub open spec fn children_marked<G: Game>(m: MCTS<G>, edges: Seq<(usize, u64)>, marked: Seq<usize>) -> bool {
    forall|k: int|
        0 <= k < edges.len() ==> m.nodes@[m.node_of@[(#[trigger] edges[k]).0] as int].N > 0
            || marked.contains(m.node_of@[edges[k].0])
}

/// Every node of `old` that was visited or listed in `marked` is visited in `m`.
#[verifier::opaque]
pub open spec fn marked_visited<G: Game>(old: MCTS<G>, m: MCTS<G>, marked: Seq<usize>) -> bool {
    forall|i: int|
        0 <= i < old.nodes@.len() && (old.nodes@[i].N > 0 || marked.contains(i as usize))
            ==> (#[trigger] m.nodes@[i]).N > 0
}

/// Every node of `marked` that was unvisited in `old` has one visit and one
/// tally in `m`: the one playout from it.
#[verifier::opaque]
pub open spec fn new_children_played<G: Game>(old: MCTS<G>, m: MCTS<G>, marked: Seq<usize>) -> bool {
    forall|i: int|
        0 <= i < marked.len() && unvisited(old.nodes@[marked[i] as int]) ==> {
            let n = #[trigger] m.nodes@[marked[i] as int];
            &&& n.N == 1
            &&& tallies(n.results@) == 1
        }
}

/// Every child of node `u` whose node was made after the first `old_len`
/// nodes has one visit and one tally.
#[verifier::opaque]
pub open spec fn fresh_children_played<G: Game>(old_len: int, m: MCTS<G>, u: int) -> bool {
    let e = m.nodes@[u].child_to_edge_visits@;
    forall|k: int|
        0 <= k < e.len() && m.node_of@[(#[trigger] e[k]).0] >= old_len ==> {
            let n = m.nodes@[m.node_of@[e[k].0] as int];
            &&& n.N == 1
            &&& tallies(n.results@) == 1
        }
}

/// The children made by an expansion each got the one playout.
pub proof fn lemma_fresh_children_played<G: Game>(
    old_len: int,
    pre: MCTS<G>,
    mid: MCTS<G>,
    fin: MCTS<G>,
    u: int,
    edges: Seq<(usize, u64)>,
    marked: Seq<usize>,
)
    requires
        pre.table_inv(),
        0 <= u < old_len <= pre.nodes@.len(),
        children_marked(pre, edges, marked),
        forall|k: int| 0 <= k < edges.len() ==> pre.node_of@.contains_key((#[trigger] edges[k]).0),
        forall|i: int| old_len <= i < pre.nodes@.len() ==> unvisited(#[trigger] pre.nodes@[i]),
        mid.nodes@.len() == pre.nodes@.len(),
        forall|i: int| 0 <= i < pre.nodes@.len() && i != u ==> #[trigger] mid.nodes@[i] == pre.nodes@[i],
        mid.node_of@ == pre.node_of@,
        new_children_played(mid, fin, marked),
        fin.node_of@ == mid.node_of@,
        fin.nodes@[u].child_to_edge_visits@ == edges,
    ensures
        fresh_children_played(old_len, fin, u),
{
    reveal(fresh_children_played);
    reveal(children_marked);
    reveal(new_children_played);
    assert forall|k: int|
        0 <= k < edges.len() && fin.node_of@[(#[trigger] edges[k]).0] >= old_len implies {
            let n = fin.nodes@[fin.node_of@[edges[k].0] as int];
            &&& n.N == 1
            &&& tallies(n.results@) == 1
        } by {
        let c = pre.node_of@[edges[k].0] as int;
        assert(pre.node_of@.contains_key(edges[k].0));
        assert(c < pre.nodes@.len());
        assert(unvisited(pre.nodes@[c]));
        assert(marked.contains(c as usize));
        let i = choose|i: int| 0 <= i < marked.len() && marked[i] == c as usize;
        assert(mid.nodes@[marked[i] as int] == pre.nodes@[c]);
    }
}

/// Every child of node `u` has been visited.
#[verifier::opaque]
pub open spec fn children_visited<G: Game>(m: MCTS<G>, u: int) -> bool {
    let e = m.nodes@[u].child_to_edge_visits@;
    forall|k: int| 0 <= k < e.len() ==> m.nodes@[m.node_of@[(#[trigger] e[k]).0] as int].N > 0
}

/// After expansion, every child that was visited or had a playout is visited.
pub proof fn lemma_children_visited<G: Game>(
    pre: MCTS<G>,
    mid: MCTS<G>,
    fin: MCTS<G>,
    u: int,
    edges: Seq<(usize, u64)>,
    marked: Seq<usize>,
)
    requires
        pre.table_inv(),
        children_marked(pre, edges, marked),
        forall|k: int| 0 <= k < edges.len() ==> pre.node_of@.contains_key((#[trigger] edges[k]).0),
        mid.nodes@.len() == pre.nodes@.len(),
        forall|i: int| 0 <= i < pre.nodes@.len() ==> (#[trigger] mid.nodes@[i]).N == pre.nodes@[i].N,
        mid.node_of@ == pre.node_of@,
        marked_visited(mid, fin, marked),
        fin.node_of@ == mid.node_of@,
        fin.nodes@[u].child_to_edge_visits@ == edges,
    ensures
        children_visited(fin, u),
{
    reveal(children_visited);
    reveal(children_marked);
    reveal(marked_visited);
    assert forall|k: int| 0 <= k < edges.len() implies fin.nodes@[fin.node_of@[(#[trigger] edges[k]).0] as int].N
        > 0 by {
        let i = pre.node_of@[edges[k].0] as int;
        assert(pre.node_of@.contains_key(edges[k].0));
        assert(mid.nodes@[i].N == pre.nodes@[i].N);
    }
}

/// The engine: a game, the search nodes by state, and the root.
pub struct MCTS<G: Game> {
    /// The index of the root node.
    pub root: usize,
    /// The nodes, in the order they were made.
    pub nodes: Vec<MCTSNode>,
    /// The index of the node of each state that has one.
    pub node_of: HashMap<usize, usize>,
    pub game: G,
    /// How many iterations have run.
    pub runs: u64,
    /// The generator of the random playouts.
    pub rng: StdRng,
}

impl<G: Game> MCTS<G> {
    pub open spec fn states(&self) -> Seq<StateModel> {
        self.game.states()
    }

    /// The state of node `i`.
    pub open spec fn state_of(&self, i: int) -> StateModel {
        self.states()[self.nodes@[i].game_state as int]
    }

    /// The node of state `s`.
    pub open spec fn node_for(&self, s: usize) -> MCTSNode {
        self.nodes@[self.node_of@[s] as int]
    }

    /// How many empty cells the board of node `i` has.
    pub open spec fn depth(&self, i: int) -> nat {
        empties(self.state_of(i).board.cells)
    }

    /// The children's values weighted by the visits of the edges `e`.
    pub open spec fn weighted(&self, e: Seq<(usize, u64)>) -> int
        decreases e.len(),
    {
        if e.len() == 0 {
            0
        } else {
            self.weighted(e.drop_last()) + self.node_for(e.last().0).Q * e.last().1
        }
    }

    /// The nodes and the node table agree, and every node's state is interned.
    pub open spec fn table_inv(&self) -> bool {
        &&& self.game.wf()
        &&& self.root < self.nodes@.len()
        &&& forall|i: int|
            0 <= i < self.nodes@.len() ==> {
                let s = (#[trigger] self.nodes@[i]).game_state;
                &&& s < self.states().len()
                &&& self.node_of@.contains_key(s)
                &&& self.node_of@[s] == i
            }
        &&& forall|s: usize| #[trigger]
            self.node_of@.contains_key(s) ==> {
                &&& self.node_of@[s] < self.nodes@.len()
                &&& self.nodes@[self.node_of@[s] as int].game_state == s
            }
    }

    /// Edge `k` of node `i` leads to the state that one of the node's legal
    /// actions reaches.
    pub open spec fn edge_sound(&self, i: int, k: int) -> bool {
        let st = self.state_of(i);
        let c = self.nodes@[i].child_to_edge_visits@[k].0;
        &&& self.node_of@.contains_key(c)
        &&& exists|a: Action| #[trigger]
            st.actions.contains(a) && self.states()[c as int].board == st.board.place(
                a,
                st.player,
            )
    }

    /// Some edge of `e` leads to the state that action `a` reaches from `st`.
    pub open spec fn reaches(&self, e: Seq<(usize, u64)>, st: StateModel, a: Action) -> bool {
        exists|k: int|
            0 <= k < e.len() && self.states()[(#[trigger] e[k]).0 as int].board
                == st.board.place(a, st.player)
    }

    /// `edges` is what expanding a node of state `st` yields: one edge of one
    /// visit to each state that a legal action reaches, with no state twice.
    pub open spec fn edges_ok(&self, st: StateModel, edges: Seq<(usize, u64)>) -> bool {
        &&& edges.len() <= st.actions.len()
        &&& forall|k: int|
            0 <= k < edges.len() ==> {
                &&& self.node_of@.contains_key((#[trigger] edges[k]).0)
                &&& edges[k].1 == 1
                &&& exists|a: Action| #[trigger]
                    st.actions.contains(a) && self.states()[edges[k].0 as int].board
                        == st.board.place(a, st.player)
            }
        &&& forall|k1: int, k2: int|
            0 <= k1 < k2 < edges.len() ==> (#[trigger] edges[k1]).0 != (#[trigger] edges[k2]).0
        &&& forall|j2: int| 0 <= j2 < st.actions.len() ==> #[trigger] self.reaches(edges, st, st.actions[j2])
    }

    /// `edges` is what expanding a node of state `st` yields, and `marked`
    /// holds children that are among them.
    pub open spec fn expansion_ok(&self, st: StateModel, edges: Seq<(usize, u64)>, marked: Seq<usize>) -> bool {
        &&& self.edges_ok(st, edges)
        &&& marked.len() <= st.actions.len()
        &&& forall|m: int|
            0 <= m < marked.len() ==> {
                &&& #[trigger] marked[m] < self.nodes@.len()
                &&& exists|k: int|
                    0 <= k < edges.len() && (#[trigger] edges[k]).0 == self.nodes@[marked[m] as int].game_state
            }
    }

    /// Some edge of node `i` leads to what action `a` reaches.
    pub open spec fn edge_for(&self, i: int, a: Action) -> bool {
        self.reaches(self.nodes@[i].child_to_edge_visits@, self.state_of(i), a)
    }

    /// What holds of node `i` at all times.
    pub open spec fn node_inv(&self, i: int) -> bool {
        let n = self.nodes@[i];
        let st = self.state_of(i);
        let e = n.child_to_edge_visits@;
        &&& n.is_terminal == st.is_terminal
        &&& has_tallies(n.results@)
        &&& -Q_ONE <= n.Q <= Q_ONE
        &&& e.len() <= MAX_ACTIONS
        &&& (!n.is_expanded ==> e.len() == 0)
        &&& (n.is_expanded ==> !n.is_terminal)
        &&& forall|k: int| 0 <= k < e.len() ==> #[trigger] e[k].1 >= 1
        &&& forall|k: int| 0 <= k < e.len() ==> #[trigger] self.edge_sound(i, k)
        &&& forall|k1: int, k2: int|
            0 <= k1 < k2 < e.len() ==> (#[trigger] e[k1]).0 != (#[trigger] e[k2]).0
        &&& n.is_expanded ==> forall|a: Action| #[trigger]
            st.actions.contains(a) ==> self.edge_for(i, a)
    }

    /// The structure of the search graph.
    pub open spec fn core_inv(&self) -> bool {
        &&& self.table_inv()
        &&& forall|i: int| 0 <= i < self.nodes@.len() ==> #[trigger] self.node_inv(i)
    }

    /// Every count of every node is within the given bounds.
    pub open spec fn bounded(&self, edges: int, tally: int) -> bool {
        forall|i: int|
            0 <= i < self.nodes@.len() ==> {
                let n = #[trigger] self.nodes@[i];
                &&& edge_sum(n.child_to_edge_visits@) <= edges
                &&& n.N <= edges + 1
                &&& tallies(n.results@) <= tally
            }
    }

    /// What holds between iterations.
    pub open spec fn inv(&self) -> bool {
        &&& self.core_inv()
        &&& self.runs <= RUN_LIMIT
        &&& self.bounded(
            self.runs + MAX_ACTIONS,
            (MAX_ACTIONS + 1) * self.runs,
        )
    }

    /// Some edge of node `x` leads to the state of node `y`.
    pub open spec fn steps_to(&self, x: usize, y: usize) -> bool {
        let e = self.nodes@[x as int].child_to_edge_visits@;
        exists|k: int| 0 <= k < e.len() && (#[trigger] e[k]).0 == self.nodes@[y as int].game_state
    }

    /// `p` is a path of nodes that follows edges.
    pub open spec fn is_chain(&self, p: Seq<usize>) -> bool {
        &&& p.len() >= 1
        &&& forall|j: int| 0 <= j < p.len() ==> #[trigger] p[j] < self.nodes@.len()
        &&& forall|j: int| 0 <= j < p.len() - 1 ==> #[trigger] self.steps_to(p[j], p[j + 1])
    }

    /// Node `path[j]` was updated by backing `reward_map` up along `path` from `old`:
    /// its visit count is one more than its edges' visits, its value is minus
    /// the mean of the outcome and its children's weighted values, and the
    /// outcome was tallied.
    pub open spec fn backed(
        &self,
        old: &Self,
        path: Seq<usize>,
        reward_map: Seq<(i32, i32)>,
        j: int,
    ) -> bool {
        let x = path[j] as int;
        let o = old.nodes@[x];
        let n = self.nodes@[x];
        let r0 = reward_for(reward_map, old.state_of(path.last() as int).player);
        let r = backed_reward(r0, path.len() - 1 - j);
        &&& n.game_state == o.game_state
        &&& n.is_terminal == o.is_terminal
        &&& n.is_expanded == o.is_expanded
        &&& n.child_to_edge_visits@ == o.child_to_edge_visits@
        &&& n.N == 1 + edge_sum(o.child_to_edge_visits@)
        &&& n.Q == q_value(r * Q_ONE + self.weighted(o.child_to_edge_visits@), n.N as int)
        &&& n.results@ == o.results@.insert(r as i32, (o.results@[r as i32] + 1) as u64)
    }

    /// The PUCT score of edge `k` of node `i`: the child's value plus the
    /// exploration bonus of the edge.
    pub open spec fn puct_at(&self, i: int, k: int) -> int {
        let e = self.nodes@[i].child_to_edge_visits@;
        self.node_for(e[k].0).Q + exploration(self.nodes@[i].N as int, e[k].1 as int)
    }

    /// Edge `k` of node `i` scores highest, and strictly higher than every
    /// earlier edge.
    pub open spec fn is_best(&self, i: int, k: int) -> bool {
        let e = self.nodes@[i].child_to_edge_visits@;
        &&& 0 <= k < e.len()
        &&& forall|j: int| 0 <= j < k ==> #[trigger] self.puct_at(i, j) < self.puct_at(i, k)
        &&& forall|j: int| k < j < e.len() ==> #[trigger] self.puct_at(i, j) <= self.puct_at(i, k)
    }

    /// Selection went from node `p[j]` to node `p[j + 1]`: `p[j]` was expanded
    /// and not terminal, `p[j + 1]` is its best child in `old`, and the edge
    /// between them gained a visit.
    pub open spec fn selected(&self, old: &Self, p: Seq<usize>, j: int) -> bool {
        let x = p[j] as int;
        let o = old.nodes@[x];
        &&& o.is_expanded
        &&& !o.is_terminal
        &&& exists|k: int|
            #[trigger] old.is_best(x, k) && old.node_of@[o.child_to_edge_visits@[k].0] == p[j + 1]
                && bumped(o, self.nodes@[x], k)
    }

    /// Every node's visit count agrees with its edges.
    pub open spec fn settled(&self) -> bool {
        forall|i: int| 0 <= i < self.nodes@.len() ==> node_settled(#[trigger] self.nodes@[i])
    }
}

impl<G: Game> MCTS<G> {
    /// A child lies one stone deeper than its parent.
    pub proof fn lemma_edge_depth(&self, i: int, k: int)
        requires
            self.core_inv(),
            0 <= i < self.nodes@.len(),
            0 <= k < self.nodes@[i].child_to_edge_visits@.len(),
        ensures
            ({
                let c = self.nodes@[i].child_to_edge_visits@[k].0;
                &&& self.node_of@.contains_key(c)
                &&& self.depth(self.node_of@[c] as int) + 1 == self.depth(i)
            }),
    {
        assert(self.node_inv(i));
        assert(self.edge_sound(i, k));
        self.game.lemma_table();
        let st = self.state_of(i);
        let c = self.nodes@[i].child_to_edge_visits@[k].0;
        let a = choose|a: Action| #[trigger]
            st.actions.contains(a) && self.states()[c as int].board == st.board.place(
                a,
                st.player,
            );
        let ka = choose|ka: int| 0 <= ka < st.actions.len() && st.actions[ka] == a;
        assert(state_ok(self.states()[self.nodes@[i].game_state as int]));
        assert(st.actions[ka] == a);
        lemma_index_in_range(st.board, a);
        lemma_empties_fill(st.board.cells, st.board.index(a), st.player as i8);
        let ci = self.node_of@[c] as int;
        assert(self.nodes@[ci].game_state == c);
    }

    /// Along a path the depth falls by one at each step, so no node repeats.
    pub proof fn lemma_chain_depth(&self, p: Seq<usize>)
        requires
            self.core_inv(),
            self.is_chain(p),
        ensures
            forall|j1: int, j2: int|
                0 <= j1 <= j2 < p.len() ==> self.depth(#[trigger] p[j1] as int) == self.depth(
                    #[trigger] p[j2] as int,
                ) + (j2 - j1),
            forall|j1: int, j2: int| 0 <= j1 < j2 < p.len() ==> #[trigger] p[j1] != #[trigger] p[j2],
        decreases p.len(),
    {
        if p.len() > 1 {
            let q = p.drop_last();
            assert(self.is_chain(q)) by {
                assert forall|j: int| 0 <= j < q.len() - 1 implies #[trigger] self.steps_to(
                    q[j],
                    q[j + 1],
                ) by {
                    assert(q[j] == p[j] && q[j + 1] == p[j + 1]);
                    assert(self.steps_to(p[j], p[j + 1]));
                }
            }
            self.lemma_chain_depth(q);
            let m = p.len() - 2;
            assert(self.steps_to(p[m], p[m + 1]));
            let e = self.nodes@[p[m] as int].child_to_edge_visits@;
            let k = choose|k: int|
                0 <= k < e.len() && (#[trigger] e[k]).0 == self.nodes@[p[m + 1] as int].game_state;
            self.lemma_edge_depth(p[m] as int, k);
            let c = self.nodes@[p[m] as int].child_to_edge_visits@[k].0;
            assert(self.node_of@[c] == p[m + 1]);
            assert forall|j1: int, j2: int| 0 <= j1 <= j2 < p.len() implies self.depth(
                #[trigger] p[j1] as int,
            ) == self.depth(#[trigger] p[j2] as int) + (j2 - j1) by {
                if j2 < p.len() - 1 {
                    assert(q[j1] == p[j1] && q[j2] == p[j2]);
                } else if j1 < j2 {
                    assert(q[j1] == p[j1] && q[m] == p[m]);
                }
            }
        }
    }

    /// A child of a path's last node is not on the path.
    pub proof fn lemma_child_off_path(&self, p: Seq<usize>, c: usize)
        requires
            self.core_inv(),
            self.is_chain(p),
            c < self.nodes@.len(),
            self.steps_to(p.last(), c),
        ensures
            !p.contains(c),
    {
        self.lemma_chain_depth(p);
        let u = p.last();
        assert(p[p.len() - 1] == u);
        let e = self.nodes@[u as int].child_to_edge_visits@;
        let k = choose|k: int| 0 <= k < e.len() && (#[trigger] e[k]).0 == self.nodes@[c as int].game_state;
        self.lemma_edge_depth(u as int, k);
        assert(self.node_of@[e[k].0] == c);
        if p.contains(c) {
            let j = choose|j: int| 0 <= j < p.len() && p[j] == c;
            assert(self.depth(p[j] as int) == self.depth(p[p.len() - 1] as int) + (p.len() - 1 - j));
        }
    }

    /// Whether one node steps to another depends only on the first's edges and
    /// the second's state.
    pub proof fn lemma_shape_steps(&self, other: &Self, x: usize, y: usize)
        requires
            x < self.nodes@.len(),
            y < self.nodes@.len(),
            x < other.nodes@.len(),
            y < other.nodes@.len(),
            self.steps_to(x, y),
            other.nodes@[x as int].child_to_edge_visits@ == self.nodes@[x as int].child_to_edge_visits@,
            other.nodes@[y as int].game_state == self.nodes@[y as int].game_state,
        ensures
            other.steps_to(x, y),
    {
        let e = self.nodes@[x as int].child_to_edge_visits@;
        let k = choose|k: int| 0 <= k < e.len() && (#[trigger] e[k]).0 == self.nodes@[y as int].game_state;
        assert(other.nodes@[x as int].child_to_edge_visits@[k] == e[k]);
    }

    /// Changing nodes that no edge of `e` leads to leaves the weighted sum alone.
    pub proof fn lemma_weighted_frame(&self, other: &Self, e: Seq<(usize, u64)>)
        requires
            forall|k: int|
                0 <= k < e.len() ==> #[trigger] self.node_for(e[k].0).Q == other.node_for(e[k].0).Q,
        ensures
            self.weighted(e) == other.weighted(e),
        decreases e.len(),
    {
        if e.len() > 0 {
            let d = e.drop_last();
            assert forall|k: int| 0 <= k < d.len() implies #[trigger] self.node_for(d[k].0).Q
                == other.node_for(d[k].0).Q by {
                assert(d[k] == e[k]);
            }
            self.lemma_weighted_frame(other, d);
            assert(e.last() == e[e.len() - 1]);
        }
    }
}

impl<G: Game> MCTS<G> {
    /// Between iterations, a visited node's visit count is one more than the
    /// sum of its edges' visits.
    pub proof fn lemma_visits_match_edges(&self, i: int)
        requires
            self.settled(),
            0 <= i < self.nodes@.len(),
            self.nodes@[i].N > 0,
        ensures
            self.nodes@[i].N == 1 + edge_sum(self.nodes@[i].child_to_edge_visits@),
    {
        assert(node_settled(self.nodes@[i]));
    }

    /// Every node's value lies between -1 and +1 (`-Q_ONE` and `Q_ONE` in fixed point).
    pub proof fn lemma_value_bounded(&self, i: int)
        requires
            self.core_inv(),
            0 <= i < self.nodes@.len(),
        ensures
            -Q_ONE <= self.nodes@[i].Q <= Q_ONE,
    {
        assert(self.node_inv(i));
    }

    /// The boards of an expanded node's children are exactly the boards that
    /// its legal actions reach.
    pub proof fn lemma_children_are_successors(&self, i: int)
        requires
            self.core_inv(),
            0 <= i < self.nodes@.len(),
            self.nodes@[i].is_expanded,
        ensures
            ({
                let st = self.state_of(i);
                let e = self.nodes@[i].child_to_edge_visits@;
                Set::new(|b: BoardModel| exists|k: int| 0 <= k < e.len() && b == self.states()[e[k].0 as int].board)
                    == Set::new(|b: BoardModel| exists|a: Action| st.actions.contains(a) && b == st.board.place(a, st.player))
            }),
    {
        assert(self.node_inv(i));
        let st = self.state_of(i);
        let e = self.nodes@[i].child_to_edge_visits@;
        let kids = Set::new(|b: BoardModel| exists|k: int| 0 <= k < e.len() && b == self.states()[e[k].0 as int].board);
        let succ = Set::new(|b: BoardModel| exists|a: Action| st.actions.contains(a) && b == st.board.place(a, st.player));
        assert forall|b: BoardModel| kids.contains(b) implies succ.contains(b) by {
            let k = choose|k: int| 0 <= k < e.len() && b == self.states()[e[k].0 as int].board;
            assert(self.edge_sound(i, k));
        }
        assert forall|b: BoardModel| succ.contains(b) implies kids.contains(b) by {
            let a = choose|a: Action| st.actions.contains(a) && b == st.board.place(a, st.player);
            assert(self.edge_for(i, a));
        }
        assert(kids =~= succ);
    }

    /// The engine stays sound while its game interns more states.
    pub proof fn lemma_game_grows(&self, old: &Self)
        requires
            old.core_inv(),
            self.game.wf(),
            grows(old.states(), self.states()),
            self.nodes@ == old.nodes@,
            self.node_of@ == old.node_of@,
            self.root == old.root,
        ensures
            self.core_inv(),
    {
        assert forall|i: int| 0 <= i < self.nodes@.len() implies #[trigger] self.node_inv(i) by {
            assert(old.node_inv(i));
            assert(self.state_of(i) == old.state_of(i));
            let e = self.nodes@[i].child_to_edge_visits@;
            assert forall|k: int| 0 <= k < e.len() implies #[trigger] self.edge_sound(i, k) by {
                assert(old.edge_sound(i, k));
                let c = e[k].0;
                let cn = old.node_of@[c] as int;
                assert(old.nodes@[cn].game_state == c);
                assert(self.states()[c as int] == old.states()[c as int]);
            }
            if self.nodes@[i].is_expanded {
                let st = self.state_of(i);
                assert forall|a: Action| #[trigger] st.actions.contains(a) implies self.edge_for(i, a) by {
                    assert(old.edge_for(i, a));
                    let k = choose|k: int|
                        0 <= k < e.len() && old.states()[(#[trigger] e[k]).0 as int].board
                            == st.board.place(a, st.player);
                    assert(old.edge_sound(i, k));
                    let cn = old.node_of@[e[k].0] as int;
                    assert(old.nodes@[cn].game_state == e[k].0);
                    assert(self.states()[e[k].0 as int] == old.states()[e[k].0 as int]);
                }
            }
        }
    }

    /// Plays uniformly random legal moves from the state of `node` until the
    /// game ends, and returns the final state's outcome map.
    pub fn rollout(&mut self, node: usize) -> (r: Vec<(i32, i32)>)
        requires
            old(self).core_inv(),
            node < old(self).nodes@.len(),
        ensures
            final(self).core_inv(),
            final(self).nodes@ == old(self).nodes@,
            final(self).node_of@ == old(self).node_of@,
            final(self).root == old(self).root,
            final(self).runs == old(self).runs,
            grows(old(self).states(), final(self).states()),
            is_outcome(r@),
            exists|t: int|
                0 <= t < final(self).states().len() && (#[trigger] final(self).states()[t]).is_terminal
                    && final(self).states()[t].result == Some(r@) && reachable(
                    final(self).states(),
                    old(self).nodes@[node as int].game_state as int,
                    t,
                ),
            old(self).state_of(node as int).is_terminal ==> old(self).state_of(node as int).result
                == Some(r@) && final(self).game == old(self).game,
    {
        let ghost old_self = *self;
        let mut cur = self.nodes[node].game_state;
        let ghost start = cur as int;
        let ghost play: Seq<int> = seq![start];
        proof {
            assert(old_self.table_inv());
            assert(is_play(self.states(), play));
        }
        while !self.game.get(cur).is_terminal()
            invariant
                old_self.core_inv(),
                node < old_self.nodes@.len(),
                self.game.wf(),
                cur < self.states().len(),
                grows(old_self.states(), self.states()),
                self.nodes@ == old_self.nodes@,
                self.node_of@ == old_self.node_of@,
                self.root == old_self.root,
                self.runs == old_self.runs,
                old_self.state_of(node as int).is_terminal ==> cur == old_self.nodes@[node as int].game_state
                    && self.game == old_self.game,
                start == old_self.nodes@[node as int].game_state,
                is_play(self.states(), play),
                play[0] == start,
                play.last() == cur as int,
            decreases empties(self.states()[cur as int].board.cells),
        {
            proof {
                self.game.lemma_table();
                assert(state_ok(self.states()[cur as int]));
                if old_self.state_of(node as int).is_terminal {
                    assert(self.states()[cur as int] == old_self.states()[cur as int]);
                }
            }
            let a = choose_action(self.game.get(cur).all_legal_actions(), &mut self.rng);
            let ghost s = self.states()[cur as int];
            let ghost before = self.states();
            let next = self.game.transition(cur, a);
            proof {
                lemma_play_grows(before, self.states(), play);
                assert(self.states()[cur as int] == s);
                assert(step(self.states(), cur as int, next as int));
                let np = play.push(next as int);
                assert forall|i: int| 0 <= i < np.len() - 1 implies #[trigger] step(self.states(), np[i], np[i + 1]) by {
                    if i < np.len() - 2 {
                        assert(np[i] == play[i] && np[i + 1] == play[i + 1]);
                    }
                }
                assert(is_play(self.states(), np));
                play = np;
                let ka = choose|ka: int| 0 <= ka < s.actions.len() && s.actions[ka] == a;
                assert(s.actions[ka] == a);
                lemma_index_in_range(s.board, a);
                lemma_empties_fill(s.board.cells, s.board.index(a), s.player as i8);
            }
            cur = next;
        }
        proof {
            self.game.lemma_table();
            assert(state_ok(self.states()[cur as int]));
            self.lemma_game_grows(&old_self);
            if old_self.state_of(node as int).is_terminal {
                assert(self.states()[cur as int] == old_self.states()[cur as int]);
            }
        }
        let ghost fin = cur as int;
        match self.game.get(cur).result() {
            Some(v) => {
                let w = v[0].1;
                let r = outcome(w);
                proof {
                    assert(r@ =~= v@);
                    assert(reachable(self.states(), start, fin));
                }
                r
            },
            None => {
                proof {
                    assert(false);
                }
                Vec::new()
            },
        }
    }

    /// The edges that expanding node `last` gives it, one visit each, and the
    /// children that had not been visited; children are made as needed.
    #[verifier::spinoff_prover]
    fn expansion_edges(&mut self, last: usize) -> (r: (Vec<(usize, u64)>, Vec<usize>))
        requires
            old(self).core_inv(),
            last < old(self).nodes@.len(),
            !old(self).nodes@[last as int].is_terminal,
        ensures
            final(self).core_inv(),
            final(self).root == old(self).root,
            final(self).runs == old(self).runs,
            grows(old(self).states(), final(self).states()),
            old(self).nodes@.len() <= final(self).nodes@.len(),
            forall|i: int| 0 <= i < old(self).nodes@.len() ==> #[trigger] final(self).nodes@[i] == old(self).nodes@[i],
            forall|i: int|
                old(self).nodes@.len() <= i < final(self).nodes@.len() ==> unvisited(#[trigger] final(self).nodes@[i]),
            forall|x: usize| #[trigger]
                old(self).node_of@.contains_key(x) ==> final(self).node_of@.contains_key(x)
                    && final(self).node_of@[x] == old(self).node_of@[x],
            final(self).expansion_ok(old(self).state_of(last as int), r.0@, r.1@),
            children_marked(*final(self), r.0@, r.1@),
            r.1@.no_duplicates(),
    {
        let ghost old_self = *self;
        proof {
            self.game.lemma_table();
            assert(self.node_inv(last as int));
            assert(state_ok(self.states()[self.nodes@[last as int].game_state as int]));
        }
        let s = self.nodes[last].game_state;
        let ghost st = self.states()[s as int];
        let n_actions = self.game.get(s).all_legal_actions().len();
        let mut edges: Vec<(usize, u64)> = Vec::new();
        let mut marked: Vec<usize> = Vec::new();
        let mut j: usize = 0;
        while j < n_actions
            invariant
                old_self.core_inv(),
                last < old_self.nodes@.len(),
                s == old_self.nodes@[last as int].game_state,
                st == old_self.states()[s as int],
                state_ok(st),
                !st.is_terminal,
                n_actions == st.actions.len(),
                j <= n_actions,
                self.core_inv(),
                self.root == old_self.root,
                self.runs == old_self.runs,
                grows(old_self.states(), self.states()),
                old_self.nodes@.len() <= self.nodes@.len(),
                forall|i: int| 0 <= i < old_self.nodes@.len() ==> #[trigger] self.nodes@[i] == old_self.nodes@[i],
                forall|i: int|
                    old_self.nodes@.len() <= i < self.nodes@.len() ==> unvisited(#[trigger] self.nodes@[i]),
                forall|x: usize| #[trigger]
                    old_self.node_of@.contains_key(x) ==> self.node_of@.contains_key(x)
                        && self.node_of@[x] == old_self.node_of@[x],
                edges@.len() <= j,
                forall|k: int|
                    0 <= k < edges@.len() ==> {
                        &&& self.node_of@.contains_key((#[trigger] edges@[k]).0)
                        &&& edges@[k].1 == 1
                        &&& exists|a: Action| #[trigger]
                            st.actions.contains(a) && self.states()[edges@[k].0 as int].board
                                == st.board.place(a, st.player)
                    },
                forall|k1: int, k2: int|
                    0 <= k1 < k2 < edges@.len() ==> (#[trigger] edges@[k1]).0 != (#[trigger] edges@[k2]).0,
                forall|j2: int| 0 <= j2 < j ==> #[trigger] self.reaches(edges@, st, st.actions[j2]),
                marked@.len() <= j,
                marked@.no_duplicates(),
                forall|k: int|
                    0 <= k < edges@.len() ==> self.nodes@[self.node_of@[(#[trigger] edges@[k]).0] as int].N > 0
                        || marked@.contains(self.node_of@[edges@[k].0]),
                forall|m: int|
                    0 <= m < marked@.len() ==> {
                        &&& #[trigger] marked@[m] < self.nodes@.len()
                        &&& exists|k: int|
                            0 <= k < edges@.len() && (#[trigger] edges@[k]).0 == self.nodes@[marked@[m] as int].game_state
                    },
            decreases n_actions - j,
        {
            let ghost e0 = edges@;
            let ghost m0 = marked@;
            let a = self.game.get(s).all_legal_actions()[j];
            let ghost before = *self;
            let c = self.game.transition(s, a);
            proof {
                self.lemma_game_grows(&before);
                assert(st.actions[j as int] == a);
                assert(st.actions.contains(a));
                assert(before.states()[s as int] == st);
            }
            let mut found = false;
            let mut k: usize = 0;
            while k < edges.len()
                invariant
                    k <= edges@.len(),
                    found == exists|k2: int| 0 <= k2 < k && (#[trigger] edges@[k2]).0 == c,
                decreases edges@.len() - k,
            {
                if edges[k].0 == c {
                    found = true;
                }
                k += 1;
            }
            let ghost mid = *self;
            let ci = self.get_node(c);
            if !found {
                edges.push((c, 1));
            }
            if !found && self.nodes[ci].N == 0 {
                marked.push(ci);
            }
            proof {
                if !found && self.nodes@[ci as int].N == 0 {
                    assert forall|m: int| 0 <= m < m0.len() implies m0[m] != ci by {
                        let k2 = choose|k2: int|
                            0 <= k2 < e0.len() && (#[trigger] e0[k2]).0 == mid.nodes@[m0[m] as int].game_state;
                        assert(self.nodes@[m0[m] as int] == mid.nodes@[m0[m] as int]);
                        assert(self.nodes@[ci as int].game_state == c);
                    }
                    assert(marked@ == m0.push(ci));
                }
                // What an edge recorded before this step still means the same.
                assert forall|k2: int| 0 <= k2 < e0.len() implies {
                    &&& self.node_of@.contains_key(e0[k2].0)
                    &&& #[trigger] self.states()[e0[k2].0 as int] == before.states()[e0[k2].0 as int]
                } by {
                    let id = e0[k2].0;
                    assert(before.node_of@.contains_key(id));
                    let cn = before.node_of@[id] as int;
                    assert(before.nodes@[cn].game_state == id);
                }
                let kc: int = if found {
                    choose|k2: int| 0 <= k2 < e0.len() && (#[trigger] e0[k2]).0 == c
                } else {
                    e0.len() as int
                };
                assert(0 <= kc < edges@.len() && edges@[kc].0 == c);
                assert(self.states()[c as int].board == st.board.place(a, st.player));
                assert forall|k2: int| 0 <= k2 < edges@.len() implies {
                    &&& self.node_of@.contains_key((#[trigger] edges@[k2]).0)
                    &&& edges@[k2].1 == 1
                    &&& exists|a2: Action| #[trigger]
                        st.actions.contains(a2) && self.states()[edges@[k2].0 as int].board
                            == st.board.place(a2, st.player)
                } by {
                    if k2 < e0.len() {
                        assert(edges@[k2] == e0[k2]);
                        let a2 = choose|a2: Action| #[trigger]
                            st.actions.contains(a2) && before.states()[e0[k2].0 as int].board
                                == st.board.place(a2, st.player);
                        assert(self.states()[e0[k2].0 as int] == before.states()[e0[k2].0 as int]);
                    } else {
                        assert(edges@[k2].0 == c);
                    }
                }
                assert forall|k1: int, k2: int|
                    0 <= k1 < k2 < edges@.len() implies (#[trigger] edges@[k1]).0 != (#[trigger] edges@[k2]).0 by {
                    if k2 >= e0.len() {
                        assert(edges@[k1] == e0[k1]);
                    } else {
                        assert(edges@[k1] == e0[k1] && edges@[k2] == e0[k2]);
                    }
                }
                assert forall|j2: int| 0 <= j2 < j + 1 implies #[trigger] self.reaches(edges@, st, st.actions[j2]) by {
                    if j2 < j {
                        assert(before.reaches(e0, st, st.actions[j2]));
                        let k2 = choose|k2: int|
                            0 <= k2 < e0.len() && before.states()[(#[trigger] e0[k2]).0 as int].board
                                == st.board.place(st.actions[j2], st.player);
                        assert(edges@[k2] == e0[k2]);
                        assert(self.states()[e0[k2].0 as int] == before.states()[e0[k2].0 as int]);
                    } else {
                        assert(edges@[kc].0 == c);
                    }
                }
                assert(self.nodes@[ci as int].game_state == c);
                assert forall|m: int| 0 <= m < marked@.len() implies {
                    &&& #[trigger] marked@[m] < self.nodes@.len()
                    &&& exists|k2: int|
                        0 <= k2 < edges@.len() && (#[trigger] edges@[k2]).0 == self.nodes@[marked@[m] as int].game_state
                } by {
                    if m < m0.len() {
                        assert(marked@[m] == m0[m]);
                        let k2 = choose|k2: int|
                            0 <= k2 < e0.len() && (#[trigger] e0[k2]).0 == mid.nodes@[m0[m] as int].game_state;
                        assert(edges@[k2] == e0[k2]);
                        assert(self.nodes@[m0[m] as int] == mid.nodes@[m0[m] as int]);
                    } else {
                        assert(marked@[m] == ci);
                        assert(edges@[kc].0 == c);
                    }
                }
                assert forall|k2: int|
                    0 <= k2 < edges@.len() implies self.nodes@[self.node_of@[(#[trigger] edges@[k2]).0] as int].N > 0
                        || marked@.contains(self.node_of@[edges@[k2].0]) by {
                    let c2 = edges@[k2].0;
                    if k2 < e0.len() {
                        assert(edges@[k2] == e0[k2]);
                        assert(mid.node_of@.contains_key(c2));
                        assert(self.node_of@[c2] == mid.node_of@[c2]);
                        let n2 = mid.node_of@[c2] as int;
                        assert(self.nodes@[n2] == mid.nodes@[n2]);
                        if m0.contains(mid.node_of@[c2]) {
                            let m = choose|m: int| 0 <= m < m0.len() && m0[m] == mid.node_of@[c2];
                            assert(marked@[m] == m0[m]);
                        }
                    } else {
                        assert(c2 == c);
                        if self.nodes@[ci as int].N == 0 {
                            assert(marked@[marked@.len() - 1] == ci);
                        }
                    }
                }
            }
            j += 1;
        }
        proof {
            assert(st == old_self.state_of(last as int));
            assert forall|j2: int| 0 <= j2 < st.actions.len() implies #[trigger] self.reaches(edges@, st, st.actions[j2]) by {
                assert(j2 < j);
            }
            assert(self.expansion_ok(st, edges@, marked@));
            reveal(children_marked);
        }
        (edges, marked)
    }

    /// Plays out from each child in `marked` and backs the outcome up along
    /// `path` extended by that child.
    #[verifier::spinoff_prover]
    fn back_up_children(&mut self, path: &Vec<usize>, marked: &Vec<usize>)
        requires
            old(self).core_inv(),
            old(self).is_chain(path@),
            old(self).runs < RUN_LIMIT,
            marked@.len() <= MAX_ACTIONS,
            marked@.no_duplicates(),
            forall|m2: int|
                0 <= m2 < marked@.len() ==> #[trigger] marked@[m2] < old(self).nodes@.len()
                    && old(self).steps_to(path@.last(), marked@[m2]),
            old(self).bounded(old(self).runs + 1 + MAX_ACTIONS, (MAX_ACTIONS + 1) * old(self).runs),
        ensures
            final(self).core_inv(),
            final(self).is_chain(path@),
            final(self).root == old(self).root,
            final(self).runs == old(self).runs,
            grows(old(self).states(), final(self).states()),
            final(self).nodes@.len() == old(self).nodes@.len(),
            final(self).node_of@ == old(self).node_of@,
            final(self).bounded(
                old(self).runs + 1 + MAX_ACTIONS,
                (MAX_ACTIONS + 1) * old(self).runs + marked@.len(),
            ),
            forall|i: int|
                0 <= i < old(self).nodes@.len() ==> {
                    let (o, n) = (old(self).nodes@[i], #[trigger] final(self).nodes@[i]);
                    &&& n.child_to_edge_visits@ == o.child_to_edge_visits@
                    &&& n.is_expanded == o.is_expanded
                    &&& n.game_state == o.game_state
                },
            forall|i: int|
                0 <= i < old(self).nodes@.len() && !path@.contains(i as usize) ==> keeps(
                    old(self).nodes@[i],
                    #[trigger] final(self).nodes@[i],
                ),
            marked_visited(*old(self), *final(self), marked@),
            new_children_played(*old(self), *final(self), marked@),
    {
        let ghost old_self = *self;
        let ghost pv = path@;
        let last = path[path.len() - 1];
        proof {
            lemma_caps(old_self.runs);
        }
        let mut m: usize = 0;
        while m < marked.len()
            invariant
                old_self.core_inv(),
                old_self.runs < RUN_LIMIT,
                (MAX_ACTIONS + 1) * old_self.runs + MAX_ACTIONS + 1 < COUNT_CAP,
                old_self.runs + MAX_ACTIONS + 2 < COUNT_CAP,
                pv == path@,
                last == pv.last(),
                self.core_inv(),
                self.is_chain(pv),
                self.root == old_self.root,
                self.runs == old_self.runs,
                grows(old_self.states(), self.states()),
                self.nodes@.len() == old_self.nodes@.len(),
                self.node_of@ == old_self.node_of@,
                forall|i: int|
                    0 <= i < old_self.nodes@.len() ==> {
                        let (o, n) = (old_self.nodes@[i], #[trigger] self.nodes@[i]);
                        &&& n.child_to_edge_visits@ == o.child_to_edge_visits@
                        &&& n.is_expanded == o.is_expanded
                        &&& n.game_state == o.game_state
                    },
                marked@.len() <= MAX_ACTIONS,
                m <= marked@.len(),
                forall|m2: int|
                    0 <= m2 < marked@.len() ==> #[trigger] marked@[m2] < self.nodes@.len() && self.steps_to(
                        last,
                        marked@[m2],
                    ),
                self.bounded(old_self.runs + 1 + MAX_ACTIONS, (MAX_ACTIONS + 1) * old_self.runs + m),
                forall|i: int|
                    0 <= i < old_self.nodes@.len() && (old_self.nodes@[i].N > 0 || marked@.take(m as int).contains(
                        i as usize,
                    )) ==> (#[trigger] self.nodes@[i]).N > 0,
                marked@.no_duplicates(),
                forall|m2: int|
                    0 <= m2 < m && unvisited(old_self.nodes@[marked@[m2] as int]) ==> {
                        let n = #[trigger] self.nodes@[marked@[m2] as int];
                        &&& n.N == 1
                        &&& tallies(n.results@) == 1
                    },
                forall|m2: int|
                    m <= m2 < marked@.len() ==> #[trigger] self.nodes@[marked@[m2] as int]
                        == old_self.nodes@[marked@[m2] as int],
                forall|i: int|
                    0 <= i < old_self.nodes@.len() && !pv.contains(i as usize) ==> keeps(
                        old_self.nodes@[i],
                        #[trigger] self.nodes@[i],
                    ),
            decreases marked@.len() - m,
        {
            let ghost h = *self;
            let ci = marked[m];
            let reward = self.rollout(ci);
            let p2 = extended(&path, ci);
            let ghost before = *self;
            proof {
                let q = p2@;
                assert(h.steps_to(last, ci));
                h.lemma_shape_steps(&before, last, ci);
                assert forall|j2: int| 0 <= j2 < q.len() - 1 implies #[trigger] self.steps_to(q[j2], q[j2 + 1]) by {
                    if j2 < q.len() - 2 {
                        assert(q[j2] == pv[j2] && q[j2 + 1] == pv[j2 + 1]);
                        assert(h.steps_to(pv[j2], pv[j2 + 1]));
                        assert(pv[j2] < h.nodes@.len() && pv[j2 + 1] < h.nodes@.len());
                        h.lemma_shape_steps(&before, pv[j2], pv[j2 + 1]);
                    }
                }
                assert forall|j2: int| 0 <= j2 < q.len() implies #[trigger] q[j2] < self.nodes@.len() by {
                    if j2 < q.len() - 1 {
                        assert(q[j2] == pv[j2]);
                    }
                }
                assert(self.is_chain(q));
                assert forall|j2: int| 0 <= j2 < q.len() implies {
                    let n = #[trigger] self.nodes@[q[j2] as int];
                    &&& edge_sum(n.child_to_edge_visits@) < COUNT_CAP
                    &&& tallies(n.results@) < COUNT_CAP
                } by {
                    assert(h.nodes@[q[j2] as int] == self.nodes@[q[j2] as int]);
                }
            }
            self.backprop(p2, reward);
            proof {
                let q = p2@;
                assert forall|i: int| 0 <= i < self.nodes@.len() implies {
                    let (o, n) = (before.nodes@[i], #[trigger] self.nodes@[i]);
                    &&& n.child_to_edge_visits@ == o.child_to_edge_visits@
                    &&& n.is_expanded == o.is_expanded
                    &&& n.game_state == o.game_state
                    &&& edge_sum(n.child_to_edge_visits@) <= old_self.runs + 1 + MAX_ACTIONS
                    &&& n.N <= old_self.runs + 1 + MAX_ACTIONS + 1
                    &&& tallies(n.results@) <= (MAX_ACTIONS + 1) * old_self.runs + (m + 1)
                    &&& (q.contains(i as usize) ==> node_settled(n))
                } by {
                    assert(h.nodes@[i] == before.nodes@[i]);
                    if q.contains(i as usize) {
                        let j2 = choose|j2: int| 0 <= j2 < q.len() && q[j2] == i as usize;
                        assert(self.backed(&before, q, reward@, j2));
                        assert(before.node_inv(i));
                        let r0 = reward_for(reward@, before.state_of(q.last() as int).player);
                        lemma_tally_add(before.nodes@[i].results@, backed_reward(r0, q.len() - 1 - j2) as i32);
                        lemma_edge_sum_nonneg(self.nodes@[i].child_to_edge_visits@);
                    }
                }
                assert forall|j2: int| 0 <= j2 < pv.len() - 1 implies #[trigger] self.steps_to(pv[j2], pv[j2 + 1]) by {
                    assert(h.steps_to(pv[j2], pv[j2 + 1]));
                    h.lemma_shape_steps(self, pv[j2], pv[j2 + 1]);
                }
                assert forall|m2: int| 0 <= m2 < marked@.len() implies #[trigger] marked@[m2] < self.nodes@.len()
                    && self.steps_to(last, marked@[m2]) by {
                    assert(h.steps_to(last, marked@[m2]));
                    h.lemma_shape_steps(self, last, marked@[m2]);
                }
                assert forall|i: int|
                    0 <= i < old_self.nodes@.len() && !pv.contains(i as usize) implies keeps(
                        old_self.nodes@[i],
                        #[trigger] self.nodes@[i],
                    ) by {
                    assert(keeps(old_self.nodes@[i], h.nodes@[i]));
                    assert(h.nodes@[i] == before.nodes@[i]);
                }
                assert(q[q.len() - 1] == ci);
                assert forall|i: int|
                    0 <= i < old_self.nodes@.len() && (old_self.nodes@[i].N > 0 || marked@.take(m + 1).contains(
                        i as usize,
                    )) implies (#[trigger] self.nodes@[i]).N > 0 by {
                    assert(h.nodes@[i] == before.nodes@[i]);
                    if q.contains(i as usize) {
                        let j2 = choose|j2: int| 0 <= j2 < q.len() && q[j2] == i as usize;
                        assert(self.backed(&before, q, reward@, j2));
                        lemma_edge_sum_nonneg(self.nodes@[i].child_to_edge_visits@);
                    } else if marked@.take(m as int).contains(i as usize) || old_self.nodes@[i].N > 0 {
                        assert(h.nodes@[i].N > 0);
                    } else {
                        let t = choose|t: int| 0 <= t < m + 1 && #[trigger] marked@.take(m + 1)[t] == i as usize;
                        if t < m {
                            assert(marked@.take(m as int)[t] == i as usize);
                        } else {
                            assert(i as usize == ci);
                            assert(q.contains(ci));
                        }
                    }
                }
                assert forall|m2: int| 0 <= m2 < marked@.len() && m2 != m implies !q.contains(
                    #[trigger] marked@[m2],
                ) by {
                    h.lemma_child_off_path(pv, marked@[m2]);
                    assert(marked@[m2] != ci);
                    if q.contains(marked@[m2]) {
                        let j = choose|j: int| 0 <= j < q.len() && q[j] == marked@[m2];
                        if j < pv.len() {
                            assert(pv[j] == marked@[m2]);
                        }
                    }
                }
                assert forall|m2: int|
                    0 <= m2 < m + 1 && unvisited(old_self.nodes@[marked@[m2] as int]) implies {
                    let n = #[trigger] self.nodes@[marked@[m2] as int];
                    &&& n.N == 1
                    &&& tallies(n.results@) == 1
                } by {
                    if m2 < m {
                        assert(!q.contains(marked@[m2]));
                        assert(h.nodes@[marked@[m2] as int] == before.nodes@[marked@[m2] as int]);
                    } else {
                        let j = q.len() - 1;
                        assert(q[j] == ci);
                        assert(self.backed(&before, q, reward@, j));
                        let o = before.nodes@[ci as int];
                        assert(o == old_self.nodes@[ci as int]);
                        assert(before.node_inv(ci as int));
                        let r0 = reward_for(reward@, before.state_of(q.last() as int).player);
                        lemma_tally_add(o.results@, backed_reward(r0, q.len() - 1 - j) as i32);
                    }
                }
                assert forall|m2: int|
                    m + 1 <= m2 < marked@.len() implies #[trigger] self.nodes@[marked@[m2] as int]
                        == old_self.nodes@[marked@[m2] as int] by {
                    assert(!q.contains(marked@[m2]));
                    assert(h.nodes@[marked@[m2] as int] == before.nodes@[marked@[m2] as int]);
                }
            }
            m += 1;
        }
        proof {
            assert(marked@.take(m as int) =~= marked@);
            reveal(marked_visited);
            reveal(new_children_played);
        }
    }

    /// Gives node `last` the edges of its expansion and marks it expanded.
    fn install_edges(&mut self, last: usize, edges: Vec<(usize, u64)>)
        requires
            old(self).core_inv(),
            last < old(self).nodes@.len(),
            !old(self).nodes@[last as int].is_terminal,
            old(self).edges_ok(old(self).state_of(last as int), edges@),
        ensures
            final(self).core_inv(),
            final(self).game == old(self).game,
            final(self).root == old(self).root,
            final(self).runs == old(self).runs,
            final(self).node_of@ == old(self).node_of@,
            final(self).nodes@.len() == old(self).nodes@.len(),
            forall|i: int| 0 <= i < old(self).nodes@.len() && i != last ==> #[trigger] final(self).nodes@[i] == old(self).nodes@[i],
            forall|i: int| 0 <= i < old(self).nodes@.len() ==> (#[trigger] final(self).nodes@[i]).N == old(self).nodes@[i].N,
            ({
                let (o, n) = (old(self).nodes@[last as int], final(self).nodes@[last as int]);
                &&& n.child_to_edge_visits@ == edges@
                &&& n.is_expanded
                &&& n.game_state == o.game_state
                &&& n.is_terminal == o.is_terminal
                &&& n.N == o.N
                &&& n.Q == o.Q
                &&& n.results@ == o.results@
            }),
    {
        let ghost ev = edges@;
        let ghost pre = *self;
        let ghost st = self.state_of(last as int);
        proof {
            self.game.lemma_table();
            assert(state_ok(self.states()[self.nodes@[last as int].game_state as int]));
            assert(self.node_inv(last as int));
        }
        self.nodes[last].child_to_edge_visits = edges;
        self.nodes[last].is_expanded = true;
        proof {
            assert(self.state_of(last as int) == st);
            assert(st.actions.len() > 0);
            assert forall|y: int| 0 <= y < self.nodes@.len() implies #[trigger] self.node_inv(y) by {
                assert(pre.node_inv(y));
                if y == last {
                    assert forall|k: int| 0 <= k < ev.len() implies #[trigger] self.edge_sound(y, k) by {
                        assert(self.nodes@[y].child_to_edge_visits@[k] == ev[k]);
                    }
                    assert forall|a: Action| #[trigger] st.actions.contains(a) implies self.edge_for(y, a) by {
                        let j2 = choose|j2: int| 0 <= j2 < st.actions.len() && st.actions[j2] == a;
                        assert(pre.reaches(ev, st, st.actions[j2]));
                        assert(self.nodes@[y].child_to_edge_visits@ == ev);
                    }
                } else {
                    let e = self.nodes@[y].child_to_edge_visits@;
                    assert forall|k: int| 0 <= k < e.len() implies #[trigger] self.edge_sound(y, k) by {
                        assert(pre.edge_sound(y, k));
                    }
                    if self.nodes@[y].is_expanded {
                        let sy = self.state_of(y);
                        assert forall|a: Action| #[trigger] sy.actions.contains(a) implies self.edge_for(y, a) by {
                            assert(pre.edge_for(y, a));
                        }
                    }
                }
            }
        }
    }

    /// Expands the last node of `path` unless it is terminal: every legal
    /// action's successor becomes a child with one edge visit, each child not
    /// visited before gets a playout backed up through `path`, and the best
    /// child is appended to the path.
    #[verifier::spinoff_prover]
    #[verifier::rlimit(80)]
    pub fn expand(&mut self, path: Vec<usize>) -> (r: Vec<usize>)
        requires
            old(self).core_inv(),
            old(self).is_chain(path@),
            !old(self).nodes@[path@.last() as int].is_expanded || old(self).nodes@[path@.last() as int].is_terminal,
            old(self).runs < RUN_LIMIT,
            old(self).bounded(old(self).runs + 1 + MAX_ACTIONS, (MAX_ACTIONS + 1) * old(self).runs),
        ensures
            final(self).core_inv(),
            final(self).root == old(self).root,
            final(self).runs == old(self).runs,
            grows(old(self).states(), final(self).states()),
            old(self).nodes@.len() <= final(self).nodes@.len(),
            forall|s: usize| #[trigger]
                old(self).node_of@.contains_key(s) ==> final(self).node_of@.contains_key(s)
                    && final(self).node_of@[s] == old(self).node_of@[s],
            final(self).bounded(
                old(self).runs + 1 + MAX_ACTIONS,
                (MAX_ACTIONS + 1) * old(self).runs + MAX_ACTIONS,
            ),
            final(self).is_chain(r@),
            old(self).nodes@[path@.last() as int].is_terminal ==> {
                &&& r@ == path@
                &&& final(self).nodes@ == old(self).nodes@
                &&& final(self).game == old(self).game
            },
            !old(self).nodes@[path@.last() as int].is_terminal ==> {
                let u = path@.last() as int;
                let e = final(self).nodes@[u].child_to_edge_visits@;
                &&& r@ == path@.push(r@.last())
                &&& final(self).nodes@[u].is_expanded
                &&& forall|k: int| 0 <= k < e.len() ==> #[trigger] e[k].1 == 1
                &&& children_visited(*final(self), u)
                &&& fresh_children_played(old(self).nodes@.len() as int, *final(self), u)
                &&& exists|k: int| #[trigger] final(self).is_best(u, k) && final(self).node_of@[e[k].0] == r@.last()
            },
            forall|i: int|
                0 <= i < old(self).nodes@.len() && !path@.contains(i as usize) ==> keeps(
                    old(self).nodes@[i],
                    #[trigger] final(self).nodes@[i],
                ),
            forall|i: int|
                0 <= i < old(self).nodes@.len() && i != path@.last() ==> (#[trigger] final(self).nodes@[i]).child_to_edge_visits@
                    == old(self).nodes@[i].child_to_edge_visits@ && final(self).nodes@[i].is_expanded
                    == old(self).nodes@[i].is_expanded,
            forall|i: int|
                0 <= i < old(self).nodes@.len() ==> (#[trigger] final(self).nodes@[i]).game_state
                    == old(self).nodes@[i].game_state,
            forall|i: int|
                old(self).nodes@.len() <= i < final(self).nodes@.len() ==> node_settled(
                    #[trigger] final(self).nodes@[i],
                ),
    {
        let ghost old_self = *self;
        let ghost pv = path@;
        let last = path[path.len() - 1];
        if self.nodes[last].is_terminal {
            return path;
        }
        proof {
            self.lemma_chain_depth(pv);
            self.game.lemma_table();
            assert(self.node_inv(last as int));
            assert(state_ok(self.states()[self.nodes@[last as int].game_state as int]));
        }
        let ghost st = self.state_of(last as int);
        let (edges, marked) = self.expansion_edges(last);
        let ghost ev = edges@;
        let ghost pre = *self;
        proof {
            lemma_edge_sum_ones(ev);
            lemma_caps(old_self.runs);
            assert(pre.state_of(last as int) == st);
            assert forall|i: int| 0 <= i < pv.len() - 1 implies #[trigger] pv[i] != last by {
                assert(old_self.depth(pv[i] as int) == old_self.depth(pv[pv.len() - 1] as int) + (pv.len() - 1 - i));
            }
        }
        self.install_edges(last, edges);
        proof {
            assert forall|j2: int| 0 <= j2 < pv.len() - 1 implies #[trigger] self.steps_to(pv[j2], pv[j2 + 1]) by {
                assert(old_self.steps_to(pv[j2], pv[j2 + 1]));
                assert(pv[j2] != last);
                assert(pv[j2] < old_self.nodes@.len() && pv[j2 + 1] < old_self.nodes@.len());
                assert(pre.nodes@[pv[j2] as int] == old_self.nodes@[pv[j2] as int]);
                assert(pre.nodes@[pv[j2 + 1] as int] == old_self.nodes@[pv[j2 + 1] as int]);
                old_self.lemma_shape_steps(self, pv[j2], pv[j2 + 1]);
            }
            assert(pre.reaches(ev, st, st.actions[0]));
            assert(ev.len() > 0);
            assert forall|i: int| 0 <= i < self.nodes@.len() implies {
                let n = #[trigger] self.nodes@[i];
                &&& edge_sum(n.child_to_edge_visits@) <= old_self.runs + 1 + MAX_ACTIONS
                &&& n.N <= old_self.runs + 1 + MAX_ACTIONS + 1
                &&& tallies(n.results@) <= (MAX_ACTIONS + 1) * old_self.runs
            } by {
                if i < old_self.nodes@.len() {
                    assert(pre.nodes@[i] == old_self.nodes@[i]);
                } else {
                    assert(unvisited(pre.nodes@[i]));
                    assert(i != last);
                }
            }
        }
        proof {
            assert forall|m2: int|
                0 <= m2 < marked@.len() implies #[trigger] marked@[m2] < self.nodes@.len()
                    && self.steps_to(pv.last(), marked@[m2]) by {
                let k = choose|k: int|
                    0 <= k < ev.len() && (#[trigger] ev[k]).0 == pre.nodes@[marked@[m2] as int].game_state;
                assert(self.nodes@[last as int].child_to_edge_visits@[k] == ev[k]);
            }
        }
        let ghost mid = *self;
        self.back_up_children(&path, &marked);
        proof {
            assert forall|i: int|
                0 <= i < old_self.nodes@.len() && !pv.contains(i as usize) implies keeps(
                    old_self.nodes@[i],
                    #[trigger] self.nodes@[i],
                ) by {
                assert(pv[pv.len() - 1] == last);
                assert(mid.nodes@[i] == old_self.nodes@[i]);
                assert(keeps(mid.nodes@[i], self.nodes@[i]));
            }
            assert forall|i: int|
                0 <= i < old_self.nodes@.len() && i != pv.last() implies (#[trigger] self.nodes@[
                    i
                ]).child_to_edge_visits@ == old_self.nodes@[i].child_to_edge_visits@
                    && self.nodes@[i].is_expanded == old_self.nodes@[i].is_expanded by {
                assert(mid.nodes@[i] == old_self.nodes@[i]);
            }
            assert forall|i: int|
                0 <= i < old_self.nodes@.len() implies (#[trigger] self.nodes@[i]).game_state
                    == old_self.nodes@[i].game_state by {
                assert(mid.nodes@[i].game_state == pre.nodes@[i].game_state);
                assert(pre.nodes@[i] == old_self.nodes@[i]);
            }
            assert forall|i: int|
                old_self.nodes@.len() <= i < self.nodes@.len() implies node_settled(#[trigger] self.nodes@[i]) by {
                assert(unvisited(pre.nodes@[i]));
                assert(mid.nodes@[i] == pre.nodes@[i]);
                if pv.contains(i as usize) {
                    let j3 = choose|j3: int| 0 <= j3 < pv.len() && pv[j3] == i as usize;
                    assert(pv[j3] < old_self.nodes@.len());
                }
                assert(keeps(mid.nodes@[i], self.nodes@[i]));
            }
        }
        proof {
            assert(self.node_inv(last as int));
        }
        let b = self.best_child(last);
        let mut path = path;
        path.push(b);
        proof {
            let k = choose|k: int|
                #[trigger] self.is_best(last as int, k) && self.node_of@[ev[k].0] == b;
            assert(self.node_inv(last as int));
            assert(self.edge_sound(last as int, k));
            assert(self.nodes@[b as int].game_state == ev[k].0);
            let q = path@;
            assert forall|j2: int| 0 <= j2 < q.len() - 1 implies #[trigger] self.steps_to(q[j2], q[j2 + 1]) by {
                if j2 < q.len() - 2 {
                    assert(q[j2] == pv[j2] && q[j2 + 1] == pv[j2 + 1]);
                    assert(self.steps_to(pv[j2], pv[j2 + 1]));
                } else {
                    assert(ev[k].0 == self.nodes@[q[j2 + 1] as int].game_state);
                }
            }
            assert forall|j2: int| 0 <= j2 < q.len() implies #[trigger] q[j2] < self.nodes@.len() by {
                if j2 < q.len() - 1 {
                    assert(q[j2] == pv[j2]);
                }
            }
            lemma_children_visited(pre, mid, *self, last as int, ev, marked@);
            lemma_fresh_children_played(old_self.nodes@.len() as int, pre, mid, *self, last as int, ev, marked@);
        }
        path
    }

    /// One iteration: select a path, expand its last node, play out from the
    /// node the path then ends at, and back the outcome up along the path.
    #[verifier::spinoff_prover]
    pub fn run(&mut self)
        requires
            old(self).inv(),
            old(self).settled(),
            old(self).runs < RUN_LIMIT,
        ensures
            final(self).inv(),
            final(self).settled(),
            final(self).runs == old(self).runs + 1,
            final(self).root == old(self).root,
            grows(old(self).states(), final(self).states()),
            old(self).nodes@.len() <= final(self).nodes@.len(),
            ({
                let o = old(self).nodes@[old(self).root as int];
                let n = final(self).nodes@[final(self).root as int];
                let e = o.child_to_edge_visits@;
                &&& n.game_state == o.game_state
                &&& n.is_terminal == o.is_terminal
                &&& o.is_terminal ==> n.N == 1 && !n.is_expanded
                &&& !o.is_terminal && o.is_expanded ==> n.N == o.N + 1
                &&& !o.is_terminal && o.is_expanded ==> n.is_expanded && exists|k: int|
                    #[trigger] old(self).is_best(old(self).root as int, k)
                        && n.child_to_edge_visits@ == e.update(k, (e[k].0, (e[k].1 + 1) as u64))
                &&& !o.is_terminal && !o.is_expanded ==> n.is_expanded && n.N == 1
                    + n.child_to_edge_visits@.len()
                &&& !o.is_terminal && !o.is_expanded ==> children_visited(*final(self), final(self).root as int)
            }),
    {
        let ghost s0 = *self;
        let path = self.select();
        let ghost s1 = *self;
        let ghost p1 = path@;
        let path = self.expand(path);
        let ghost s2 = *self;
        let last = path[path.len() - 1];
        let reward = self.rollout(last);
        let ghost s3 = *self;
        proof {
            lemma_caps(s0.runs);
            let q = path@;
            assert(s3.is_chain(q)) by {
                assert forall|j: int| 0 <= j < q.len() - 1 implies #[trigger] s3.steps_to(q[j], q[j + 1]) by {
                    assert(s2.steps_to(q[j], q[j + 1]));
                }
            }
            assert forall|j: int| 0 <= j < q.len() implies {
                let n = #[trigger] s3.nodes@[q[j] as int];
                &&& edge_sum(n.child_to_edge_visits@) < COUNT_CAP
                &&& tallies(n.results@) < COUNT_CAP
            } by {
                assert(s2.nodes@[q[j] as int] == s3.nodes@[q[j] as int]);
            }
        }
        self.backprop(path, reward);
        let ghost s4 = *self;
        proof {
            let q = path@;
            assert(q.len() >= p1.len());
            assert forall|j: int| 0 <= j < p1.len() implies #[trigger] q[j] == p1[j] by {
                if q.len() > p1.len() {
                    assert(q == p1.push(q.last()));
                }
            }
            assert forall|i: int| 0 <= i < s4.nodes@.len() implies {
                let n = #[trigger] s4.nodes@[i];
                &&& node_settled(n)
                &&& edge_sum(n.child_to_edge_visits@) <= s0.runs + 1 + MAX_ACTIONS
                &&& n.N <= s0.runs + 1 + MAX_ACTIONS + 1
                &&& tallies(n.results@) <= (MAX_ACTIONS + 1) * (s0.runs + 1)
            } by {
                assert(s3.nodes@[i] == s2.nodes@[i]);
                if q.contains(i as usize) {
                    let j = choose|j: int| 0 <= j < q.len() && q[j] == i as usize;
                    assert(s4.backed(&s3, q, reward@, j));
                    assert(s3.node_inv(i));
                    let r0 = reward_for(reward@, s3.state_of(q.last() as int).player);
                    lemma_tally_add(s3.nodes@[i].results@, backed_reward(r0, q.len() - 1 - j) as i32);
                    lemma_edge_sum_nonneg(s4.nodes@[i].child_to_edge_visits@);
                } else {
                    assert(s4.nodes@[i] == s3.nodes@[i]);
                    if i < s0.nodes@.len() {
                        if p1.contains(i as usize) {
                            let j = choose|j: int| 0 <= j < p1.len() && p1[j] == i as usize;
                            assert(q[j] == i as usize);
                        }
                        assert(s1.nodes@[i] == s0.nodes@[i]);
                        assert(node_settled(s0.nodes@[i]));
                        assert(keeps(s1.nodes@[i], s2.nodes@[i]));
                    }
                }
            }
        }
        proof {
            let r = s0.root as int;
            let o = s0.nodes@[r];
            let q = path@;
            assert(q[0] == p1[0]);
            assert(s4.backed(&s3, q, reward@, 0));
            assert(s0.node_inv(r));
            assert(s2.nodes@[r].game_state == s1.nodes@[r].game_state);
            assert(s4.node_inv(r));
            assert(s4.states()[o.game_state as int] == s0.states()[o.game_state as int]);
            assert(node_settled(o));
            assert(s3.nodes@[r] == s2.nodes@[r]);
            if p1.len() >= 2 {
                assert(s1.selected(&s0, p1, 0));
                let k = choose|k: int|
                    #[trigger] s0.is_best(r, k) && s0.node_of@[o.child_to_edge_visits@[k].0] == p1[1]
                        && bumped(o, s1.nodes@[r], k);
                let e = o.child_to_edge_visits@;
                lemma_edge_sum_prefix(e, k);
                assert(edge_sum(e) <= s0.runs + MAX_ACTIONS);
                lemma_edge_sum_bump(e, k, (e[k].1 + 1) as u64);
                s1.lemma_chain_depth(p1);
                assert(p1[0] != p1[p1.len() - 1]);
                assert(s2.nodes@[r].child_to_edge_visits@ == s1.nodes@[r].child_to_edge_visits@);
                assert(s2.nodes@[r].is_expanded == s1.nodes@[r].is_expanded);
                assert(s0.is_best(r, k) && s4.nodes@[r].child_to_edge_visits@ == e.update(k, (e[k].0, (e[k].1 + 1) as u64)));
            } else {
                assert(p1.last() == p1[0]);
                if !o.is_terminal {
                    let e2 = s2.nodes@[r].child_to_edge_visits@;
                    assert forall|k: int| 0 <= k < e2.len() implies #[trigger] e2[k].1 == 1 by {}
                    lemma_edge_sum_ones(e2);
                    assert(children_visited(s4, r)) by {
                        reveal(children_visited);
                        assert(children_visited(s2, r));
                        assert forall|k: int| 0 <= k < e2.len() implies s4.nodes@[s4.node_of@[(#[trigger] e2[k]).0] as int].N
                            > 0 by {
                            let c = s2.node_of@[e2[k].0] as int;
                            assert(s2.nodes@[c].N > 0);
                            assert(s3.nodes@[c] == s2.nodes@[c]);
                            assert(s2.node_inv(r));
                            assert(s2.edge_sound(r, k));
                            if q.contains(c as usize) {
                                let j = choose|j: int| 0 <= j < q.len() && q[j] == c as usize;
                                assert(s4.backed(&s3, q, reward@, j));
                                lemma_edge_sum_nonneg(s4.nodes@[c].child_to_edge_visits@);
                            } else {
                                assert(s4.nodes@[c] == s3.nodes@[c]);
                            }
                        }
                    }
                }
            }
        }
        self.runs = self.runs + 1;
        proof {
            let r = s0.root as int;
            if !s0.nodes@[r].is_terminal && !s0.nodes@[r].is_expanded {
                assert(children_visited(*self, r)) by {
                    reveal(children_visited);
                    assert(self.nodes@ == s4.nodes@ && self.node_of@ == s4.node_of@);
                }
            }
            assert forall|i: int| 0 <= i < self.nodes@.len() implies #[trigger] self.node_inv(i) by {
                assert(s4.node_inv(i));
                let e = self.nodes@[i].child_to_edge_visits@;
                assert forall|k: int| 0 <= k < e.len() implies #[trigger] self.edge_sound(i, k) by {
                    assert(s4.edge_sound(i, k));
                }
                if self.nodes@[i].is_expanded {
                    let st = self.state_of(i);
                    assert forall|a: Action| #[trigger] st.actions.contains(a) implies self.edge_for(i, a) by {
                        assert(s4.edge_for(i, a));
                    }
                }
            }
        }
    }

    /// Runs `n` iterations.
    pub fn search(&mut self, n: u32)
        requires
            old(self).inv(),
            old(self).settled(),
            old(self).runs + n <= RUN_LIMIT,
        ensures
            final(self).inv(),
            final(self).settled(),
            final(self).runs == old(self).runs + n,
            final(self).root == old(self).root,
            grows(old(self).states(), final(self).states()),
            ({
                let o = old(self).nodes@[old(self).root as int];
                let f = final(self).nodes@[final(self).root as int];
                &&& f.game_state == o.game_state
                &&& f.is_terminal == o.is_terminal
                &&& n > 0 && o.is_terminal ==> f.N == 1
                &&& !o.is_terminal && o.is_expanded ==> f.N == o.N + n
                &&& !o.is_terminal && !o.is_expanded && n > 0 ==> f.is_expanded && f.N
                    == f.child_to_edge_visits@.len() + n
            }),
    {
        let mut i: u32 = 0;
        let ghost s0 = *self;
        let ghost o = s0.nodes@[s0.root as int];
        proof {
            assert(s0.node_inv(s0.root as int));
        }
        while i < n
            invariant
                i <= n,
                s0.runs + n <= RUN_LIMIT,
                o == s0.nodes@[s0.root as int],
                self.inv(),
                self.settled(),
                self.runs == s0.runs + i,
                self.root == s0.root,
                grows(s0.states(), self.states()),
                ({
                    let f = self.nodes@[self.root as int];
                    &&& f.game_state == o.game_state
                    &&& f.is_terminal == o.is_terminal
                    &&& i > 0 && o.is_terminal ==> f.N == 1 && !f.is_expanded
                    &&& o.is_terminal ==> !f.is_expanded
                    &&& !o.is_terminal && o.is_expanded ==> f.is_expanded && f.N == o.N + i
                    &&& !o.is_terminal && !o.is_expanded && i > 0 ==> f.is_expanded && f.N
                        == f.child_to_edge_visits@.len() + i
                    &&& !o.is_terminal && !o.is_expanded && i == 0 ==> f == o
                }),
            decreases n - i,
        {
            let ghost before = self.nodes@[self.root as int];
            self.run();
            i += 1;
        }
    }

    /// An engine rooted at the state `root_state`, with playouts drawn from `seed`.
    pub fn with_seed(game: G, root_state: usize, seed: u64) -> (r: Self)
        requires
            game.wf(),
            root_state < game.states().len(),
        ensures
            r.inv(),
            r.settled(),
            r.game == game,
            r.runs == 0,
            r.nodes@.len() == 1,
            is_fresh(r.nodes@[r.root as int], root_state, game.states()[root_state as int].is_terminal),
    {
        let terminal = game.get(root_state).is_terminal();
        let node = MCTSNode::new(root_state, terminal);
        let mut node_of: HashMap<usize, usize> = HashMap::new();
        node_of.insert(root_state, 0);
        let r = MCTS { root: 0, nodes: vec![node], node_of, game, runs: 0, rng: seeded_rng(seed) };
        proof {
            assert(r.node_inv(0));
        }
        r
    }

    /// An engine rooted at the state `root_state`.
    pub fn new(game: G, root_state: usize) -> (r: Self)
        requires
            game.wf(),
            root_state < game.states().len(),
        ensures
            r.inv(),
            r.settled(),
            r.game == game,
            r.runs == 0,
            r.nodes@.len() == 1,
            is_fresh(r.nodes@[r.root as int], root_state, game.states()[root_state as int].is_terminal),
    {
        MCTS::with_seed(game, root_state, DEFAULT_SEED)
    }

    /// The node at index `i`.
    pub fn node(&self, i: usize) -> (r: &MCTSNode)
        requires
            i < self.nodes@.len(),
        ensures
            *r == self.nodes@[i as int],
    {
        &self.nodes[i]
    }

    /// The children's values of node `x` weighted by its edges' visits, and
    /// the sum of those visits.
    fn weighted_children(&self, x: usize) -> (r: (i64, u64))
        requires
            self.core_inv(),
            x < self.nodes@.len(),
            edge_sum(self.nodes@[x as int].child_to_edge_visits@) < COUNT_CAP,
        ensures
            r.0 == self.weighted(self.nodes@[x as int].child_to_edge_visits@),
            r.1 == edge_sum(self.nodes@[x as int].child_to_edge_visits@),
            -Q_ONE * r.1 <= r.0 <= Q_ONE * r.1,
    {
        let ghost e = self.nodes@[x as int].child_to_edge_visits@;
        proof {
            assert(self.node_inv(x as int));
        }
        let len = self.nodes[x].child_to_edge_visits.len();
        proof {
            lemma_edge_sum_nonneg(e);
        }
        let mut total: i64 = 0;
        let mut visits: u64 = 0;
        let mut k: usize = 0;
        while k < len
            invariant
                self.core_inv(),
                x < self.nodes@.len(),
                e == self.nodes@[x as int].child_to_edge_visits@,
                len == e.len(),
                edge_sum(e) < COUNT_CAP,
                k <= len,
                total == self.weighted(e.take(k as int)),
                visits == edge_sum(e.take(k as int)),
                -Q_ONE * visits <= total <= Q_ONE * visits,
                visits <= edge_sum(e),
            decreases len - k,
        {
            let (c, v) = self.nodes[x].child_to_edge_visits[k];
            proof {
                lemma_edge_sum_prefix(e, k as int);
                assert(self.node_inv(x as int));
                assert(self.edge_sound(x as int, k as int));
                assert(e.take(k + 1).drop_last() =~= e.take(k as int));
                assert(e.take(k + 1).last() == e[k as int]);
            }
            let ci = match self.node_of.get(&c) {
                Some(i) => *i,
                None => {
                    proof {
                        assert(false);
                    }
                    0
                },
            };
            let q = self.nodes[ci].Q;
            proof {
                assert(self.node_inv(ci as int));
                let (qi, vi) = (q as int, v as int);
                assert(-Q_ONE * vi <= qi * vi <= Q_ONE * vi) by (nonlinear_arith)
                    requires
                        -Q_ONE <= qi <= Q_ONE,
                        0 <= vi,
                ;
                assert(visits + vi <= edge_sum(e));
                let (tt, vs) = (total as int, visits as int);
                assert(-Q_ONE * (vs + vi) <= tt + qi * vi <= Q_ONE * (vs + vi)
                    && Q_ONE * (vs + vi) <= Q_ONE * COUNT_CAP && -Q_ONE * COUNT_CAP <= -Q_ONE * (vs
                    + vi) && -Q_ONE * COUNT_CAP == -(Q_ONE * COUNT_CAP) && -Q_ONE * COUNT_CAP <= qi * vi
                    <= Q_ONE * COUNT_CAP) by (nonlinear_arith)
                    requires
                        -Q_ONE <= qi <= Q_ONE,
                        0 <= vi,
                        0 <= vs,
                        vs + vi <= COUNT_CAP,
                        -Q_ONE * vs <= tt <= Q_ONE * vs,
                ;
                assert(self.node_for(c).Q == q);
                assert(Q_ONE * COUNT_CAP == 1_000_000_000_000_000_000);
            }
            total = total + q * (v as i64);
            visits = visits + v;
            k += 1;
        }
        proof {
            assert(e.take(len as int) =~= e);
        }
        (total, visits)
    }

    /// Backs the outcome map of a finished playout up along `path`, from its
    /// last node to its first, flipping the outcome's sign at each step.
    #[verifier::spinoff_prover]
    pub fn backprop(&mut self, path: Vec<usize>, reward_map: Vec<(i32, i32)>)
        requires
            old(self).core_inv(),
            old(self).is_chain(path@),
            is_outcome(reward_map@),
            forall|j: int|
                0 <= j < path@.len() ==> {
                    let n = #[trigger] old(self).nodes@[path@[j] as int];
                    &&& edge_sum(n.child_to_edge_visits@) < COUNT_CAP
                    &&& tallies(n.results@) < COUNT_CAP
                },
        ensures
            final(self).core_inv(),
            final(self).game == old(self).game,
            final(self).root == old(self).root,
            final(self).runs == old(self).runs,
            final(self).node_of@ == old(self).node_of@,
            final(self).nodes@.len() == old(self).nodes@.len(),
            forall|i: int|
                0 <= i < old(self).nodes@.len() && !path@.contains(i as usize) ==> #[trigger] final(self).nodes@[i]
                    == old(self).nodes@[i],
            forall|j: int|
                0 <= j < path@.len() ==> #[trigger] final(self).backed(old(self), path@, reward_map@, j),
    {
        let ghost old_self = *self;
        let ghost p = path@;
        proof {
            self.lemma_chain_depth(p);
        }
        let last = path[path.len() - 1];
        let player = self.game.get(self.nodes[last].game_state).player();
        let mut reward: i32 = if reward_map[0].0 == player {
            reward_map[0].1
        } else {
            reward_map[1].1
        };
        let ghost r0 = reward as int;
        let mut i: usize = path.len();
        while i > 0
            invariant
                self.core_inv(),
                old_self.core_inv(),
                old_self.is_chain(p),
                p == path@,
                p.len() >= 1,
                i <= p.len(),
                r0 == reward_for(reward_map@, old_self.state_of(p.last() as int).player),
                -1 <= r0 <= 1,
                reward == backed_reward(r0, p.len() - 1 - (i as int - 1)),
                self.game == old_self.game,
                self.root == old_self.root,
                self.runs == old_self.runs,
                self.node_of@ == old_self.node_of@,
                self.nodes@.len() == old_self.nodes@.len(),
                forall|j1: int, j2: int|
                    0 <= j1 <= j2 < p.len() ==> old_self.depth(#[trigger] p[j1] as int)
                        == old_self.depth(#[trigger] p[j2] as int) + (j2 - j1),
                forall|j1: int, j2: int| 0 <= j1 < j2 < p.len() ==> #[trigger] p[j1] != #[trigger] p[j2],
                forall|j: int|
                    0 <= j < p.len() ==> {
                        let n = #[trigger] old_self.nodes@[p[j] as int];
                        &&& edge_sum(n.child_to_edge_visits@) < COUNT_CAP
                        &&& tallies(n.results@) < COUNT_CAP
                    },
                forall|x: int|
                    0 <= x < old_self.nodes@.len() && !in_suffix(p, i as int, x) ==> #[trigger] self.nodes@[x]
                        == old_self.nodes@[x],
                forall|j: int| i <= j < p.len() ==> #[trigger] self.backed(&old_self, p, reward_map@, j),
            decreases i,
        {
            i -= 1;
            let x = path[i];
            proof {
                assert(p[i as int] == x);
                assert(!in_suffix(p, i + 1, x as int));
                assert(self.nodes@[x as int] == old_self.nodes@[x as int]);
                assert(old_self.nodes@[p[i as int] as int] == old_self.nodes@[x as int]);
            }
            let (total, visits) = self.weighted_children(x);
            let ghost before = *self;
            let n: u64 = 1 + visits;
            let t: i64 = reward as i64 * Q_ONE + total;
            proof {
                assert(-Q_ONE * n <= t <= Q_ONE * n);
                assert(Q_ONE * n <= Q_ONE * COUNT_CAP) by (nonlinear_arith)
                    requires
                        n <= COUNT_CAP,
                ;
            }
            let q: i64 = if t >= 0 {
                proof {
                    assert((t as int) / (n as int) <= Q_ONE) by (nonlinear_arith)
                        requires
                            0 <= t <= Q_ONE * n,
                            n >= 1,
                    ;
                }
                -(((t as u64) / n) as i64)
            } else {
                proof {
                    assert((-t) as int / (n as int) <= Q_ONE) by (nonlinear_arith)
                        requires
                            0 < -t <= Q_ONE * n,
                            n >= 1,
                    ;
                }
                (((-t) as u64) / n) as i64
            };
            let tally = match self.nodes[x].results.get(&reward) {
                Some(v) => *v,
                None => {
                    proof {
                        assert(self.node_inv(x as int));
                        assert(false);
                    }
                    0
                },
            };
            proof {
                assert(self.node_inv(x as int));
                assert(tally <= tallies(self.nodes@[x as int].results@));
            }
            self.nodes[x].N = n;
            self.nodes[x].Q = q;
            self.nodes[x].results.insert(reward, tally + 1);
            proof {
                assert(self.nodes@[x as int].results@.dom() =~= set![-1i32, 0i32, 1i32]);
                assert forall|y: int| 0 <= y < self.nodes@.len() implies #[trigger] self.node_inv(y) by {
                    assert(before.node_inv(y));
                    let e = self.nodes@[y].child_to_edge_visits@;
                    assert(e == before.nodes@[y].child_to_edge_visits@);
                    assert forall|k: int| 0 <= k < e.len() implies #[trigger] self.edge_sound(y, k) by {
                        assert(before.edge_sound(y, k));
                    }
                    if self.nodes@[y].is_expanded {
                        let st = self.state_of(y);
                        assert forall|a: Action| #[trigger] st.actions.contains(a) implies self.edge_for(y, a) by {
                            assert(before.edge_for(y, a));
                        }
                    }
                }
                // No edge of a node on the path, this one included, leads to `x`.
                assert forall|j: int| i <= j < p.len() implies #[trigger] self.backed(&old_self, p, reward_map@, j) by {
                    let y = p[j] as int;
                    let e = old_self.nodes@[y].child_to_edge_visits@;
                    assert forall|k: int| 0 <= k < e.len() implies #[trigger] self.node_for(e[k].0).Q
                        == before.node_for(e[k].0).Q by {
                        old_self.lemma_edge_depth(y, k);
                        let c = e[k].0;
                        assert(old_self.depth(old_self.node_of@[c] as int) + 1 == old_self.depth(y));
                        assert(old_self.depth(x as int) >= old_self.depth(y));
                        assert(self.node_of@[c] != x);
                    }
                    self.lemma_weighted_frame(&before, e);
                    if j > i {
                        assert(before.backed(&old_self, p, reward_map@, j));
                        assert(p[j] != x);
                    } else {
                        assert(before.weighted(e) == total);
                    }
                }
                assert forall|y: int|
                    0 <= y < old_self.nodes@.len() && !in_suffix(p, i as int, y) implies #[trigger] self.nodes@[y]
                        == old_self.nodes@[y] by {
                    if y != x {
                        if in_suffix(p, i + 1, y) {
                            let j = choose|j: int| i + 1 <= j < p.len() && #[trigger] p[j] == y as usize;
                            assert(in_suffix(p, i as int, y));
                        }
                    } else {
                        assert(in_suffix(p, i as int, y));
                    }
                }
            }
            reward = -reward;
        }
        proof {
            assert forall|y: int|
                0 <= y < old_self.nodes@.len() && !p.contains(y as usize) implies #[trigger] self.nodes@[y]
                    == old_self.nodes@[y] by {
                if in_suffix(p, 0, y) {
                    let j = choose|j: int| 0 <= j < p.len() && #[trigger] p[j] == y as usize;
                    assert(p[j] == y as usize);
                }
            }
        }
    }

    /// The PUCT score of edge `k` of node `parent`.
    fn edge_puct(&self, parent: usize, k: usize) -> (r: i64)
        requires
            self.core_inv(),
            parent < self.nodes@.len(),
            k < self.nodes@[parent as int].child_to_edge_visits@.len(),
            self.nodes@[parent as int].N <= COUNT_CAP,
        ensures
            r == self.puct_at(parent as int, k as int),
    {
        let (c, v) = self.nodes[parent].child_to_edge_visits[k];
        proof {
            assert(self.node_inv(parent as int));
            assert(self.edge_sound(parent as int, k as int));
        }
        let ci = match self.node_of.get(&c) {
            Some(i) => *i,
            None => {
                proof {
                    assert(false);
                }
                0
            },
        };
        let q = self.nodes[ci].Q;
        let bonus = exploration_bonus(self.nodes[parent].N, v);
        proof {
            assert(self.node_inv(ci as int));
            assert(Q_ONE * COUNT_CAP == 1_000_000_000_000_000_000);
        }
        q + bonus
    }

    /// The PUCT score of child `node` below `parent`, in fixed point.
    pub fn PUCT(&self, parent: usize, node: usize) -> (r: i64)
        requires
            self.core_inv(),
            parent < self.nodes@.len(),
            node < self.nodes@.len(),
            self.steps_to(parent, node),
            self.nodes@[parent as int].N <= COUNT_CAP,
        ensures
            exists|k: int|
                0 <= k < self.nodes@[parent as int].child_to_edge_visits@.len()
                    && (#[trigger] self.nodes@[parent as int].child_to_edge_visits@[k]).0
                    == self.nodes@[node as int].game_state && r == self.puct_at(parent as int, k),
    {
        let ghost e = self.nodes@[parent as int].child_to_edge_visits@;
        let s = self.nodes[node].game_state;
        let len = self.nodes[parent].child_to_edge_visits.len();
        let mut k: usize = 0;
        while k < len
            invariant
                self.core_inv(),
                parent < self.nodes@.len(),
                node < self.nodes@.len(),
                self.steps_to(parent, node),
                self.nodes@[parent as int].N <= COUNT_CAP,
                e == self.nodes@[parent as int].child_to_edge_visits@,
                s == self.nodes@[node as int].game_state,
                len == e.len(),
                k <= len,
                forall|j: int| 0 <= j < k ==> (#[trigger] e[j]).0 != s,
            decreases len - k,
        {
            if self.nodes[parent].child_to_edge_visits[k].0 == s {
                return self.edge_puct(parent, k);
            }
            k += 1;
        }
        proof {
            let j = choose|j: int| 0 <= j < e.len() && (#[trigger] e[j]).0 == s;
            assert(e[j].0 == s);
        }
        0
    }

    /// The index, among the edges of `node`, of the edge of highest PUCT score;
    /// of equal scores the first.
    fn best_edge(&self, node: usize) -> (k: usize)
        requires
            self.core_inv(),
            node < self.nodes@.len(),
            self.nodes@[node as int].child_to_edge_visits@.len() > 0,
            self.nodes@[node as int].N <= COUNT_CAP,
        ensures
            self.is_best(node as int, k as int),
    {
        let len = self.nodes[node].child_to_edge_visits.len();
        let mut best: usize = 0;
        let mut best_score = self.edge_puct(node, 0);
        let mut k: usize = 1;
        while k < len
            invariant
                self.core_inv(),
                node < self.nodes@.len(),
                self.nodes@[node as int].N <= COUNT_CAP,
                len == self.nodes@[node as int].child_to_edge_visits@.len(),
                1 <= k <= len,
                best < k,
                best_score == self.puct_at(node as int, best as int),
                forall|j: int| 0 <= j < best ==> #[trigger] self.puct_at(node as int, j) < best_score,
                forall|j: int| best < j < k ==> #[trigger] self.puct_at(node as int, j) <= best_score,
            decreases len - k,
        {
            let score = self.edge_puct(node, k);
            if score > best_score {
                best = k;
                best_score = score;
            }
            k += 1;
        }
        best
    }

    /// The child of `node` whose edge has the highest PUCT score; of equal
    /// scores the first edge's.
    pub fn best_child(&self, node: usize) -> (r: usize)
        requires
            self.core_inv(),
            node < self.nodes@.len(),
            self.nodes@[node as int].child_to_edge_visits@.len() > 0,
            self.nodes@[node as int].N <= COUNT_CAP,
        ensures
            r < self.nodes@.len(),
            exists|k: int|
                #[trigger] self.is_best(node as int, k) && self.node_of@[
                    self.nodes@[node as int].child_to_edge_visits@[k].0] == r,
    {
        let k = self.best_edge(node);
        let c = self.nodes[node].child_to_edge_visits[k].0;
        proof {
            assert(self.node_inv(node as int));
            assert(self.edge_sound(node as int, k as int));
        }
        match self.node_of.get(&c) {
            Some(i) => *i,
            None => {
                proof {
                    assert(false);
                }
                0
            },
        }
    }

    /// Walks from the root along best children while the node reached is
    /// expanded and not terminal, adding a visit to each edge taken.
    #[verifier::spinoff_prover]
    pub fn select(&mut self) -> (path: Vec<usize>)
        requires
            old(self).inv(),
            old(self).runs < RUN_LIMIT,
        ensures
            final(self).core_inv(),
            final(self).game == old(self).game,
            final(self).root == old(self).root,
            final(self).runs == old(self).runs,
            final(self).node_of@ == old(self).node_of@,
            final(self).nodes@.len() == old(self).nodes@.len(),
            final(self).is_chain(path@),
            path@[0] == old(self).root,
            !final(self).nodes@[path@.last() as int].is_expanded || final(self).nodes@[path@.last() as int].is_terminal,
            final(self).nodes@[path@.last() as int] == old(self).nodes@[path@.last() as int],
            forall|j: int| 0 <= j < path@.len() - 1 ==> #[trigger] final(self).selected(old(self), path@, j),
            forall|i: int|
                0 <= i < old(self).nodes@.len() && !path@.contains(i as usize) ==> #[trigger] final(self).nodes@[i]
                    == old(self).nodes@[i],
            final(self).bounded(old(self).runs + 1 + MAX_ACTIONS, (MAX_ACTIONS + 1) * old(self).runs),
    {
        let ghost old_self = *self;
        let mut path: Vec<usize> = vec![self.root];
        let mut cur = self.root;
        proof {
            assert(self.is_chain(path@));
        }
        while self.nodes[cur].is_expanded && !self.nodes[cur].is_terminal
            invariant
                old_self.inv(),
                old_self.runs < RUN_LIMIT,
                self.core_inv(),
                self.game == old_self.game,
                self.root == old_self.root,
                self.runs == old_self.runs,
                self.node_of@ == old_self.node_of@,
                self.nodes@.len() == old_self.nodes@.len(),
                self.is_chain(path@),
                path@[0] == old_self.root,
                cur == path@.last(),
                self.nodes@[cur as int] == old_self.nodes@[cur as int],
                forall|j: int| 0 <= j < path@.len() - 1 ==> #[trigger] self.selected(&old_self, path@, j),
                forall|j: int|
                    0 <= j < path@.len() ==> self.depth(#[trigger] path@[j] as int) + j == self.depth(
                        old_self.root as int,
                    ),
                forall|i: int|
                    0 <= i < old_self.nodes@.len() && !path@.contains(i as usize) ==> #[trigger] self.nodes@[i]
                        == old_self.nodes@[i],
                forall|i: int|
                    0 <= i < old_self.nodes@.len() ==> {
                        let (n, o) = (#[trigger] self.nodes@[i], old_self.nodes@[i]);
                        &&& n.N == o.N
                        &&& n.Q == o.Q
                        &&& n.results@ == o.results@
                        &&& edge_sum(n.child_to_edge_visits@) <= edge_sum(o.child_to_edge_visits@) + 1
                    },
            decreases self.depth(cur as int),
        {
            let ghost before = *self;
            let ghost q0 = path@;
            proof {
                self.game.lemma_table();
                assert(self.node_inv(cur as int));
                assert(old_self.nodes@[cur as int] == self.nodes@[cur as int]);
                let st = self.state_of(cur as int);
                assert(state_ok(self.states()[self.nodes@[cur as int].game_state as int]));
                assert(st.actions.contains(st.actions[0]));
                assert(self.edge_for(cur as int, st.actions[0]));
            }
            let k = self.best_edge(cur);
            let (c, v) = self.nodes[cur].child_to_edge_visits[k];
            proof {
                assert(self.node_inv(cur as int));
                assert(self.edge_sound(cur as int, k as int));
                lemma_edge_sum_prefix(self.nodes@[cur as int].child_to_edge_visits@, k as int);
                self.lemma_edge_depth(cur as int, k as int);
            }
            let ci = match self.node_of.get(&c) {
                Some(i) => *i,
                None => {
                    proof {
                        assert(false);
                    }
                    0
                },
            };
            self.nodes[cur].child_to_edge_visits.set(k, (c, v + 1));
            path.push(ci);
            proof {
                let e = before.nodes@[cur as int].child_to_edge_visits@;
                lemma_edge_sum_bump(e, k as int, (v + 1) as u64);
                assert forall|j: int| 0 <= j < e.len() implies #[trigger] before.puct_at(cur as int, j)
                    == old_self.puct_at(cur as int, j) by {
                    let cj = e[j].0;
                    assert(before.edge_sound(cur as int, j));
                    let cn = before.node_of@[cj] as int;
                    assert(0 <= cn < before.nodes@.len());
                    assert(before.nodes@[cn].Q == old_self.nodes@[cn].Q);
                }
                assert(old_self.nodes@[cur as int].child_to_edge_visits@ == e);
                assert forall|j: int| 0 <= j < k implies #[trigger] old_self.puct_at(cur as int, j)
                    < old_self.puct_at(cur as int, k as int) by {
                    assert(before.puct_at(cur as int, j) == old_self.puct_at(cur as int, j));
                    assert(before.puct_at(cur as int, k as int) == old_self.puct_at(cur as int, k as int));
                }
                assert forall|j: int| k < j < e.len() implies #[trigger] old_self.puct_at(cur as int, j)
                    <= old_self.puct_at(cur as int, k as int) by {
                    assert(before.puct_at(cur as int, j) == old_self.puct_at(cur as int, j));
                    assert(before.puct_at(cur as int, k as int) == old_self.puct_at(cur as int, k as int));
                }
                assert(old_self.is_best(cur as int, k as int));
                assert(bumped(old_self.nodes@[cur as int], self.nodes@[cur as int], k as int));
                let p = path@;
                assert(p[p.len() - 2] == cur && p[p.len() - 1] == ci);
                assert(old_self.node_of@[c] == ci);
                assert(old_self.nodes@[cur as int].child_to_edge_visits@[k as int].0 == c);
                assert(old_self.is_best(cur as int, k as int) && old_self.node_of@[
                    old_self.nodes@[cur as int].child_to_edge_visits@[k as int].0] == p[p.len() - 1]
                    && bumped(old_self.nodes@[cur as int], self.nodes@[cur as int], k as int));
                assert(self.selected(&old_self, p, p.len() - 2));
                // The new node is one level deeper than every node before it.
                assert(ci < before.nodes@.len());
                assert forall|j: int| 0 <= j < p.len() - 1 implies p[j] != ci by {
                    assert(p[j] == p.drop_last()[j]);
                    assert(self.depth(p.drop_last()[j] as int) + j == self.depth(old_self.root as int));
                }
                assert(!p.drop_last().contains(ci)) by {
                    if p.drop_last().contains(ci) {
                        let j = choose|j: int| 0 <= j < p.len() - 1 && p.drop_last()[j] == ci;
                        assert(p[j] == ci);
                    }
                }
                assert(self.nodes@[ci as int] == old_self.nodes@[ci as int]);
                assert forall|y: int| 0 <= y < self.nodes@.len() implies #[trigger] self.node_inv(y) by {
                    assert(before.node_inv(y));
                    let e2 = self.nodes@[y].child_to_edge_visits@;
                    assert forall|k2: int| 0 <= k2 < e2.len() implies #[trigger] self.edge_sound(y, k2) by {
                        assert(before.edge_sound(y, k2));
                        if y == cur {
                            assert(e2[k2].0 == e[k2].0);
                        }
                    }
                    if self.nodes@[y].is_expanded {
                        let st = self.state_of(y);
                        assert forall|a: Action| #[trigger] st.actions.contains(a) implies self.edge_for(y, a) by {
                            assert(before.edge_for(y, a));
                            if y == cur {
                                let k3 = choose|k3: int|
                                    0 <= k3 < e.len() && self.states()[(#[trigger] e[k3]).0 as int].board
                                        == st.board.place(a, st.player);
                                assert(e2[k3].0 == e[k3].0);
                            }
                        }
                    }
                    assert forall|k1: int, k2: int|
                        0 <= k1 < k2 < e2.len() implies (#[trigger] e2[k1]).0 != (#[trigger] e2[k2]).0 by {
                        if y == cur {
                            assert(e2[k1].0 == e[k1].0 && e2[k2].0 == e[k2].0);
                        }
                    }
                }
                let q = p.drop_last();
                assert(q =~= q0);
                assert forall|j: int| 0 <= j < p.len() - 1 implies p[j] != cur || j == p.len() - 2 by {
                    assert(q[j] == p[j]);
                    assert(self.depth(q[j] as int) + j == self.depth(old_self.root as int));
                    assert(self.depth(q[q.len() - 1] as int) + (q.len() - 1) == self.depth(old_self.root as int));
                }
                assert(self.nodes@[ci as int].game_state == c);
                assert(self.nodes@[cur as int].child_to_edge_visits@[k as int].0 == c);
                assert forall|j: int| 0 <= j < p.len() - 1 implies #[trigger] self.steps_to(p[j], p[j + 1]) by {
                    if j < p.len() - 2 {
                        assert(q[j] == p[j] && q[j + 1] == p[j + 1]);
                        assert(before.steps_to(q[j], q[j + 1]));
                        assert(p[j] != cur);
                        assert(self.nodes@[p[j] as int] == before.nodes@[p[j] as int]);
                    } else {
                        let e2 = self.nodes@[cur as int].child_to_edge_visits@;
                        assert(e2[k as int].0 == self.nodes@[p[j + 1] as int].game_state);
                    }
                }
                assert forall|j: int| 0 <= j < p.len() - 2 implies #[trigger] self.selected(&old_self, p, j) by {
                    assert(q[j] == p[j] && q[j + 1] == p[j + 1]);
                    assert(before.selected(&old_self, q, j));
                    assert(p[j] != cur);
                    assert(self.nodes@[p[j] as int] == before.nodes@[p[j] as int]);
                }
                assert forall|j: int|
                    0 <= j < p.len() implies self.depth(#[trigger] p[j] as int) + j == self.depth(
                        old_self.root as int,
                    ) by {
                    if j < p.len() - 1 {
                        assert(q[j] == p[j]);
                    }
                }
                assert forall|i: int|
                    0 <= i < old_self.nodes@.len() && !p.contains(i as usize) implies #[trigger] self.nodes@[i]
                        == old_self.nodes@[i] by {
                    assert(p[p.len() - 2] == cur);
                    if q.contains(i as usize) {
                        let j = choose|j: int| 0 <= j < q.len() && q[j] == i as usize;
                        assert(p[j] == i as usize);
                    }
                }
            }
            cur = ci;
        }
        proof {
            assert forall|i: int| 0 <= i < self.nodes@.len() implies {
                let n = #[trigger] self.nodes@[i];
                &&& edge_sum(n.child_to_edge_visits@) <= old_self.runs + 1 + MAX_ACTIONS
                &&& n.N <= old_self.runs + 1 + MAX_ACTIONS + 1
                &&& tallies(n.results@) <= (MAX_ACTIONS + 1) * old_self.runs
            } by {
                assert(old_self.bounded(old_self.runs + MAX_ACTIONS, (MAX_ACTIONS + 1) * old_self.runs));
                assert(self.nodes@[i].N == old_self.nodes@[i].N);
            }
        }
        path
    }

    /// The index of the node of `game_state`, made on first request.
    pub fn get_node(&mut self, game_state: usize) -> (r: usize)
        requires
            old(self).core_inv(),
            game_state < old(self).states().len(),
        ensures
            final(self).core_inv(),
            final(self).game == old(self).game,
            final(self).root == old(self).root,
            final(self).runs == old(self).runs,
            r < final(self).nodes@.len(),
            final(self).node_of@.contains_key(game_state),
            final(self).node_of@[game_state] == r,
            final(self).nodes@[r as int].game_state == game_state,
            old(self).node_of@.contains_key(game_state) ==> {
                &&& final(self).nodes@ == old(self).nodes@
                &&& final(self).node_of@ == old(self).node_of@
            },
            !old(self).node_of@.contains_key(game_state) ==> {
                &&& r == old(self).nodes@.len()
                &&& final(self).node_of@ == old(self).node_of@.insert(game_state, r)
                &&& final(self).nodes@ == old(self).nodes@.push(final(self).nodes@[r as int])
                &&& is_fresh(
                    final(self).nodes@[r as int],
                    game_state,
                    old(self).states()[game_state as int].is_terminal,
                )
            },
    {
        match self.node_of.get(&game_state) {
            Some(i) => *i,
            None => {
                let terminal = self.game.get(game_state).is_terminal();
                let i = self.nodes.len();
                let ghost old_self = *self;
                self.nodes.push(MCTSNode::new(game_state, terminal));
                self.node_of.insert(game_state, i);
                proof {
                    assert forall|j: int| 0 <= j < self.nodes@.len() implies #[trigger] self.node_inv(j) by {
                        if j < i {
                            assert(old_self.node_inv(j));
                            assert(self.nodes@[j] == old_self.nodes@[j]);
                            let e = self.nodes@[j].child_to_edge_visits@;
                            assert forall|k: int| 0 <= k < e.len() implies #[trigger] self.edge_sound(j, k) by {
                                assert(old_self.edge_sound(j, k));
                            }
                        }
                    }
                    assert forall|s: usize| #[trigger] self.node_of@.contains_key(s) implies {
                        &&& self.node_of@[s] < self.nodes@.len()
                        &&& self.nodes@[self.node_of@[s] as int].game_state == s
                    } by {
                        if s != game_state {
                            assert(old_self.node_of@.contains_key(s));
                        }
                    }
                }
                i
            },
        }
    }
}

} // verus!
