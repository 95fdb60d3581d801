//! A rectangular grid of cells, each -1, 0 or +1, stored row-major.
use vstd::prelude::*;

verus! {

/// The largest board whose cells still fit, three values each, in a `u128` key.
pub const KEY_CELLS: usize = 64;

/// What a board is, mathematically: its dimensions and its row-major cells.
pub ghost struct BoardModel {
    pub rows: nat,
    pub cols: nat,
    pub cells: Seq<i8>,
}

/// A board of `rows` by `cols` cells; `cells[i * cols + j]` is row `i`, column `j`.
/// +1 and -1 are the two players' stones, 0 is an empty cell.
#[derive(Debug, PartialEq, Eq, Hash)]
pub struct Board {
    pub rows: usize,
    pub cols: usize,
    pub cells: Vec<i8>,
}

impl View for Board {
    type V = BoardModel;

    open spec fn view(&self) -> BoardModel {
        BoardModel { rows: self.rows as nat, cols: self.cols as nat, cells: self.cells@ }
    }
}

/// Every cell holds -1, 0 or +1.
pub open spec fn valid_cells(s: Seq<i8>) -> bool {
    forall|i: int| 0 <= i < s.len() ==> -1 <= #[trigger] s[i] <= 1
}

impl BoardModel {
    /// The cells fill the grid exactly and each holds a valid value.
    pub open spec fn wf(self) -> bool {
        &&& self.cells.len() == self.rows * self.cols
        &&& valid_cells(self.cells)
    }

    /// The row-major position of cell `a`.
    pub open spec fn index(self, a: (usize, usize)) -> int {
        a.0 * self.cols + a.1
    }

    /// `a` names a cell of the grid.
    pub open spec fn in_range(self, a: (usize, usize)) -> bool {
        a.0 < self.rows && a.1 < self.cols
    }

    /// The board with `player` placed at `a`.
    pub open spec fn place(self, a: (usize, usize), player: int) -> BoardModel {
        BoardModel { cells: self.cells.update(self.index(a), player as i8), ..self }
    }
}

/// The sum of all cells.
pub open spec fn cells_sum(s: Seq<i8>) -> int
    decreases s.len(),
{
    if s.len() == 0 {
        0
    } else {
        cells_sum(s.drop_last()) + s.last()
    }
}

/// The number of empty cells.
pub open spec fn empties(s: Seq<i8>) -> nat
    decreases s.len(),
{
    if s.len() == 0 {
        0
    } else {
        empties(s.drop_last()) + if s.last() == 0 { 1nat } else { 0nat }
    }
}

/// The side to move: +1 whenever it has no more stones on the board than -1.
pub open spec fn player_of(s: Seq<i8>) -> int {
    if cells_sum(s) <= 0 {
        1
    } else {
        -1
    }
}

/// The cells read as a number in base three, the last cell least significant;
/// each cell contributes the digit `cell + 1`.
pub open spec fn key_of(s: Seq<i8>) -> int
    decreases s.len(),
{
    if s.len() == 0 {
        0
    } else {
        key_of(s.drop_last()) * 3 + (s.last() + 1)
    }
}

pub open spec fn pow3(n: nat) -> int
    decreases n,
{
    if n == 0 {
        1
    } else {
        3 * pow3((n - 1) as nat)
    }
}

/// Filling an empty cell with a stone leaves one empty cell fewer.
pub proof fn lemma_empties_fill(s: Seq<i8>, i: int, v: i8)
    requires
        0 <= i < s.len(),
        s[i] == 0,
        v != 0,
    ensures
        empties(s.update(i, v)) + 1 == empties(s),
    decreases s.len(),
{
    let t = s.update(i, v);
    if i == s.len() - 1 {
        assert(t.drop_last() =~= s.drop_last());
    } else {
        assert(t.drop_last() =~= s.drop_last().update(i, v));
        lemma_empties_fill(s.drop_last(), i, v);
    }
}

/// Keys of valid cells stay below a power of three.
pub proof fn lemma_key_bound(s: Seq<i8>)
    requires
        valid_cells(s),
    ensures
        0 <= key_of(s) < pow3(s.len()),
    decreases s.len(),
{
    if s.len() > 0 {
        let d = s.drop_last();
        assert(valid_cells(d)) by {
            assert forall|i: int| 0 <= i < d.len() implies -1 <= #[trigger] d[i] <= 1 by {
                assert(d[i] == s[i]);
            }
        }
        lemma_key_bound(d);
        assert(-1 <= s[s.len() - 1] <= 1);
    }
}

pub proof fn lemma_pow3_mono(a: nat, b: nat)
    requires
        a <= b,
    ensures
        1 <= pow3(a) <= pow3(b),
    decreases b,
{
    if b > 0 {
        if a < b {
            lemma_pow3_mono(a, (b - 1) as nat);
        } else {
            lemma_pow3_mono((b - 1) as nat, (b - 1) as nat);
        }
    }
}

pub proof fn lemma_pow3_adds(a: nat, b: nat)
    ensures
        pow3(a + b) == pow3(a) * pow3(b),
    decreases a,
{
    if a > 0 {
        lemma_pow3_adds((a - 1) as nat, b);
        assert(pow3(a + b) == 3 * pow3((a - 1 + b) as nat));
        assert(pow3(a) * pow3(b) == 3 * (pow3((a - 1) as nat) * pow3(b))) by (nonlinear_arith)
            requires
                pow3(a) == 3 * pow3((a - 1) as nat),
        ;
    }
}

/// Keys of boards up to `KEY_CELLS` cells fit in a `u128`.
pub proof fn lemma_key_fits(n: nat)
    requires
        n <= KEY_CELLS,
    ensures
        pow3(n) <= pow3(KEY_CELLS as nat) < 0x1_0000_0000_0000_0000_0000_0000_0000_0000,
{
    lemma_pow3_mono(n, KEY_CELLS as nat);
    reveal_with_fuel(pow3, 9);
    assert(pow3(8) == 6561);
    lemma_pow3_adds(8, 8);
    assert(pow3(16) == 43046721);
    lemma_pow3_adds(16, 16);
    assert(pow3(32) == 1853020188851841);
    lemma_pow3_adds(32, 32);
    assert(pow3(64) == 3433683820292512484657849089281);
}

/// Two equally long valid boards with one key are one board.
pub proof fn lemma_key_injective(s: Seq<i8>, t: Seq<i8>)
    requires
        valid_cells(s),
        valid_cells(t),
        s.len() == t.len(),
        key_of(s) == key_of(t),
    ensures
        s == t,
    decreases s.len(),
{
    if s.len() > 0 {
        let (ds, dt) = (s.drop_last(), t.drop_last());
        assert(valid_cells(ds)) by {
            assert forall|i: int| 0 <= i < ds.len() implies -1 <= #[trigger] ds[i] <= 1 by {
                assert(ds[i] == s[i]);
            }
        }
        assert(valid_cells(dt)) by {
            assert forall|i: int| 0 <= i < dt.len() implies -1 <= #[trigger] dt[i] <= 1 by {
                assert(dt[i] == t[i]);
            }
        }
        lemma_key_bound(ds);
        lemma_key_bound(dt);
        let (a, b) = (s.last() + 1, t.last() + 1);
        assert(0 <= a < 3 && 0 <= b < 3);
        let (ks, kt) = (key_of(ds), key_of(dt));
        assert(ks == kt && a == b) by (nonlinear_arith)
            requires
                ks * 3 + a == kt * 3 + b,
                0 <= a < 3,
                0 <= b < 3,
        ;
        lemma_key_injective(ds, dt);
        assert(s =~= ds.push(s.last()));
        assert(t =~= dt.push(t.last()));
    }
}

impl Board {
    /// An empty board of `rows` by `cols` cells.
    pub fn zeros(rows: usize, cols: usize) -> (r: Board)
        requires
            rows * cols <= usize::MAX,
        ensures
            r@.wf(),
            r.rows == rows,
            r.cols == cols,
            forall|i: int| 0 <= i < r.cells@.len() ==> r.cells@[i] == 0,
    {
        let n = rows * cols;
        let mut cells: Vec<i8> = Vec::new();
        let mut i: usize = 0;
        while i < n
            invariant
                i <= n,
                cells@.len() == i,
                forall|k: int| 0 <= k < i ==> cells@[k] == 0,
            decreases n - i,
        {
            cells.push(0);
            i += 1;
        }
        Board { rows, cols, cells }
    }

    /// The cell at row `i`, column `j`.
    pub fn get(&self, i: usize, j: usize) -> (r: i8)
        requires
            self@.wf(),
            self@.in_range((i, j)),
        ensures
            r == self.cells@[self@.index((i, j))],
    {
        let n = self.cells.len();
        proof {
            lemma_index_in_range(self@, (i, j));
            assert(i * self.cols <= i * self.cols + j < n);
        }
        self.cells[i * self.cols + j]
    }

    /// A copy of this board.
    pub fn duplicate(&self) -> (r: Board)
        ensures
            r@ == self@,
    {
        let cells = self.cells.clone();
        proof {
            assert(cells@ =~= self.cells@);
        }
        Board { rows: self.rows, cols: self.cols, cells }
    }

    /// The sum of all cells.
    pub fn sum(&self) -> (r: i64)
        requires
            self@.wf(),
            self.cells@.len() <= KEY_CELLS,
        ensures
            r == cells_sum(self.cells@),
    {
        let mut total: i64 = 0;
        let mut i: usize = 0;
        while i < self.cells.len()
            invariant
                self@.wf(),
                self.cells@.len() <= KEY_CELLS,
                i <= self.cells@.len(),
                total == cells_sum(self.cells@.take(i as int)),
                -(i as int) <= total <= i,
            decreases self.cells@.len() - i,
        {
            proof {
                assert(self.cells@.take(i + 1).drop_last() =~= self.cells@.take(i as int));
            }
            total = total + self.cells[i] as i64;
            i += 1;
        }
        proof {
            assert(self.cells@.take(i as int) =~= self.cells@);
        }
        total
    }

    /// The side to move on this board.
    pub fn player_to_move(&self) -> (r: i32)
        requires
            self@.wf(),
            self.cells@.len() <= KEY_CELLS,
        ensures
            r == player_of(self.cells@),
    {
        if self.sum() <= 0 {
            1
        } else {
            -1
        }
    }

    /// The board's cells as one number, distinct for distinct boards of one size.
    pub fn key(&self) -> (r: u128)
        requires
            self@.wf(),
            self.cells@.len() <= KEY_CELLS,
        ensures
            r == key_of(self.cells@),
    {
        let mut k: u128 = 0;
        let mut i: usize = 0;
        while i < self.cells.len()
            invariant
                self@.wf(),
                self.cells@.len() <= KEY_CELLS,
                i <= self.cells@.len(),
                k == key_of(self.cells@.take(i as int)),
            decreases self.cells@.len() - i,
        {
            let ghost pre = self.cells@.take(i as int);
            proof {
                assert(self.cells@.take(i + 1).drop_last() =~= pre);
                assert(valid_cells(self.cells@.take(i + 1)));
                lemma_key_bound(self.cells@.take(i + 1));
                lemma_key_fits((i + 1) as nat);
                assert(-1 <= self.cells@[i as int] <= 1);
            }
            k = k * 3 + (self.cells[i] + 1) as u128;
            i += 1;
        }
        proof {
            assert(self.cells@.take(i as int) =~= self.cells@);
        }
        k
    }

    /// Places `player` at cell `a`.
    pub fn set(&mut self, a: (usize, usize), player: i8)
        requires
            old(self)@.wf(),
            old(self)@.in_range(a),
            -1 <= player <= 1,
        ensures
            final(self)@ == old(self)@.place(a, player as int),
            final(self)@.wf(),
    {
        let n = self.cells.len();
        proof {
            lemma_index_in_range(self@, a);
            assert(a.0 * self.cols <= a.0 * self.cols + a.1 < n);
        }
        let idx = a.0 * self.cols + a.1;
        self.cells.set(idx, player);
    }
}

/// A cell in range has its position among the cells.
pub proof fn lemma_index_in_range(b: BoardModel, a: (usize, usize))
    requires
        b.wf(),
        b.in_range(a),
    ensures
        0 <= a.0 * b.cols <= b.index(a) < b.cells.len(),
{
    let (i, j) = (a.0 as int, a.1 as int);
    assert(0 <= i * b.cols <= i * b.cols + j < b.rows * b.cols) by (nonlinear_arith)
        requires
            0 <= i < b.rows,
            0 <= j < b.cols,
    ;
}

} // verus!
