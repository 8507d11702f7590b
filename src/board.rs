//! The 3x3 grid, its moves, and the detection of wins and draws.

use vstd::prelude::*;

verus! {

/// The value of one cell.
#[derive(PartialEq, Eq, Structural, Debug, Clone, Copy)]
pub enum Field {
    X,
    O,
    Free,
}

/// Nine cells; the cell at column `x` and row `y` is `fields[3 * y + x]`.
#[derive(PartialEq, Eq, Debug, Clone, Copy)]
pub struct Board {
    pub fields: [Field; 9],
}

impl View for Board {
    type V = Seq<Field>;

    open spec fn view(&self) -> Seq<Field> {
        self.fields@
    }
}

/// Position of the cell `(x, y)` in the sequence of cells.
pub open spec fn cell_index(x: int, y: int) -> int {
    3 * y + x
}

pub open spec fn cell(b: Seq<Field>, x: int, y: int) -> Field {
    b[cell_index(x, y)]
}

pub open spec fn on_board(x: int, y: int) -> bool {
    0 <= x < 3 && 0 <= y < 3
}

/// Column `x` holds `p` in all three rows.
pub open spec fn column_filled(b: Seq<Field>, p: Field, x: int) -> bool {
    cell(b, x, 0) == p && cell(b, x, 1) == p && cell(b, x, 2) == p
}

/// Row `y` holds `p` in all three columns.
pub open spec fn row_filled(b: Seq<Field>, p: Field, y: int) -> bool {
    cell(b, 0, y) == p && cell(b, 1, y) == p && cell(b, 2, y) == p
}

/// The diagonal `(0,0), (1,1), (2,2)` holds `p`.
pub open spec fn main_diagonal_filled(b: Seq<Field>, p: Field) -> bool {
    cell(b, 0, 0) == p && cell(b, 1, 1) == p && cell(b, 2, 2) == p
}

/// The diagonal `(0,2), (1,1), (2,0)` holds `p`.
pub open spec fn anti_diagonal_filled(b: Seq<Field>, p: Field) -> bool {
    cell(b, 0, 2) == p && cell(b, 1, 1) == p && cell(b, 2, 0) == p
}

/// `p` holds one of the eight lines of the grid.
pub open spec fn wins(b: Seq<Field>, p: Field) -> bool {
    ||| column_filled(b, p, 0)
    ||| column_filled(b, p, 1)
    ||| column_filled(b, p, 2)
    ||| row_filled(b, p, 0)
    ||| row_filled(b, p, 1)
    ||| row_filled(b, p, 2)
    ||| main_diagonal_filled(b, p)
    ||| anti_diagonal_filled(b, p)
}

/// The player with a line, `X` first; `Free` where neither has one.
pub open spec fn winner(b: Seq<Field>) -> Field {
    if wins(b, Field::X) {
        Field::X
    } else if wins(b, Field::O) {
        Field::O
    } else {
        Field::Free
    }
}

/// No cell is free.
pub open spec fn full(b: Seq<Field>) -> bool {
    forall|i: int| 0 <= i < 9 ==> b[i] != Field::Free
}

/// The free cells among the first `k` in the order `(0,0), (0,1), (0,2),
/// (1,0), ...` (column outer, row inner).
pub open spec fn free_upto(b: Seq<Field>, k: nat) -> Seq<(u16, u16)>
    decreases k,
{
    if k == 0 {
        Seq::empty()
    } else {
        let x = (k - 1) / 3;
        let y = (k - 1) % 3;
        let prev = free_upto(b, (k - 1) as nat);
        if cell(b, x, y) == Field::Free {
            prev.push((x as u16, y as u16))
        } else {
            prev
        }
    }
}

/// All free cells, column outer and row inner, both ascending.
pub open spec fn free_cells(b: Seq<Field>) -> Seq<(u16, u16)> {
    free_upto(b, 9)
}

pub open spec fn occupied(f: Field) -> nat {
    if f == Field::Free {
        0
    } else {
        1
    }
}

/// How many cells hold a player.
pub open spec fn occupied_count(b: Seq<Field>) -> nat {
    occupied(b[0]) + occupied(b[1]) + occupied(b[2]) + occupied(b[3]) + occupied(b[4])
        + occupied(b[5]) + occupied(b[6]) + occupied(b[7]) + occupied(b[8])
}

/// How many cells are free.
pub open spec fn free_count(b: Seq<Field>) -> nat {
    (9 - occupied_count(b)) as nat
}

/// Rank of the cell `(x, y)` in the order of `free_cells`.
pub open spec fn enum_rank(m: (u16, u16)) -> int {
    3 * m.0 + m.1
}

/// Each pair in `s` is a free cell of `b` of rank below `k`, and the ranks
/// ascend along `s`.
pub open spec fn free_list_valid(b: Seq<Field>, s: Seq<(u16, u16)>, k: int) -> bool {
    &&& forall|j: int|
        0 <= j < s.len() ==> {
            &&& on_board(s[j].0 as int, s[j].1 as int)
            &&& cell(b, s[j].0 as int, s[j].1 as int) == Field::Free
            &&& enum_rank(#[trigger] s[j]) < k
        }
    &&& forall|i: int, j: int| 0 <= i < j < s.len() ==> enum_rank(s[i]) < enum_rank(s[j])
}

pub proof fn lemma_free_upto_valid(b: Seq<Field>, k: nat)
    requires
        k <= 9,
    ensures
        free_list_valid(b, free_upto(b, k), k as int),
        free_upto(b, k).len() <= k,
    decreases k,
{
    if k > 0 {
        lemma_free_upto_valid(b, (k - 1) as nat);
    }
}

/// Every pair that `free_cells` lists is a free cell of the board.
pub proof fn lemma_free_cells_valid(b: Seq<Field>)
    ensures
        free_list_valid(b, free_cells(b), 9),
        free_cells(b).len() <= 9,
{
    lemma_free_upto_valid(b, 9);
}

proof fn lemma_free_upto_len_step(b: Seq<Field>, k: nat)
    requires
        1 <= k <= 9,
    ensures
        free_upto(b, k).len() + occupied(cell(b, (k - 1) / 3, (k - 1) % 3)) == free_upto(
            b,
            (k - 1) as nat,
        ).len() + 1,
{
}

/// The free cells and the occupied ones together make up the nine cells,
/// and no free cell is listed twice.
pub proof fn lemma_free_cells_complete(b: Seq<Field>)
    requires
        b.len() == 9,
    ensures
        free_cells(b).len() + occupied_count(b) == 9,
        free_cells(b).no_duplicates(),
{
    lemma_free_upto_len_step(b, 1);
    lemma_free_upto_len_step(b, 2);
    lemma_free_upto_len_step(b, 3);
    lemma_free_upto_len_step(b, 4);
    lemma_free_upto_len_step(b, 5);
    lemma_free_upto_len_step(b, 6);
    lemma_free_upto_len_step(b, 7);
    lemma_free_upto_len_step(b, 8);
    lemma_free_upto_len_step(b, 9);
    lemma_free_cells_valid(b);
    let s = free_cells(b);
    assert forall|i: int, j: int| 0 <= i < s.len() && 0 <= j < s.len() && i != j implies s[i]
        != s[j] by {
        if i < j {
            assert(enum_rank(s[i]) < enum_rank(s[j]));
        } else {
            assert(enum_rank(s[j]) < enum_rank(s[i]));
        }
    }
}

/// A free cell of the board is listed by `free_cells`.
pub proof fn lemma_free_cells_lists_free(b: Seq<Field>, x: u16, y: u16)
    requires
        on_board(x as int, y as int),
        cell(b, x as int, y as int) == Field::Free,
    ensures
        free_cells(b).contains((x, y)),
{
    let k = (3 * x + y + 1) as nat;
    assert((k - 1) / 3 == x && (k - 1) % 3 == y);
    assert(free_upto(b, k).last() == (x, y));
    lemma_free_upto_grows(b, k, 9);
    assert(free_cells(b)[free_upto(b, k).len() - 1] == (x, y));
}

/// Listing more cells only appends to the list.
proof fn lemma_free_upto_grows(b: Seq<Field>, k: nat, n: nat)
    requires
        k <= n,
    ensures
        free_upto(b, k).len() <= free_upto(b, n).len(),
        free_upto(b, n).subrange(0, free_upto(b, k).len() as int) == free_upto(b, k),
    decreases n - k,
{
    if k < n {
        lemma_free_upto_grows(b, k, (n - 1) as nat);
        let s = free_upto(b, (n - 1) as nat);
        assert(free_upto(b, n).subrange(0, s.len() as int) =~= s);
        assert(free_upto(b, n).subrange(0, free_upto(b, k).len() as int) =~= s.subrange(
            0,
            free_upto(b, k).len() as int,
        ));
    } else {
        assert(free_upto(b, n).subrange(0, free_upto(b, n).len() as int) =~= free_upto(b, n));
    }
}

/// Putting a player on a free cell leaves one free cell fewer.
pub proof fn lemma_occupy_cell(b: Seq<Field>, i: int, p: Field)
    requires
        b.len() == 9,
        0 <= i < 9,
        b[i] == Field::Free,
        p != Field::Free,
    ensures
        free_count(b.update(i, p)) + 1 == free_count(b),
{
    let c = b.update(i, p);
    assert(forall|j: int| 0 <= j < 9 && j != i ==> c[j] == b[j]);
    assert(c[i] == p);
}

/// The board turned a quarter: the cell `(x, y)` takes the value of `(y, 2 - x)`.
pub open spec fn rotated(b: Seq<Field>) -> Seq<Field> {
    Seq::new(9, |i: int| cell(b, i / 3, 2 - i % 3))
}

/// The board mirrored left to right: `(x, y)` takes the value of `(2 - x, y)`.
pub open spec fn mirrored(b: Seq<Field>) -> Seq<Field> {
    Seq::new(9, |i: int| cell(b, 2 - i % 3, i / 3))
}

/// A line stays a line under a quarter turn and under a mirror image, so a
/// player wins on a board exactly when it wins on the turned or mirrored
/// board. Together the two generate all eight symmetries of the grid.
pub proof fn lemma_win_symmetry(b: Seq<Field>, p: Field)
    requires
        b.len() == 9,
    ensures
        wins(rotated(b), p) == wins(b, p),
        wins(mirrored(b), p) == wins(b, p),
{
    let r = rotated(b);
    let m = mirrored(b);
    assert(r[0] == b[6] && r[1] == b[3] && r[2] == b[0]);
    assert(r[3] == b[7] && r[4] == b[4] && r[5] == b[1]);
    assert(r[6] == b[8] && r[7] == b[5] && r[8] == b[2]);
    assert(m[0] == b[2] && m[1] == b[1] && m[2] == b[0]);
    assert(m[3] == b[5] && m[4] == b[4] && m[5] == b[3]);
    assert(m[6] == b[8] && m[7] == b[7] && m[8] == b[6]);
}

/// The queries read the cells only: boards with the same cells give the same
/// answers, however often they are asked.
pub proof fn lemma_queries_read_cells_only(a: Board, b: Board)
    requires
        a@ == b@,
    ensures
        full(a@) == full(b@),
        winner(a@) == winner(b@),
        free_cells(a@) == free_cells(b@),
{
}

fn to_index(x: u16, y: u16) -> (r: usize)
    requires
        on_board(x as int, y as int),
    ensures
        r == cell_index(x as int, y as int),
        r < 9,
{
    (3 * y + x) as usize
}

impl Board {
    /// An empty board.
    pub fn new() -> (r: Board)
        ensures
            forall|i: int| 0 <= i < 9 ==> r@[i] == Field::Free,
    {
        Board { fields: [Field::Free; 9] }
    }

    /// A board with the given cells.
    pub fn from_fields(fields: [Field; 9]) -> (r: Board)
        ensures
            r@ == fields@,
    {
        Board { fields }
    }

    /// The value of the cell `(x, y)`.
    pub fn get(&self, x: u16, y: u16) -> (r: Field)
        requires
            on_board(x as int, y as int),
        ensures
            r == cell(self@, x as int, y as int),
    {
        self.fields[to_index(x, y)]
    }

    /// Overwrites the cell `(x, y)`, whatever it held.
    pub fn set(&mut self, x: u16, y: u16, value: Field)
        requires
            on_board(x as int, y as int),
        ensures
            final(self)@ == old(self)@.update(cell_index(x as int, y as int), value),
    {
        self.fields[to_index(x, y)] = value;
    }

    /// Whether no cell is free.
    pub fn is_full(&self) -> (r: bool)
        ensures
            r == full(self@),
    {
        for x in 0..3u16
            invariant
                forall|i: int, j: int| 0 <= i < x && 0 <= j < 3 ==> cell(self@, i, j) != Field::Free,
        {
            for y in 0..3u16
                invariant
                    0 <= x < 3,
                    forall|i: int, j: int| 0 <= i < x && 0 <= j < 3 ==> cell(self@, i, j) != Field::Free,
                    forall|j: int| 0 <= j < y ==> cell(self@, x as int, j) != Field::Free,
            {
                if self.get(x, y) == Field::Free {
                    return false;
                }
            }
        }
        assert forall|i: int| 0 <= i < 9 implies self@[i] != Field::Free by {
            assert(cell(self@, i % 3, i / 3) != Field::Free);
        }
        true
    }

    /// Puts `player` on the cell `(x, y)` if it is free; otherwise leaves the
    /// board as it is and returns `false`.
    pub fn make_move(&mut self, x: u16, y: u16, player: Field) -> (r: bool)
        requires
            on_board(x as int, y as int),
        ensures
            r == (cell(old(self)@, x as int, y as int) == Field::Free),
            r ==> final(self)@ == old(self)@.update(cell_index(x as int, y as int), player),
            !r ==> final(self)@ == old(self)@,
    {
        if self.get(x, y) != Field::Free {
            return false;
        }
        self.set(x, y, player);
        true
    }

    /// Whether `player` holds a full column, row or diagonal.
    pub fn has_won_player(&self, player: Field) -> (r: bool)
        ensures
            r == wins(self@, player),
    {
        let mut diagonal1 = true;
        for x in 0..3u16
            invariant
                diagonal1 == (forall|j: int| 0 <= j < x ==> cell(self@, j, j) == player),
                forall|j: int|
                    0 <= j < x ==> !column_filled(self@, player, j) && !row_filled(
                        self@,
                        player,
                        j,
                    ),
        {
            let mut rows = true;
            let mut cols = true;
            for y in 0..3u16
                invariant
                    0 <= x < 3,
                    cols == (forall|k: int| 0 <= k < y ==> cell(self@, x as int, k) == player),
                    rows == (forall|k: int| 0 <= k < y ==> cell(self@, k, x as int) == player),
                    diagonal1 == ((forall|j: int| 0 <= j < x ==> cell(self@, j, j) == player) && (x
                        < y ==> cell(self@, x as int, x as int) == player)),
            {
                if self.get(x, y) != player {
                    cols = false;
                }
                if self.get(y, x) != player {
                    rows = false;
                }
                if x == y {
                    if self.get(x, y) != player {
                        diagonal1 = false;
                    }
                }
            }
            if rows || cols {
                return true;
            }
        }
        if diagonal1 {
            return true;
        }
        if self.get(0, 2) == player && self.get(1, 1) == player && self.get(2, 0) == player {
            return true;
        }
        false
    }

    /// The player that holds a line, `X` when both do; `Free` when neither.
    pub fn has_won(&self) -> (r: Field)
        ensures
            r == winner(self@),
    {
        if self.has_won_player(Field::X) {
            Field::X
        } else if self.has_won_player(Field::O) {
            Field::O
        } else {
            Field::Free
        }
    }

    /// The free cells as `(x, y)` pairs, `x` outer and `y` inner, ascending.
    pub fn get_free(&self) -> (r: Vec<(u16, u16)>)
        ensures
            r@ == free_cells(self@),
    {
        let mut result: Vec<(u16, u16)> = Vec::new();
        for x in 0..3u16
            invariant
                result@ == free_upto(self@, (3 * x) as nat),
        {
            for y in 0..3u16
                invariant
                    0 <= x < 3,
                    result@ == free_upto(self@, (3 * x + y) as nat),
            {
                assert((3 * x + y) / 3 == x && (3 * x + y) % 3 == y);
                if self.get(x, y) == Field::Free {
                    result.push((x, y));
                }
            }
        }
        result
    }
}

} // verus!
