use crate::chance::random_below;
use crate::line::{
    all_nonneg, all_tiles, ints, is_pow2, is_tile, lemma_slid, lemma_slid_fixed, lemma_total4,
    lemma_total_nonneg, line_gain, slid, slide_line, total,
};
use vstd::prelude::*;

verus! {

/// The number of rows, and of columns, of the board.
pub const SIZE: usize = 4;

/// The direction in which a move pushes the tiles.
#[derive(Clone, Copy, Debug, PartialEq, Eq, Structural)]
pub enum Direction {
    Up,
    Down,
    Left,
    Right,
}

/// The row of the cell that stands `k` cells from the edge that the tiles are
/// pushed toward, on line `i` of a move in direction `d`.
pub open spec fn pos_row(d: Direction, i: int, k: int) -> int {
    match d {
        Direction::Left => i,
        Direction::Right => i,
        Direction::Up => k,
        Direction::Down => 3 - k,
    }
}

/// The column of that same cell.
pub open spec fn pos_col(d: Direction, i: int, k: int) -> int {
    match d {
        Direction::Left => k,
        Direction::Right => 3 - k,
        Direction::Up => i,
        Direction::Down => i,
    }
}

/// The line, of a move in direction `d`, that cell `(r, c)` lies on.
pub open spec fn line_index(d: Direction, r: int, c: int) -> int {
    match d {
        Direction::Left => r,
        Direction::Right => r,
        Direction::Up => c,
        Direction::Down => c,
    }
}

/// How far cell `(r, c)` stands from the edge that direction `d` pushes toward.
pub open spec fn line_step(d: Direction, r: int, c: int) -> int {
    match d {
        Direction::Left => c,
        Direction::Right => 3 - c,
        Direction::Up => r,
        Direction::Down => 3 - r,
    }
}

/// The cell values of a grid.
pub open spec fn grid(b: [[u32; 4]; 4]) -> Seq<Seq<int>> {
    Seq::new(4, |r: int| Seq::new(4, |c: int| b[r][c] as int))
}

/// Line `i` of grid `g` for a move in direction `d`, from the edge that the
/// tiles are pushed toward.
pub open spec fn line_of(g: Seq<Seq<int>>, d: Direction, i: int) -> Seq<int> {
    Seq::new(4, |k: int| g[pos_row(d, i, k)][pos_col(d, i, k)])
}

/// The grid after a move in direction `d` has slid and merged every line,
/// before any new tile.
pub open spec fn moved(g: Seq<Seq<int>>, d: Direction) -> Seq<Seq<int>> {
    Seq::new(
        4,
        |r: int|
            Seq::new(4, |c: int| slid(line_of(g, d, line_index(d, r, c)))[line_step(d, r, c)]),
    )
}

/// The points earned on the first `n` lines of a move.
pub open spec fn gains_upto(g: Seq<Seq<int>>, d: Direction, n: int) -> int
    decreases n,
{
    if n <= 0 {
        0
    } else {
        gains_upto(g, d, n - 1) + line_gain(line_of(g, d, n - 1))
    }
}

/// The points a move in direction `d` earns on grid `g`.
pub open spec fn move_gain(g: Seq<Seq<int>>, d: Direction) -> int {
    gains_upto(g, d, 4)
}

/// The sum of the first `n` lines of a move.
pub open spec fn totals_upto(g: Seq<Seq<int>>, d: Direction, n: int) -> int
    decreases n,
{
    if n <= 0 {
        0
    } else {
        totals_upto(g, d, n - 1) + total(line_of(g, d, n - 1))
    }
}

/// The sum of all the cells of a grid.
pub open spec fn grid_total(g: Seq<Seq<int>>) -> int {
    totals_upto(g, Direction::Left, 4)
}

/// Every cell of the grid is empty or a power of two of at least two.
pub open spec fn grid_wf(g: Seq<Seq<int>>) -> bool {
    &&& g.len() == 4
    &&& forall|r: int| 0 <= r < 4 ==> #[trigger] g[r].len() == 4
    &&& forall|r: int, c: int| 0 <= r < 4 && 0 <= c < 4 ==> is_tile(#[trigger] g[r][c])
}

/// Some cell of the grid is empty.
pub open spec fn has_empty(g: Seq<Seq<int>>) -> bool {
    exists|r: int, c: int| 0 <= r < 4 && 0 <= c < 4 && #[trigger] g[r][c] == 0
}

/// `after` is `before` with exactly one empty cell turned into a 2 or a 4.
pub open spec fn spawned(before: Seq<Seq<int>>, after: Seq<Seq<int>>) -> bool {
    exists|r: int, c: int|
        0 <= r < 4 && 0 <= c < 4 && #[trigger] before[r][c] == 0 && (after[r][c] == 2
            || after[r][c] == 4) && forall|r2: int, c2: int|
            0 <= r2 < 4 && 0 <= c2 < 4 && (r2 != r || c2 != c) ==> #[trigger] after[r2][c2]
                == before[r2][c2]
}

/// No cell is empty and no two neighbouring cells, in a row or in a column,
/// hold equal values.
pub open spec fn stuck(g: Seq<Seq<int>>) -> bool {
    &&& forall|r: int, c: int| 0 <= r < 4 && 0 <= c < 4 ==> #[trigger] g[r][c] != 0
    &&& forall|r: int, c: int| 0 <= r < 4 && 0 <= c < 3 ==> #[trigger] g[r][c] != g[r][c + 1]
    &&& forall|r: int, c: int| 0 <= r < 3 && 0 <= c < 4 ==> #[trigger] g[r][c] != g[r + 1][c]
}

/// The grid with cell `(r, c)` set to `v`.
pub open spec fn with_cell(g: Seq<Seq<int>>, r: int, c: int, v: int) -> Seq<Seq<int>> {
    g.update(r, g[r].update(c, v))
}

/// The positions of the empty cells of the first `n` rows, then of the first
/// `m` cells of row `n`, in row-major order.
pub open spec fn empties_upto(g: Seq<Seq<int>>, n: int, m: int) -> Seq<(int, int)>
    decreases n, m,
{
    if m > 0 {
        let e = empties_upto(g, n, m - 1);
        if g[n][m - 1] == 0 {
            e.push((n, m - 1))
        } else {
            e
        }
    } else if n > 0 {
        empties_upto(g, n - 1, 4)
    } else {
        seq![]
    }
}

/// The positions of all the empty cells of the grid, in row-major order.
pub open spec fn empties(g: Seq<Seq<int>>) -> Seq<(int, int)> {
    empties_upto(g, 3, 4)
}

/// The value of a new tile for a roll in `0..10`: a 4 for the top roll, a 2
/// otherwise.
pub open spec fn tile_for_roll(roll: int) -> int {
    if roll < 9 {
        2
    } else {
        4
    }
}


/// The grid with every cell empty.
pub open spec fn empty_grid() -> Seq<Seq<int>> {
    Seq::new(4, |r: int| Seq::new(4, |c: int| 0int))
}

/// `p` is the position of an empty cell of `g`.
pub open spec fn empty_at(g: Seq<Seq<int>>, p: (int, int)) -> bool {
    0 <= p.0 < 4 && 0 <= p.1 < 4 && g[p.0][p.1] == 0
}

/// Positions as pairs of integers.
pub open spec fn positions(s: Seq<(usize, usize)>) -> Seq<(int, int)> {
    s.map_values(|p: (usize, usize)| (p.0 as int, p.1 as int))
}

proof fn lemma_small_tiles()
    ensures
        is_tile(2),
        is_tile(4),
{
    reveal_with_fuel(is_pow2, 3);
}

proof fn lemma_line_nonneg(g: Seq<Seq<int>>, d: Direction, i: int)
    requires
        all_tiles(line_of(g, d, i)),
    ensures
        total(line_of(g, d, i)) >= 0,
{
    let l = line_of(g, d, i);
    assert(all_nonneg(l));
    lemma_total_nonneg(l);
}

proof fn lemma_line_totals(g: Seq<Seq<int>>, d: Direction)
    requires
        grid_wf(g),
    ensures
        totals_upto(g, d, 4) == grid_total(g),
        forall|n: int| 0 <= n <= 4 ==> #[trigger] totals_upto(g, d, n) <= totals_upto(g, d, 4),
        forall|i: int| 0 <= i < 4 ==> all_tiles(#[trigger] line_of(g, d, i)),
{
    assert forall|i: int| 0 <= i < 4 implies all_tiles(#[trigger] line_of(g, d, i)) by {
        assert forall|k: int| 0 <= k < 4 implies is_tile(#[trigger] line_of(g, d, i)[k]) by {
            assert(is_tile(g[pos_row(d, i, k)][pos_col(d, i, k)]));
        }
    }
    lemma_line_nonneg(g, d, 0);
    lemma_line_nonneg(g, d, 1);
    lemma_line_nonneg(g, d, 2);
    lemma_line_nonneg(g, d, 3);
    lemma_total4(line_of(g, d, 0));
    lemma_total4(line_of(g, d, 1));
    lemma_total4(line_of(g, d, 2));
    lemma_total4(line_of(g, d, 3));
    lemma_total4(line_of(g, Direction::Left, 0));
    lemma_total4(line_of(g, Direction::Left, 1));
    lemma_total4(line_of(g, Direction::Left, 2));
    lemma_total4(line_of(g, Direction::Left, 3));
    assert(totals_upto(g, d, 0) == 0);
    assert(totals_upto(g, Direction::Left, 0) == 0);
    assert(totals_upto(g, d, 1) == total(line_of(g, d, 0)));
    assert(totals_upto(g, d, 2) == totals_upto(g, d, 1) + total(line_of(g, d, 1)));
    assert(totals_upto(g, d, 3) == totals_upto(g, d, 2) + total(line_of(g, d, 2)));
    assert(totals_upto(g, Direction::Left, 1) == total(line_of(g, Direction::Left, 0)));
    assert(totals_upto(g, Direction::Left, 2) == totals_upto(g, Direction::Left, 1) + total(line_of(g, Direction::Left, 1)));
    assert(totals_upto(g, Direction::Left, 3) == totals_upto(g, Direction::Left, 2) + total(line_of(g, Direction::Left, 2)));
}

proof fn lemma_empties_upto(g: Seq<Seq<int>>, n: int, m: int)
    requires
        grid_wf(g),
        0 <= n < 4,
        0 <= m <= 4,
    ensures
        forall|j: int| 0 <= j < empties_upto(g, n, m).len() ==> empty_at(g, #[trigger] empties_upto(g, n, m)[j]),
        forall|r: int, c: int|
            0 <= r < 4 && 0 <= c < 4 && (r < n || (r == n && c < m)) && #[trigger] g[r][c] == 0
                ==> empties_upto(g, n, m).len() > 0,
    decreases n, m,
{
    if m > 0 {
        lemma_empties_upto(g, n, m - 1);
        let e = empties_upto(g, n, m - 1);
        if g[n][m - 1] == 0 {
            let f = e.push((n, m - 1));
            assert(empties_upto(g, n, m) == f);
            assert forall|j: int| 0 <= j < f.len() implies empty_at(g, #[trigger] f[j]) by {
                if j < e.len() {
                    assert(f[j] == e[j]);
                } else {
                    assert(f[j] == (n, m - 1));
                }
            }
        } else {
            assert(empties_upto(g, n, m) == e);
        }
    } else if n > 0 {
        lemma_empties_upto(g, n - 1, 4);
        assert(empties_upto(g, n, m) == empties_upto(g, n - 1, 4));
    } else {
        assert(empties_upto(g, n, m).len() == 0);
    }
}

/// The whole grid's empty cells: each listed position is in range and
/// empty, and the list is empty only when no cell is.
proof fn lemma_empties(g: Seq<Seq<int>>)
    requires
        grid_wf(g),
    ensures
        forall|j: int| 0 <= j < empties(g).len() ==> empty_at(g, #[trigger] empties(g)[j]),
        has_empty(g) <==> empties(g).len() > 0,
{
    lemma_empties_upto(g, 3, 4);
    if empties(g).len() > 0 {
        assert(empty_at(g, empties(g)[0]));
    }
}

fn cell_of(d: Direction, i: usize, k: usize) -> (r: (usize, usize))
    requires
        i < 4,
        k < 4,
    ensures
        r.0 < 4,
        r.1 < 4,
        r.0 as int == pos_row(d, i as int, k as int),
        r.1 as int == pos_col(d, i as int, k as int),
{
    match d {
        Direction::Left => (i, k),
        Direction::Right => (i, 3 - k),
        Direction::Up => (k, i),
        Direction::Down => (3 - k, i),
    }
}

fn read_line(b: &[[u32; 4]; 4], d: Direction, i: usize) -> (r: Vec<u32>)
    requires
        i < 4,
    ensures
        ints(r@) == line_of(grid(*b), d, i as int),
        r@.len() == 4,
{
    let mut out: Vec<u32> = Vec::new();
    let mut k: usize = 0;
    while k < 4
        invariant
            k <= 4,
            i < 4,
            ints(out@) == line_of(grid(*b), d, i as int).take(k as int),
        decreases 4 - k,
    {
        let (r, c) = cell_of(d, i, k);
        let ghost before = ints(out@);
        out.push(b[r][c]);
        assert(ints(out@) =~= before.push(b[r as int][c as int] as int));
        assert(ints(out@) =~= line_of(grid(*b), d, i as int).take(k + 1));
        k = k + 1;
    }
    assert(line_of(grid(*b), d, i as int).take(4) =~= line_of(grid(*b), d, i as int));
    out
}

fn write_line(b: &mut [[u32; 4]; 4], d: Direction, i: usize, l: &Vec<u32>)
    requires
        i < 4,
        l@.len() == 4,
    ensures
        forall|r: int, c: int|
            0 <= r < 4 && 0 <= c < 4 ==> #[trigger] grid(*final(b))[r][c] == if line_index(d, r, c)
                == i {
                l@[line_step(d, r, c)] as int
            } else {
                grid(*old(b))[r][c]
            },
{
    let ghost g0 = grid(*b);
    let mut k: usize = 0;
    while k < 4
        invariant
            k <= 4,
            i < 4,
            l@.len() == 4,
            forall|r: int, c: int|
                0 <= r < 4 && 0 <= c < 4 ==> #[trigger] grid(*b)[r][c] == if line_index(d, r, c)
                    == i && line_step(d, r, c) < k {
                    l@[line_step(d, r, c)] as int
                } else {
                    g0[r][c]
                },
        decreases 4 - k,
    {
        let (r, c) = cell_of(d, i, k);
        let ghost before = *b;
        b[r][c] = l[k];
        assert forall|r2: int, c2: int| 0 <= r2 < 4 && 0 <= c2 < 4 implies #[trigger] grid(*b)[r2][c2]
            == if r2 == r && c2 == c {
            l@[k as int] as int
        } else {
            grid(before)[r2][c2]
        } by {
            assert(b@[r2]@[c2] == if r2 == r && c2 == c {
                l@[k as int]
            } else {
                before@[r2]@[c2]
            });
        }
        k = k + 1;
    }
}

fn same_line(a: &Vec<u32>, b: &Vec<u32>) -> (r: bool)
    requires
        a@.len() == b@.len(),
    ensures
        r == (ints(a@) == ints(b@)),
{
    let mut k: usize = 0;
    while k < a.len()
        invariant
            k <= a@.len(),
            a@.len() == b@.len(),
            forall|j: int| 0 <= j < k ==> a@[j] == b@[j],
        decreases a.len() - k,
    {
        if a[k] != b[k] {
            assert(ints(a@)[k as int] != ints(b@)[k as int]);
            return false;
        }
        k = k + 1;
    }
    assert(ints(a@) =~= ints(b@));
    true
}

/// A move changes the grid exactly when it changes one of its lines, and
/// then leaves an empty cell.
proof fn lemma_moved_changed(g: Seq<Seq<int>>, d: Direction)
    requires
        grid_wf(g),
    ensures
        moved(g, d) != g <==> exists|j: int|
            0 <= j < 4 && slid(line_of(g, d, j)) != #[trigger] line_of(g, d, j),
        moved(g, d) != g ==> has_empty(moved(g, d)),
{
    lemma_line_totals(g, d);
    if exists|j: int| 0 <= j < 4 && slid(line_of(g, d, j)) != #[trigger] line_of(g, d, j) {
        let j = choose|j: int| 0 <= j < 4 && slid(line_of(g, d, j)) != #[trigger] line_of(g, d, j);
        let l = line_of(g, d, j);
        lemma_slid(l);
        assert(!(slid(l) =~= l));
        let k = choose|k: int| 0 <= k < 4 && slid(l)[k] != l[k];
        let r = pos_row(d, j, k);
        let c = pos_col(d, j, k);
        assert(moved(g, d)[r][c] != g[r][c]);
        let k0 = choose|k: int| 0 <= k < l.len() && slid(l)[k] == 0;
        assert(moved(g, d)[pos_row(d, j, k0)][pos_col(d, j, k0)] == 0);
    } else {
        assert(moved(g, d) =~~= g) by {
            assert forall|r: int, c: int| 0 <= r < 4 && 0 <= c < 4 implies moved(g, d)[r][c] == g[r][c] by {
                let j = line_index(d, r, c);
                assert(slid(line_of(g, d, j)) == line_of(g, d, j));
            }
        }
    }
}

/// A grid on which the game is over is left as it is by a move in any
/// direction: with no empty cell and no equal neighbours, no tile can slide
/// or merge.
pub proof fn lemma_stuck_grid_is_fixed(g: Seq<Seq<int>>, d: Direction)
    requires
        grid_wf(g),
        stuck(g),
    ensures
        moved(g, d) == g,
{
    assert forall|j: int| 0 <= j < 4 implies slid(line_of(g, d, j)) == #[trigger] line_of(g, d, j) by {
        let l = line_of(g, d, j);
        assert forall|k: int| 0 <= k < l.len() implies #[trigger] l[k] != 0 by {
            assert(g[pos_row(d, j, k)][pos_col(d, j, k)] != 0);
        }
        assert forall|k: int| 0 <= k < l.len() - 1 implies #[trigger] l[k] != l[k + 1] by {
            match d {
                Direction::Left => {
                    assert(g[j][k] != g[j][k + 1]);
                },
                Direction::Right => {
                    assert(g[j][2 - k] != g[j][2 - k + 1]);
                },
                Direction::Up => {
                    assert(g[k][j] != g[k + 1][j]);
                },
                Direction::Down => {
                    assert(g[2 - k][j] != g[2 - k + 1][j]);
                },
            }
        }
        lemma_slid_fixed(l);
    }
    lemma_moved_changed(g, d);
}

/// Every cell of a moved well-formed grid is a tile or empty.
pub proof fn lemma_moved_wf(g: Seq<Seq<int>>, d: Direction)
    requires
        grid_wf(g),
    ensures
        grid_wf(moved(g, d)),
{
    lemma_line_totals(g, d);
    lemma_slid(line_of(g, d, 0));
    lemma_slid(line_of(g, d, 1));
    lemma_slid(line_of(g, d, 2));
    lemma_slid(line_of(g, d, 3));
    assert forall|r: int, c: int| 0 <= r < 4 && 0 <= c < 4 implies is_tile(#[trigger] moved(g, d)[r][c]) by {
        let j = line_index(d, r, c);
        assert(all_tiles(slid(line_of(g, d, j))));
    }
}

/// Tells whether `v` is empty (zero) or a power of two of at least two.
fn is_tile_value(v: u32) -> (r: bool)
    ensures
        r == is_tile(v as int),
{
    if v < 2 {
        return v == 0;
    }
    let mut x: u32 = v;
    while x > 1 && x % 2 == 0
        invariant
            x >= 1,
            is_pow2(x as int) == is_pow2(v as int),
        decreases x,
    {
        assert(is_pow2(x as int) == is_pow2(x as int / 2));
        x = x / 2;
    }
    x == 1
}

/// A game in progress: the grid of cells and the score.
pub struct Game {
    board: [[u32; 4]; 4],
    score: u32,
}

impl Game {
    /// The cell values of the board.
    pub closed spec fn cells(&self) -> Seq<Seq<int>> {
        grid(self.board)
    }

    /// The score as a number.
    pub closed spec fn points(&self) -> int {
        self.score as int
    }

    /// Every cell holds a tile or nothing.
    pub open spec fn wf(&self) -> bool {
        grid_wf(self.cells())
    }

    /// The score plus every point that the board's tiles could still earn fits
    /// the score's type.
    pub open spec fn has_room(&self) -> bool {
        self.points() + grid_total(self.cells()) <= u32::MAX
    }

    /// A game on an empty board with two new tiles placed on it.
    pub fn new() -> (r: Game)
        ensures
            r.wf(),
            r.points() == 0,
            exists|mid: Seq<Seq<int>>| spawned(empty_grid(), mid) && spawned(mid, r.cells()),
    {
        let mut game = Game { board: [[0, 0, 0, 0], [0, 0, 0, 0], [0, 0, 0, 0], [0, 0, 0, 0]], score: 0 };
        assert(game.cells() =~~= empty_grid());
        assert(has_empty(game.cells())) by {
            assert(game.cells()[0][0] == 0);
        }
        game.add_random_tile();
        let ghost mid = game.cells();
        assert(has_empty(mid)) by {
            assert(mid[0][0] == 0 || mid[0][1] == 0);
        }
        game.add_random_tile();
        game
    }

    /// The positions of the empty cells, in row-major order.
    fn empty_cells(&self) -> (r: Vec<(usize, usize)>)
        ensures
            positions(r@) == empties(self.cells()),
    {
        let mut out: Vec<(usize, usize)> = Vec::new();
        let mut row: usize = 0;
        while row < SIZE
            invariant
                row <= SIZE,
                positions(out@) == empties_upto(self.cells(), row as int, 0),
            decreases SIZE - row,
        {
            let mut col: usize = 0;
            while col < SIZE
                invariant
                    row < SIZE,
                    col <= SIZE,
                    positions(out@) == empties_upto(self.cells(), row as int, col as int),
                decreases SIZE - col,
            {
                let ghost before = positions(out@);
                if self.board[row][col] == 0 {
                    out.push((row, col));
                    assert(positions(out@) =~= before.push((row as int, col as int)));
                }
                col = col + 1;
            }
            row = row + 1;
        }
        out
    }

    /// Places a new tile on the `pick`-th empty cell in row-major order: a 4
    /// when `roll` is 9 or more, a 2 otherwise (so a roll drawn from `0..10`
    /// gives a 2 nine times in ten).
    pub fn place_tile(&mut self, pick: usize, roll: usize)
        requires
            old(self).wf(),
            pick < empties(old(self).cells()).len(),
        ensures
            final(self).wf(),
            final(self).points() == old(self).points(),
            final(self).cells() == with_cell(
                old(self).cells(),
                empties(old(self).cells())[pick as int].0,
                empties(old(self).cells())[pick as int].1,
                tile_for_roll(roll as int),
            ),
    {
        let ghost g = self.cells();
        proof {
            lemma_empties(g);
            lemma_small_tiles();
        }
        let cells = self.empty_cells();
        let (r, c) = cells[pick];
        assert(empty_at(g, empties(g)[pick as int]));
        let v: u32 = if roll < 9 { 2 } else { 4 };
        self.board[r][c] = v;
        assert(self.cells() =~~= with_cell(g, r as int, c as int, v as int));
    }

    /// Places one new tile on a cell drawn at random among the empty ones: a 2
    /// nine times in ten, a 4 otherwise. Does nothing on a full board.
    pub fn add_random_tile(&mut self)
        requires
            old(self).wf(),
        ensures
            final(self).wf(),
            final(self).points() == old(self).points(),
            has_empty(old(self).cells()) ==> spawned(old(self).cells(), final(self).cells()),
            !has_empty(old(self).cells()) ==> final(self).cells() == old(self).cells(),
    {
        let ghost g = self.cells();
        proof {
            lemma_empties(g);
        }
        let cells = self.empty_cells();
        if cells.len() == 0 {
            return;
        }
        let pick = random_below(cells.len());
        let roll = random_below(10);
        self.place_tile(pick, roll);
        proof {
            let p = empties(g)[pick as int];
            assert(empty_at(g, p));
            lemma_small_tiles();
            assert(self.cells()[p.0][p.1] == tile_for_roll(roll as int));
            assert(spawned(g, self.cells()));
        }
    }

    /// Applies a move: every line along `dir` is packed toward the edge that
    /// `dir` points to, equal neighbours merge once from that edge, and the
    /// value of each merged tile is added to the score. When the board
    /// changed, one new tile is placed on an empty cell; otherwise nothing
    /// changes at all.
    pub fn apply_move(&mut self, dir: Direction)
        requires
            old(self).wf(),
            old(self).has_room(),
        ensures
            final(self).wf(),
            final(self).points() == old(self).points() + move_gain(old(self).cells(), dir),
            final(self).points() >= old(self).points(),
            moved(old(self).cells(), dir) == old(self).cells() ==> final(self).cells() == old(
                self,
            ).cells(),
            moved(old(self).cells(), dir) != old(self).cells() ==> spawned(
                moved(old(self).cells(), dir),
                final(self).cells(),
            ),
    {
        let ghost g = self.cells();
        proof {
            lemma_line_totals(g, dir);
        }
        let mut next = self.board;
        let mut gain: u32 = 0;
        let mut changed = false;
        let mut i: usize = 0;
        while i < SIZE
            invariant
                i <= SIZE,
                g == self.cells(),
                grid_wf(g),
                self.points() + grid_total(g) <= u32::MAX,
                totals_upto(g, dir, 4) == grid_total(g),
                forall|n: int| 0 <= n <= 4 ==> #[trigger] totals_upto(g, dir, n) <= totals_upto(g, dir, 4),
                forall|j: int| 0 <= j < 4 ==> all_tiles(#[trigger] line_of(g, dir, j)),
                forall|r: int, c: int|
                    0 <= r < 4 && 0 <= c < 4 ==> #[trigger] grid(next)[r][c] == if line_index(dir, r, c) < i {
                        moved(g, dir)[r][c]
                    } else {
                        g[r][c]
                    },
                gain == gains_upto(g, dir, i as int),
                0 <= gains_upto(g, dir, i as int) <= totals_upto(g, dir, i as int),
                changed == exists|j: int| 0 <= j < i && slid(line_of(g, dir, j)) != #[trigger] line_of(g, dir, j),
                !changed ==> gain == 0,
            decreases SIZE - i,
        {
            let ghost l = line_of(g, dir, i as int);
            let line = read_line(&self.board, dir, i);
            proof {
                lemma_slid(l);
                lemma_line_nonneg(g, dir, i as int);
                assert(totals_upto(g, dir, i + 1) == totals_upto(g, dir, i as int) + total(l));
            }
            let (out, got) = slide_line(&line);
            let same = same_line(&line, &out);
            let ghost before = grid(next);
            write_line(&mut next, dir, i, &out);
            assert forall|r: int, c: int| 0 <= r < 4 && 0 <= c < 4 implies #[trigger] grid(next)[r][c]
                == if line_index(dir, r, c) < i + 1 {
                moved(g, dir)[r][c]
            } else {
                g[r][c]
            } by {
                if line_index(dir, r, c) == i {
                    assert(ints(out@)[line_step(dir, r, c)] == out@[line_step(dir, r, c)] as int);
                }
            }
            gain = gain + got;
            changed = changed || !same;
            proof {
                if !same {
                    assert(slid(line_of(g, dir, i as int)) != line_of(g, dir, i as int));
                }
                if changed && same {
                    let j = choose|j: int| 0 <= j < i && slid(line_of(g, dir, j)) != #[trigger] line_of(g, dir, j);
                    assert(0 <= j < i + 1 && slid(line_of(g, dir, j)) != line_of(g, dir, j));
                }
            }
            i = i + 1;
        }
        proof {
            assert(grid(next) =~~= moved(g, dir));
            lemma_moved_changed(g, dir);
        }
        if changed {
            self.board = next;
            self.score = self.score + gain;
            assert(self.cells() == moved(g, dir));
            proof {
                lemma_moved_wf(g, dir);
            }
            self.add_random_tile();
        }
    }

    /// A game on the given board and score, when every cell is empty (zero)
    /// or a power of two of at least two; `None` otherwise.
    pub fn from_cells(board: [[u32; 4]; 4], score: u32) -> (r: Option<Game>)
        ensures
            r is Some <==> grid_wf(grid(board)),
            r matches Some(game) ==> game.cells() == grid(board) && game.points() == score,
    {
        let mut row: usize = 0;
        while row < SIZE
            invariant
                row <= SIZE,
                forall|r: int, c: int| 0 <= r < row && 0 <= c < 4 ==> is_tile(#[trigger] grid(board)[r][c]),
            decreases SIZE - row,
        {
            let mut col: usize = 0;
            while col < SIZE
                invariant
                    row < SIZE,
                    col <= SIZE,
                    forall|r: int, c: int| 0 <= r < row && 0 <= c < 4 ==> is_tile(#[trigger] grid(board)[r][c]),
                    forall|c: int| 0 <= c < col ==> is_tile(#[trigger] grid(board)[row as int][c]),
                decreases SIZE - col,
            {
                if !is_tile_value(board[row][col]) {
                    assert(!is_tile(grid(board)[row as int][col as int]));
                    return None;
                }
                col = col + 1;
            }
            row = row + 1;
        }
        Some(Game { board, score })
    }

    /// Tells whether the score plus the sum of all the tiles fits a `u32`,
    /// which is what `apply_move` needs to add up what a move earns.
    pub fn has_room_for_move(&self) -> (r: bool)
        requires
            self.wf(),
        ensures
            r == self.has_room(),
    {
        let ghost g = self.cells();
        let mut sum: u64 = self.score as u64;
        let mut row: usize = 0;
        while row < SIZE
            invariant
                row <= SIZE,
                g == self.cells(),
                sum == self.points() + totals_upto(g, Direction::Left, row as int),
                sum <= u32::MAX as int + 4 * row * u32::MAX as int,
            decreases SIZE - row,
        {
            proof {
                lemma_total4(line_of(g, Direction::Left, row as int));
            }
            let b = self.board[row];
            sum = sum + b[0] as u64 + b[1] as u64 + b[2] as u64 + b[3] as u64;
            row = row + 1;
        }
        sum <= u32::MAX as u64
    }

    /// The value of cell `(row, col)`.
    pub fn cell(&self, row: usize, col: usize) -> (r: u32)
        requires
            row < SIZE,
            col < SIZE,
        ensures
            r as int == self.cells()[row as int][col as int],
    {
        self.board[row][col]
    }

    /// The score.
    pub fn score(&self) -> (r: u32)
        ensures
            r as int == self.points(),
    {
        self.score
    }

    /// Tells whether the game is over: no cell is empty and no two
    /// neighbouring cells, in a row or a column, hold equal values.
    pub fn is_game_over(&self) -> (r: bool)
        ensures
            r == stuck(self.cells()),
    {
        let mut row: usize = 0;
        while row < SIZE
            invariant
                row <= SIZE,
                forall|r: int, c: int| 0 <= r < row && 0 <= c < 4 ==> #[trigger] self.cells()[r][c] != 0,
                forall|r: int, c: int| 0 <= r < row && 0 <= c < 3 ==> #[trigger] self.cells()[r][c] != self.cells()[r][c + 1],
                forall|r: int, c: int| 0 <= r < row && r < 3 && 0 <= c < 4 ==> #[trigger] self.cells()[r][c] != self.cells()[r + 1][c],
            decreases SIZE - row,
        {
            let mut col: usize = 0;
            while col < SIZE
                invariant
                    row < SIZE,
                    col <= SIZE,
                    forall|r: int, c: int| 0 <= r < row && 0 <= c < 4 ==> #[trigger] self.cells()[r][c] != 0,
                    forall|r: int, c: int| 0 <= r < row && 0 <= c < 3 ==> #[trigger] self.cells()[r][c] != self.cells()[r][c + 1],
                    forall|r: int, c: int| 0 <= r < row && r < 3 && 0 <= c < 4 ==> #[trigger] self.cells()[r][c] != self.cells()[r + 1][c],
                    forall|c: int| 0 <= c < col ==> #[trigger] self.cells()[row as int][c] != 0,
                    forall|c: int| 0 <= c < col && c < 3 ==> #[trigger] self.cells()[row as int][c] != self.cells()[row as int][c + 1],
                    forall|c: int| 0 <= c < col && row < 3 ==> #[trigger] self.cells()[row as int][c] != self.cells()[row + 1][c],
                decreases SIZE - col,
            {
                let v = self.board[row][col];
                if v == 0 {
                    assert(self.cells()[row as int][col as int] == 0);
                    return false;
                }
                if row > 0 && v == self.board[row - 1][col] {
                    assert(self.cells()[row - 1][col as int] == self.cells()[row - 1 + 1][col as int]);
                    return false;
                }
                if row < SIZE - 1 && v == self.board[row + 1][col] {
                    assert(self.cells()[row as int][col as int] == self.cells()[row + 1][col as int]);
                    return false;
                }
                if col > 0 && v == self.board[row][col - 1] {
                    assert(self.cells()[row as int][col - 1] == self.cells()[row as int][col - 1 + 1]);
                    return false;
                }
                if col < SIZE - 1 && v == self.board[row][col + 1] {
                    assert(self.cells()[row as int][col as int] == self.cells()[row as int][col + 1]);
                    return false;
                }
                col = col + 1;
            }
            row = row + 1;
        }
        true
    }
}

} // verus!
