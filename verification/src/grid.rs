//! The tile grid and its operations: move resolution, random spawning, and
//! terminal-state detection.

use vstd::prelude::*;

use rand::Rng;

use crate::action::Action;
use crate::row::{
    is_pow2, lemma_slide_left_len, lemma_slide_left_pow2, lemma_slide_right_len,
    lemma_slide_right_pow2, merge_row_left, merge_row_right, row_fits, row_pow2, slide_left,
    slide_right,
};

verus! {

/// Number of rows and of columns of the grid.
pub const GRID_SIZE: usize = 4;

/// A square grid of tiles; value 0 marks an empty cell.
#[derive(Clone)]
pub struct Grid {
    pub cells: Vec<Vec<u32>>,
}

impl View for Grid {
    type V = Seq<Seq<u32>>;

    open spec fn view(&self) -> Seq<Seq<u32>> {
        Seq::new(self.cells@.len(), |i: int| self.cells@[i]@)
    }
}

/// The grid has exactly `GRID_SIZE` rows of `GRID_SIZE` cells each.
pub open spec fn wf_grid(g: Seq<Seq<u32>>) -> bool {
    g.len() == 4 && forall|i: int| 0 <= i < 4 ==> (#[trigger] g[i]).len() == 4
}

/// Every value of the grid is low enough to merge without overflow.
pub open spec fn vals_bounded(g: Seq<Seq<u32>>) -> bool {
    forall|i: int| 0 <= i < g.len() ==> row_fits(#[trigger] g[i])
}

/// Every non-zero value of the grid is a power of two.
pub open spec fn pow2_grid(g: Seq<Seq<u32>>) -> bool {
    forall|i: int| 0 <= i < g.len() ==> row_pow2(#[trigger] g[i])
}

/// The grid mirrored along its main diagonal.
pub open spec fn transpose_of(g: Seq<Seq<u32>>) -> Seq<Seq<u32>> {
    Seq::new(g.len(), |i: int| Seq::new(g.len(), |j: int| g[j][i]))
}

/// Every row of the grid slid toward index 0 (`left` true) or toward the
/// last index (`left` false).
pub open spec fn rows_slid(g: Seq<Seq<u32>>, left: bool) -> Seq<Seq<u32>> {
    Seq::new(
        g.len(),
        |i: int|
            if left {
                slide_left(g[i])
            } else {
                slide_right(g[i])
            },
    )
}

/// The grid after one move: horizontal moves slide every row, vertical moves
/// go through the transpose symmetry.
pub open spec fn grid_after(g: Seq<Seq<u32>>, a: Action) -> Seq<Seq<u32>> {
    match a {
        Action::Left => rows_slid(g, true),
        Action::Right => rows_slid(g, false),
        Action::Up => transpose_of(rows_slid(transpose_of(g), true)),
        Action::Down => transpose_of(rows_slid(transpose_of(g), false)),
    }
}

/// No cell of the grid is empty.
pub open spec fn is_full(g: Seq<Seq<u32>>) -> bool {
    forall|i: int, j: int| 0 <= i < 4 && 0 <= j < 4 ==> (#[trigger] g[i][j]) != 0
}

/// Some row holds two adjacent equal non-zero values.
pub open spec fn has_row_merge(g: Seq<Seq<u32>>) -> bool {
    exists|i: int, j: int|
        0 <= i < 4 && 1 <= j < 4 && (#[trigger] g[i][j]) != 0 && g[i][j] == g[i][j - 1]
}

/// Some column holds two adjacent equal non-zero values.
pub open spec fn has_col_merge(g: Seq<Seq<u32>>) -> bool {
    exists|i: int, j: int|
        1 <= i < 4 && 0 <= j < 4 && (#[trigger] g[i][j]) != 0 && g[i][j] == g[i - 1][j]
}

/// The game can no longer progress: the grid is full and no move can merge.
pub open spec fn game_over_grid(g: Seq<Seq<u32>>) -> bool {
    is_full(g) && !has_row_merge(g) && !has_col_merge(g)
}

/// The grid with the cell at row `i`, column `j` set to `v`.
pub open spec fn grid_set(g: Seq<Seq<u32>>, i: int, j: int, v: u32) -> Seq<Seq<u32>> {
    g.update(i, g[i].update(j, v))
}

/// The coordinates of the empty cells whose row-major position is at least
/// `k`, in row-major order.
pub open spec fn empties_from(g: Seq<Seq<u32>>, k: int) -> Seq<(usize, usize)>
    decreases 16 - k,
{
    if k < 0 || k >= 16 {
        Seq::empty()
    } else if g[k / 4][k % 4] == 0 {
        seq![((k / 4) as usize, (k % 4) as usize)] + empties_from(g, k + 1)
    } else {
        empties_from(g, k + 1)
    }
}

/// The coordinates of all empty cells, in row-major order.
pub open spec fn empties(g: Seq<Seq<u32>>) -> Seq<(usize, usize)> {
    empties_from(g, 0)
}

/// Every listed coordinate names an in-range empty cell.
proof fn lemma_empties_from_elems(g: Seq<Seq<u32>>, k: int)
    ensures
        forall|t: int|
            0 <= t < empties_from(g, k).len() ==> (#[trigger] empties_from(g, k)[t]).0 < 4
                && empties_from(g, k)[t].1 < 4 && g[empties_from(g, k)[t].0 as int][empties_from(
                g,
                k,
            )[t].1 as int] == 0,
    decreases 16 - k,
{
    if k < 0 || k >= 16 {
    } else {
        lemma_empties_from_elems(g, k + 1);
        assert(0 <= k / 4 < 4 && 0 <= k % 4 < 4);
        let e = empties_from(g, k);
        let tail = empties_from(g, k + 1);
        assert forall|t: int| 0 <= t < e.len() implies (#[trigger] e[t]).0 < 4 && e[t].1 < 4
            && g[e[t].0 as int][e[t].1 as int] == 0 by {
            if g[k / 4][k % 4] == 0 {
                if t == 0 {
                    assert(e[0] == ((k / 4) as usize, (k % 4) as usize));
                } else {
                    assert(e[t] == tail[t - 1]);
                }
            } else {
                assert(e[t] == tail[t]);
            }
        }
    }
}

/// The list of empty cells is empty exactly when every cell from row-major
/// position `k` on is non-zero.
proof fn lemma_empties_from_full(g: Seq<Seq<u32>>, k: int)
    requires
        0 <= k <= 16,
    ensures
        empties_from(g, k).len() == 0 <==> (forall|i: int, j: int|
            0 <= i < 4 && 0 <= j < 4 && 4 * i + j >= k ==> (#[trigger] g[i][j]) != 0),
    decreases 16 - k,
{
    if k == 16 {
        assert forall|i: int, j: int|
            0 <= i < 4 && 0 <= j < 4 && 4 * i + j >= k implies (#[trigger] g[i][j]) != 0 by {
            assert(4 * i + j <= 15);
        }
    } else {
        lemma_empties_from_full(g, k + 1);
        let i0 = k / 4;
        let j0 = k % 4;
        assert(0 <= i0 < 4 && 0 <= j0 < 4);
        assert(4 * i0 + j0 == k) by (nonlinear_arith)
            requires
                i0 == k / 4 && j0 == k % 4 && 0 <= k < 16,
        ;
        if g[i0][j0] == 0 {
            assert(empties_from(g, k).len() > 0);
            assert(!(empties_from(g, k).len() == 0) && !(forall|i: int, j: int|
                0 <= i < 4 && 0 <= j < 4 && 4 * i + j >= k ==> (#[trigger] g[i][j]) != 0));
        } else {
            assert(empties_from(g, k).len() == empties_from(g, k + 1).len());
            if empties_from(g, k).len() == 0 {
                assert forall|i: int, j: int|
                    0 <= i < 4 && 0 <= j < 4 && 4 * i + j >= k implies (#[trigger] g[i][j])
                    != 0 by {
                    if 4 * i + j == k {
                        assert(i == i0 && j == j0) by (nonlinear_arith)
                            requires
                                i0 == k / 4 && j0 == k % 4 && 4 * i + j == k && 0 <= i && 0 <= j
                                    < 4,
                        ;
                    }
                }
            }
        }
    }
}

/// The grid is full exactly when it has no empty cell to list.
pub proof fn lemma_empties_full(g: Seq<Seq<u32>>)
    ensures
        empties(g).len() == 0 <==> is_full(g),
{
    lemma_empties_from_full(g, 0);
}

/// Filling the empty cell at row `i`, column `j` drops it from the list of
/// empty cells and keeps the rest.
proof fn lemma_empties_from_set(g: Seq<Seq<u32>>, i: int, j: int, k: int)
    requires
        wf_grid(g),
        0 <= i < 4,
        0 <= j < 4,
        g[i][j] == 0,
        0 <= k <= 16,
    ensures
        empties_from(grid_set(g, i, j, 2u32), k).len() == empties_from(g, k).len() - (if 4 * i + j
            >= k {
            1int
        } else {
            0int
        }),
    decreases 16 - k,
{
    let g2 = grid_set(g, i, j, 2u32);
    if k == 16 {
        assert(4 * i + j < 16);
    } else {
        lemma_empties_from_set(g, i, j, k + 1);
        let i0 = k / 4;
        let j0 = k % 4;
        assert(0 <= i0 < 4 && 0 <= j0 < 4);
        assert(4 * i0 + j0 == k) by (nonlinear_arith)
            requires
                i0 == k / 4 && j0 == k % 4 && 0 <= k < 16,
        ;
        if i0 == i && j0 == j {
            assert(g2[i0][j0] == 2);
            assert(empties_from(g2, k).len() == empties_from(g2, k + 1).len());
            assert(empties_from(g, k).len() == 1 + empties_from(g, k + 1).len());
        } else {
            assert(4 * i + j != k) by (nonlinear_arith)
                requires
                    0 <= i && 0 <= j < 4 && 4 * i0 + j0 == k && (i0 != i || j0 != j) && 0 <= i0 && 0
                        <= j0 < 4,
            ;
            assert(g2[i0][j0] == g[i0][j0]);
        }
    }
}

/// Every cell of an all-zero grid is listed as empty.
proof fn lemma_empties_from_zero(g: Seq<Seq<u32>>, k: int)
    requires
        0 <= k <= 16,
        forall|i: int, j: int| 0 <= i < 4 && 0 <= j < 4 ==> (#[trigger] g[i][j]) == 0,
    ensures
        empties_from(g, k).len() == 16 - k,
    decreases 16 - k,
{
    if k < 16 {
        lemma_empties_from_zero(g, k + 1);
        assert(0 <= k / 4 < 4 && 0 <= k % 4 < 4);
        assert(g[k / 4][k % 4] == 0);
    }
}

/// Relies on `rand::thread_rng` and `rand::Rng::gen_range` over `0..n`: the
/// sampled value lies in the half-open range, and a non-empty range keeps
/// the call from panicking.
#[verifier::external_body]
fn random_below(n: usize) -> (r: usize)
    requires
        n > 0,
    ensures
        r < n,
{
    rand::thread_rng().gen_range(0..n)
}

/// Mirroring the grid along its main diagonal twice gives the original grid
/// back: transposition is an involution.
pub proof fn lemma_transpose_involution(g: Seq<Seq<u32>>)
    requires
        wf_grid(g),
    ensures
        transpose_of(transpose_of(g)) == g,
{
    assert(transpose_of(transpose_of(g)) =~~= g);
}

/// Transposing keeps the grid square and keeps its values: bounds and the
/// power-of-two invariant carry over.
proof fn lemma_transpose_preserves(g: Seq<Seq<u32>>)
    requires
        wf_grid(g),
    ensures
        wf_grid(transpose_of(g)),
        vals_bounded(g) ==> vals_bounded(transpose_of(g)),
        pow2_grid(g) ==> pow2_grid(transpose_of(g)),
{
    let tg = transpose_of(g);
    if vals_bounded(g) {
        assert forall|i: int| 0 <= i < tg.len() implies row_fits(#[trigger] tg[i]) by {
            assert(forall|j: int| 0 <= j < 4 ==> tg[i][j] == g[j][i]);
        }
    }
    if pow2_grid(g) {
        assert forall|i: int| 0 <= i < tg.len() implies row_pow2(#[trigger] tg[i]) by {
            assert(forall|j: int| 0 <= j < 4 ==> tg[i][j] == g[j][i]);
        }
    }
}

/// Sliding every row keeps the grid square and keeps every non-zero value a
/// power of two.
proof fn lemma_rows_slid_pow2(g: Seq<Seq<u32>>, left: bool)
    requires
        wf_grid(g),
        vals_bounded(g),
        pow2_grid(g),
    ensures
        wf_grid(rows_slid(g, left)),
        pow2_grid(rows_slid(g, left)),
{
    let r = rows_slid(g, left);
    assert forall|i: int| 0 <= i < 4 implies (#[trigger] r[i]).len() == 4 by {
        if left {
            lemma_slide_left_len(g[i]);
        } else {
            lemma_slide_right_len(g[i]);
        }
    }
    assert forall|i: int| 0 <= i < r.len() implies row_pow2(#[trigger] r[i]) by {
        if left {
            lemma_slide_left_pow2(g[i]);
        } else {
            lemma_slide_right_pow2(g[i]);
        }
    }
}

/// Every move keeps the power-of-two invariant: the only new values a move
/// produces are sums of two equal powers of two. The bound on the values is
/// the machine limit under which such a sum still fits a `u32`.
pub proof fn lemma_grid_after_pow2(g: Seq<Seq<u32>>, a: Action)
    requires
        wf_grid(g),
        vals_bounded(g),
        pow2_grid(g),
    ensures
        pow2_grid(grid_after(g, a)),
{
    if a == Action::Up || a == Action::Down {
        lemma_transpose_preserves(g);
        let tg = transpose_of(g);
        lemma_rows_slid_pow2(tg, a == Action::Up);
        lemma_transpose_preserves(rows_slid(tg, a == Action::Up));
    } else {
        lemma_rows_slid_pow2(g, a == Action::Left);
    }
}

/// A vertical move is the transpose of the matching horizontal move on the
/// transposed grid: resolving Up (or Down) equals transposing, resolving the
/// direction it pairs with, and transposing back.
pub proof fn lemma_vertical_symmetry(g: Seq<Seq<u32>>, a: Action)
    requires
        a == Action::Up || a == Action::Down,
    ensures
        grid_after(g, a) == transpose_of(grid_after(transpose_of(g), a.transpose_spec())),
{
}

/// Column `j` of the grid, top to bottom.
pub open spec fn column(g: Seq<Seq<u32>>, j: int) -> Seq<u32> {
    Seq::new(g.len(), |i: int| g[i][j])
}

/// Resolving Up slides each column as Left slides a row: column `j` after
/// the move is that column slid toward index 0.
pub proof fn lemma_up_resolves_columns(g: Seq<Seq<u32>>, j: int)
    requires
        wf_grid(g),
        0 <= j < 4,
    ensures
        column(grid_after(g, Action::Up), j) == slide_left(column(g, j)),
{
    let tg = transpose_of(g);
    assert(tg[j] =~= column(g, j));
    lemma_slide_left_len(tg[j]);
    assert(column(grid_after(g, Action::Up), j) =~= slide_left(tg[j]));
}

/// Resolving Down slides each column as Right slides a row: column `j` after
/// the move is that column slid toward the last index.
pub proof fn lemma_down_resolves_columns(g: Seq<Seq<u32>>, j: int)
    requires
        wf_grid(g),
        0 <= j < 4,
    ensures
        column(grid_after(g, Action::Down), j) == slide_right(column(g, j)),
{
    let tg = transpose_of(g);
    assert(tg[j] =~= column(g, j));
    lemma_slide_right_len(tg[j]);
    assert(column(grid_after(g, Action::Down), j) =~= slide_right(tg[j]));
}

impl Grid {
    /// The grid is a well-formed square matrix.
    pub open spec fn wf(self) -> bool {
        wf_grid(self@)
    }

    /// Mirror the grid along its main diagonal in place.
    pub fn transpose(&mut self)
        requires
            old(self).wf(),
        ensures
            final(self).wf(),
            final(self)@ == transpose_of(old(self)@),
    {
        let ghost g0 = self@;
        let mut out: Vec<Vec<u32>> = Vec::new();
        let mut i: usize = 0;
        while i < GRID_SIZE
            invariant
                self@ == g0,
                wf_grid(g0),
                i <= 4,
                out@.len() == i,
                forall|a: int| 0 <= a < i ==> (#[trigger] out@[a])@.len() == 4,
                forall|a: int, b: int|
                    0 <= a < i && 0 <= b < 4 ==> (#[trigger] out@[a]@[b]) == g0[b][a],
            decreases 4 - i,
        {
            let mut row: Vec<u32> = Vec::new();
            let mut j: usize = 0;
            while j < GRID_SIZE
                invariant
                    self@ == g0,
                    wf_grid(g0),
                    i < 4,
                    j <= 4,
                    row@.len() == j,
                    forall|b: int| 0 <= b < j ==> (#[trigger] row@[b]) == g0[b][i as int],
                decreases 4 - j,
            {
                proof {
                    assert(self.cells@.len() == self@.len());
                    assert(self.cells@[j as int]@ == self@[j as int]);
                    assert(self@[j as int].len() == 4);
                }
                let x = self.cells[j][i];
                row.push(x);
                j = j + 1;
            }
            out.push(row);
            i = i + 1;
        }
        self.cells = out;
        proof {
            assert(self@ =~~= transpose_of(g0));
        }
    }

    /// Resolve one move: slide every row or column toward the edge the
    /// action names, merging adjacent equal values at most once per tile.
    /// A grid of powers of two stays a grid of powers of two.
    pub fn update(&mut self, action: Action)
        requires
            old(self).wf(),
            vals_bounded(old(self)@),
        ensures
            final(self).wf(),
            final(self)@ == grid_after(old(self)@, action),
            pow2_grid(old(self)@) ==> pow2_grid(final(self)@),
        decreases (if action.is_vertical_spec() {
            1int
        } else {
            0int
        }),
    {
        let ghost g0 = self@;
        if action.is_vertical() {
            proof {
                lemma_transpose_preserves(g0);
            }
            self.transpose();
            self.update(action.transpose());
            self.transpose();
            proof {
                assert(self@ == transpose_of(grid_after(transpose_of(g0), action.transpose_spec())));
                assert(self@ == grid_after(g0, action));
                if pow2_grid(g0) {
                    lemma_grid_after_pow2(g0, action);
                }
            }
            return ;
        }
        let left = match action {
            Action::Left => true,
            _ => false,
        };
        let mut i: usize = 0;
        while i < GRID_SIZE
            invariant
                wf_grid(g0),
                vals_bounded(g0),
                action == Action::Left || action == Action::Right,
                left == (action == Action::Left),
                i <= 4,
                self@.len() == 4,
                forall|a: int|
                    0 <= a < i ==> (#[trigger] self@[a]) == (if left {
                        slide_left(g0[a])
                    } else {
                        slide_right(g0[a])
                    }),
                forall|a: int| 0 <= a < i ==> (#[trigger] self@[a]).len() == 4,
                forall|a: int| i <= a < 4 ==> (#[trigger] self@[a]) == g0[a],
            decreases 4 - i,
        {
            proof {
                assert(self@[i as int] == g0[i as int]);
                assert(self.cells@[i as int]@ == self@[i as int]);
                assert(row_fits(g0[i as int]));
            }
            let ghost pre = self@;
            let new_row = if left {
                merge_row_left(&self.cells[i])
            } else {
                merge_row_right(&self.cells[i])
            };
            self.cells[i] = new_row;
            proof {
                assert(self@.len() == 4);
                assert forall|a: int| 0 <= a < i + 1 implies (#[trigger] self@[a]) == (if left {
                    slide_left(g0[a])
                } else {
                    slide_right(g0[a])
                }) && (#[trigger] self@[a]).len() == 4 by {
                    if a == i as int {
                        assert(self@[a] == new_row@);
                        assert(new_row@.len() == g0[a].len());
                    } else {
                        assert(self@[a] == pre[a]);
                    }
                }
                assert forall|a: int| i + 1 <= a < 4 implies (#[trigger] self@[a]) == g0[a] by {
                    assert(self@[a] == pre[a]);
                }
            }
            i = i + 1;
        }
        proof {
            assert(self@ =~= rows_slid(g0, left));
            if pow2_grid(g0) {
                lemma_grid_after_pow2(g0, action);
            }
        }
    }

    /// True when some cell is empty.
    fn has_empty_cell(&self) -> (r: bool)
        requires
            self.wf(),
        ensures
            r == !is_full(self@),
    {
        let mut i: usize = 0;
        while i < GRID_SIZE
            invariant
                self.wf(),
                i <= 4,
                forall|a: int, b: int| 0 <= a < i && 0 <= b < 4 ==> (#[trigger] self@[a][b]) != 0,
            decreases 4 - i,
        {
            let mut j: usize = 0;
            while j < GRID_SIZE
                invariant
                    self.wf(),
                    i < 4,
                    j <= 4,
                    forall|b: int| 0 <= b < j ==> (#[trigger] self@[i as int][b]) != 0,
                decreases 4 - j,
            {
                proof {
                    assert(self.cells@[i as int]@ == self@[i as int]);
                }
                if self.cells[i][j] == 0 {
                    return true;
                }
                j = j + 1;
            }
            i = i + 1;
        }
        false
    }

    /// True when some row holds two adjacent equal non-zero values.
    fn has_row_pair(&self) -> (r: bool)
        requires
            self.wf(),
        ensures
            r == has_row_merge(self@),
    {
        let mut i: usize = 0;
        while i < GRID_SIZE
            invariant
                self.wf(),
                i <= 4,
                forall|a: int, b: int|
                    0 <= a < i && 1 <= b < 4 ==> (#[trigger] self@[a][b]) == 0 || self@[a][b]
                        != self@[a][b - 1],
            decreases 4 - i,
        {
            let mut j: usize = 1;
            while j < GRID_SIZE
                invariant
                    self.wf(),
                    i < 4,
                    1 <= j <= 4,
                    forall|b: int|
                        1 <= b < j ==> (#[trigger] self@[i as int][b]) == 0 || self@[i as int][b]
                            != self@[i as int][b - 1],
                decreases 4 - j,
            {
                proof {
                    assert(self.cells@[i as int]@ == self@[i as int]);
                }
                if self.cells[i][j] != 0 && self.cells[i][j] == self.cells[i][j - 1] {
                    return true;
                }
                j = j + 1;
            }
            i = i + 1;
        }
        false
    }

    /// True when some column holds two adjacent equal non-zero values.
    fn has_col_pair(&self) -> (r: bool)
        requires
            self.wf(),
        ensures
            r == has_col_merge(self@),
    {
        let mut j: usize = 0;
        while j < GRID_SIZE
            invariant
                self.wf(),
                j <= 4,
                forall|a: int, b: int|
                    1 <= a < 4 && 0 <= b < j ==> (#[trigger] self@[a][b]) == 0 || self@[a][b]
                        != self@[a - 1][b],
            decreases 4 - j,
        {
            let mut i: usize = 1;
            while i < GRID_SIZE
                invariant
                    self.wf(),
                    j < 4,
                    1 <= i <= 4,
                    forall|a: int|
                        1 <= a < i ==> (#[trigger] self@[a][j as int]) == 0 || self@[a][j as int]
                            != self@[a - 1][j as int],
                decreases 4 - i,
            {
                proof {
                    assert(self.cells@[i as int]@ == self@[i as int]);
                    assert(self.cells@[i as int - 1]@ == self@[i as int - 1]);
                }
                if self.cells[i][j] != 0 && self.cells[i][j] == self.cells[i - 1][j] {
                    return true;
                }
                i = i + 1;
            }
            j = j + 1;
        }
        false
    }

    /// True exactly when the game can no longer progress: every cell is
    /// occupied and no two adjacent cells, in any row or column, hold equal
    /// values.
    pub fn game_over(&self) -> (r: bool)
        requires
            self.wf(),
        ensures
            r == game_over_grid(self@),
    {
        if self.has_empty_cell() {
            return false;
        }
        if self.has_row_pair() {
            return false;
        }
        if self.has_col_pair() {
            return false;
        }
        true
    }

    /// The coordinates of all empty cells, in row-major order.
    fn empty_cells(&self) -> (r: Vec<(usize, usize)>)
        requires
            self.wf(),
        ensures
            r@ == empties(self@),
    {
        let ghost g = self@;
        let mut r: Vec<(usize, usize)> = Vec::new();
        let mut k: usize = 0;
        proof {
            assert(Seq::<(usize, usize)>::empty() + empties_from(g, 0) =~= empties_from(g, 0));
        }
        while k < 16
            invariant
                self.wf(),
                self@ == g,
                k <= 16,
                r@ + empties_from(g, k as int) == empties(g),
            decreases 16 - k,
        {
            let i = k / 4;
            let j = k % 4;
            proof {
                assert(i < 4 && j < 4);
                assert(self.cells@[i as int]@ == self@[i as int]);
            }
            if self.cells[i][j] == 0 {
                proof {
                    assert(empties_from(g, k as int) == seq![(i, j)] + empties_from(
                        g,
                        k as int + 1,
                    ));
                    assert(r@.push((i, j)) + empties_from(g, k as int + 1) =~= r@ + empties_from(
                        g,
                        k as int,
                    ));
                }
                r.push((i, j));
            } else {
                proof {
                    assert(empties_from(g, k as int) == empties_from(g, k as int + 1));
                }
            }
            k = k + 1;
        }
        proof {
            assert(empties_from(g, 16) =~= Seq::<(usize, usize)>::empty());
            assert(r@ + Seq::<(usize, usize)>::empty() =~= r@);
        }
        r
    }

    /// An empty cell chosen uniformly at random, if the grid has one.
    fn random_empty_cell(&self) -> (r: Option<(usize, usize)>)
        requires
            self.wf(),
        ensures
            r is Some <==> !is_full(self@),
            r matches Some(c) ==> c.0 < 4 && c.1 < 4 && self@[c.0 as int][c.1 as int] == 0,
    {
        let list = self.empty_cells();
        proof {
            lemma_empties_full(self@);
            lemma_empties_from_elems(self@, 0);
        }
        if list.len() == 0 {
            None
        } else {
            let idx = random_below(list.len());
            Some(list[idx])
        }
    }

    /// Spawn one tile of value 2 in an empty cell chosen at random. On a
    /// full grid this does nothing; it never overwrites an occupied cell.
    pub fn insert_random_cell(&mut self)
        requires
            old(self).wf(),
        ensures
            final(self).wf(),
            is_full(old(self)@) ==> final(self)@ == old(self)@,
            !is_full(old(self)@) ==> exists|i: int, j: int|
                0 <= i < 4 && 0 <= j < 4 && old(self)@[i][j] == 0 && final(self)@ == grid_set(
                    old(self)@,
                    i,
                    j,
                    2u32,
                ),
            !is_full(old(self)@) ==> empties(final(self)@).len() == empties(old(self)@).len() - 1,
            forall|i: int, j: int|
                0 <= i < 4 && 0 <= j < 4 && old(self)@[i][j] != 0 ==> final(self)@[i][j] == old(
                    self,
                )@[i][j],
            vals_bounded(old(self)@) ==> vals_bounded(final(self)@),
            pow2_grid(old(self)@) ==> pow2_grid(final(self)@),
    {
        let ghost g0 = self@;
        let cell = self.random_empty_cell();
        match cell {
            Some((i, j)) => {
                proof {
                    assert(self.cells@[i as int]@ == self@[i as int]);
                }
                self.cells[i][j] = 2;
                proof {
                    assert(self@ =~~= grid_set(g0, i as int, j as int, 2u32));
                    lemma_empties_from_set(g0, i as int, j as int, 0);
                    lemma_empties_full(g0);
                    assert forall|a: int, b: int|
                        0 <= a < 4 && 0 <= b < 4 && g0[a][b] != 0 implies self@[a][b] == g0[a][b] by {
                        assert(self@[a][b] == grid_set(g0, i as int, j as int, 2u32)[a][b]);
                    }
                    if vals_bounded(g0) {
                        assert forall|a: int| 0 <= a < self@.len() implies row_fits(
                            #[trigger] self@[a],
                        ) by {
                            assert(forall|b: int|
                                0 <= b < 4 ==> self@[a][b] == g0[a][b] || self@[a][b] == 2u32);
                        }
                    }
                    if pow2_grid(g0) {
                        assert(is_pow2(1));
                        assert(is_pow2(2));
                        assert forall|a: int| 0 <= a < self@.len() implies row_pow2(
                            #[trigger] self@[a],
                        ) by {
                            assert(forall|b: int|
                                0 <= b < 4 ==> self@[a][b] == g0[a][b] || self@[a][b] == 2u32);
                        }
                    }
                }
            },
            None => {},
        }
    }

    /// A fresh grid: all cells empty, then three random tiles of value 2
    /// spawned into distinct cells, so exactly three cells are occupied.
    pub fn new() -> (g: Grid)
        ensures
            g.wf(),
            vals_bounded(g@),
            pow2_grid(g@),
            forall|i: int, j: int|
                0 <= i < 4 && 0 <= j < 4 ==> (#[trigger] g@[i][j]) == 0 || g@[i][j] == 2,
            empties(g@).len() == 13,
    {
        let mut cells: Vec<Vec<u32>> = Vec::new();
        let mut i: usize = 0;
        while i < GRID_SIZE
            invariant
                i <= 4,
                cells@.len() == i,
                forall|a: int| 0 <= a < i ==> (#[trigger] cells@[a])@.len() == 4,
                forall|a: int, b: int| 0 <= a < i && 0 <= b < 4 ==> (#[trigger] cells@[a]@[b]) == 0,
            decreases 4 - i,
        {
            let mut row: Vec<u32> = Vec::new();
            let mut j: usize = 0;
            while j < GRID_SIZE
                invariant
                    j <= 4,
                    row@.len() == j,
                    forall|b: int| 0 <= b < j ==> (#[trigger] row@[b]) == 0,
                decreases 4 - j,
            {
                row.push(0);
                j = j + 1;
            }
            cells.push(row);
            i = i + 1;
        }
        let mut g = Grid { cells };
        proof {
            lemma_empties_from_zero(g@, 0);
        }
        let mut t: usize = 0;
        while t < 3
            invariant
                t <= 3,
                g.wf(),
                empties(g@).len() == 16 - t,
                forall|a: int, b: int|
                    0 <= a < 4 && 0 <= b < 4 ==> (#[trigger] g@[a][b]) == 0 || g@[a][b] == 2,
            decreases 3 - t,
        {
            let ghost before = g@;
            g.insert_random_cell();
            proof {
                lemma_empties_full(before);
                assert(!is_full(before));
                let (i0, j0) = choose|i0: int, j0: int|
                    0 <= i0 < 4 && 0 <= j0 < 4 && before[i0][j0] == 0 && g@ == grid_set(
                        before,
                        i0,
                        j0,
                        2u32,
                    );
                assert forall|a: int, b: int| 0 <= a < 4 && 0 <= b < 4 implies (
                #[trigger] g@[a][b]) == 0 || g@[a][b] == 2 by {
                    assert(g@[a][b] == grid_set(before, i0, j0, 2u32)[a][b]);
                }
            }
            t = t + 1;
        }
        proof {
            assert forall|a: int| 0 <= a < g@.len() implies row_fits(#[trigger] g@[a]) by {
                assert(forall|b: int| 0 <= b < 4 ==> g@[a][b] == 0 || g@[a][b] == 2);
            }
            assert(is_pow2(1));
            assert(is_pow2(2));
            assert forall|a: int| 0 <= a < g@.len() implies row_pow2(#[trigger] g@[a]) by {
                assert(forall|b: int| 0 <= b < 4 ==> g@[a][b] == 0 || g@[a][b] == 2);
            }
        }
        g
    }
}

} // verus!
