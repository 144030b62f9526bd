//! The placement grid.
//!
//! An `Assembly` is a square matrix of cell values with a permanent
//! border frame of Blocked(3) cells at least two cells wide.  A tile may
//! anchor at (row, col) only if its color matches the coordinate parity
//! and none of the nine covered cells already holds one of the tile's
//! layer bits; placing ORs the tile's bits in, unplacing clears exactly
//! those bits again.  The blocked border makes every overlap with the
//! frame — and hence every out-of-range placement reachable from an
//! interior target — fail the ordinary overlap check.

use vstd::prelude::*;
use crate::cell::{cell_ok, count_bits, rows_view, lemma_or_disjoint,
    lemma_disjoint_from_blocked, hamming_weight};
use crate::tile::{Shape, cells_wf};

verus! {

/// The occupancy grid: cell values plus the width of its blocked border.
pub struct Assembly {
    pub data: Vec<Vec<u8>>,
    pub border: usize,
}

/// Whether (i, j) lies on the border frame of a grid of side `n` with
/// border width `b`.
pub open spec fn on_border(n: int, b: int, i: int, j: int) -> bool {
    i < b || i >= n - b || j < b || j >= n - b
}

/// A well-formed grid state: square, all cell values valid, the whole
/// border frame Blocked(3), and a border at least two cells wide so that
/// every anchor derived from an interior target stays in range.
pub open spec fn grid_wf(g: Seq<Seq<u8>>, b: int) -> bool {
    let n = g.len() as int;
    &&& 2 <= b
    &&& 2 * b <= n
    &&& n <= 4096
    &&& forall|i: int| 0 <= i < n ==> (#[trigger] g[i]).len() == n
    &&& forall|i: int, j: int| 0 <= i < n && 0 <= j < n ==> cell_ok(#[trigger] g[i][j])
    &&& forall|i: int, j: int| 0 <= i < n && 0 <= j < n && on_border(n, b, i, j) ==> #[trigger] g[i][j] == 3
}

/// No covered cell already holds a layer bit the tile would set.
pub open spec fn overlap_free(g: Seq<Seq<u8>>, row: int, col: int, t: Seq<Seq<u8>>) -> bool {
    forall|a: int, b: int| 0 <= a < 3 && 0 <= b < 3 ==> #[trigger] (g[row + a][col + b] & t[a][b]) == 0
}

/// A tile of color `color` may anchor at (row, col): the color matches
/// the coordinate parity and no covered cell collides.
pub open spec fn can_place_at(g: Seq<Seq<u8>>, row: int, col: int, color: u8, t: Seq<Seq<u8>>) -> bool {
    color as int == (row + col) % 2 && overlap_free(g, row, col, t)
}

/// Every covered cell holds all the layer bits of the tile's cell there.
pub open spec fn covered_at(g: Seq<Seq<u8>>, row: int, col: int, t: Seq<Seq<u8>>) -> bool {
    forall|a: int, b: int| 0 <= a < 3 && 0 <= b < 3 ==> #[trigger] (g[row + a][col + b] & t[a][b]) == t[a][b]
}

/// The grid after ORing the tile's bits into the nine covered cells.
pub open spec fn place_at(g: Seq<Seq<u8>>, row: int, col: int, t: Seq<Seq<u8>>) -> Seq<Seq<u8>> {
    Seq::new(g.len(), |i: int| Seq::new(g[i].len(), |j: int|
        if row <= i < row + 3 && col <= j < col + 3 {
            g[i][j] | t[i - row][j - col]
        } else {
            g[i][j]
        }))
}

/// The grid after clearing exactly the tile's bits from the nine covered
/// cells.
pub open spec fn unplace_at(g: Seq<Seq<u8>>, row: int, col: int, t: Seq<Seq<u8>>) -> Seq<Seq<u8>> {
    Seq::new(g.len(), |i: int| Seq::new(g[i].len(), |j: int|
        if row <= i < row + 3 && col <= j < col + 3 {
            g[i][j] & (t[i - row][j - col] ^ 3)
        } else {
            g[i][j]
        }))
}

impl Assembly {
    /// The grid contents as a mathematical matrix of cell values.
    pub open spec fn grid(self) -> Seq<Seq<u8>> {
        rows_view(self.data)
    }

    /// The side length of the square grid.
    pub open spec fn side(self) -> int {
        self.data@.len() as int
    }

    /// A well-formed assembly.
    pub open spec fn wf(self) -> bool {
        grid_wf(self.grid(), self.border as int)
    }

    /// Bridges the mathematical view and the underlying vectors: row
    /// contents, row lengths, and cell validity.
    pub proof fn lemma_rows(self)
        requires
            self.wf(),
        ensures
            self.grid().len() == self.data@.len(),
            forall|i: int| 0 <= i < self.data@.len() ==> (#[trigger] self.data@[i])@ == self.grid()[i],
            forall|i: int| 0 <= i < self.data@.len() ==> (#[trigger] self.data@[i])@.len() == self.data@.len(),
            forall|i: int, j: int| 0 <= i < self.data@.len() && 0 <= j < self.data@.len() ==>
                cell_ok(#[trigger] self.data@[i]@[j]),
    {
        assert forall|i: int| 0 <= i < self.data@.len() implies (#[trigger] self.data@[i])@.len() == self.data@.len() by {
            assert(self.grid()[i] == self.data@[i]@);
        }
        assert forall|i: int, j: int| 0 <= i < self.data@.len() && 0 <= j < self.data@.len() implies
            cell_ok(#[trigger] self.data@[i]@[j]) by {
            assert(self.grid()[i] == self.data@[i]@);
            assert(cell_ok(self.grid()[i][j]));
        }
    }

    /// Wraps an already-valid initial board: a square matrix with its
    /// border frame pre-set to Blocked(3).
    pub fn new(data: Vec<Vec<u8>>, border: usize) -> (a: Assembly)
        requires
            grid_wf(rows_view(data), border as int),
        ensures
            a.wf(),
            a.border == border,
            a.grid() == rows_view(data),
    {
        Assembly { data, border }
    }

    /// Decides whether the tile may anchor at (row, col): true exactly
    /// when the tile's color equals (row + col) mod 2 and none of the
    /// nine covered cells holds a layer bit the tile would set.
    #[verifier::loop_isolation(false)]
    pub fn can_place(&self, row: usize, col: usize, shape: &Shape) -> (ok: bool)
        requires
            self.wf(),
            shape.wf(),
            row + 3 <= self.side(),
            col + 3 <= self.side(),
        ensures
            ok == can_place_at(self.grid(), row as int, col as int, shape.color, shape.cells()),
    {
        proof {
            self.lemma_rows();
        }
        if ((row + col) % 2) as u8 != shape.color {
            return false;
        }
        let mut i: usize = 0;
        while i < 3
            invariant
                i <= 3,
                forall|a: int, b: int| 0 <= a < i && 0 <= b < 3 ==>
                    #[trigger] (self.grid()[row + a][col + b] & shape.cells()[a][b]) == 0,
            decreases 3 - i,
        {
            let mut j: usize = 0;
            while j < 3
                invariant
                    i < 3,
                    j <= 3,
                    forall|a: int, b: int| 0 <= a < i && 0 <= b < 3 ==>
                        #[trigger] (self.grid()[row + a][col + b] & shape.cells()[a][b]) == 0,
                    forall|b: int| 0 <= b < j ==>
                        #[trigger] (self.grid()[row + i][col + b] & shape.cells()[i as int][b]) == 0,
                decreases 3 - j,
            {
                if (self.data[row + i][col + j] & shape.data[i][j]) != 0 {
                    proof {
                        assert(self.grid()[row + i][col + j] == self.data@[row + i]@[col + j]);
                        assert(shape.cells()[i as int][j as int] == shape.data@[i as int]@[j as int]);
                    }
                    return false;
                }
                proof {
                    assert(self.grid()[row + i][col + j] == self.data@[row + i]@[col + j]);
                    assert(shape.cells()[i as int][j as int] == shape.data@[i as int]@[j as int]);
                }
                j += 1;
            }
            i += 1;
        }
        true
    }

    /// ORs the tile's bits into the nine covered cells.  Placement keeps
    /// the grid well formed: valid placements never touch the blocked
    /// border with a nonzero tile cell.
    #[verifier::loop_isolation(false)]
    pub fn place(&mut self, row: usize, col: usize, shape: &Shape)
        requires
            old(self).wf(),
            shape.wf(),
            row + 3 <= old(self).side(),
            col + 3 <= old(self).side(),
            can_place_at(old(self).grid(), row as int, col as int, shape.color, shape.cells()),
        ensures
            final(self).border == old(self).border,
            final(self).grid() == place_at(old(self).grid(), row as int, col as int, shape.cells()),
            final(self).wf(),
            forall|i: int, j: int| 0 <= i < old(self).side() && 0 <= j < old(self).side() ==>
                0 <= #[trigger] final(self).grid()[i][j] < 4,
            forall|i: int, j: int| 0 <= i < old(self).side() && 0 <= j < old(self).side()
                && on_border(old(self).side(), old(self).border as int, i, j) ==>
                #[trigger] final(self).grid()[i][j] == 3,
    {
        proof {
            old(self).lemma_rows();
        }
        let ghost g0 = old(self).grid();
        let ghost n = old(self).side();
        let mut i: usize = 0;
        while i < 3
            invariant
                i <= 3,
                self.border == old(self).border,
                self.data@.len() == n,
                forall|p: int| 0 <= p < n ==> (#[trigger] self.data@[p])@.len() == n,
                forall|p: int, q: int| 0 <= p < n && 0 <= q < n ==>
                    #[trigger] self.data@[p]@[q] == (
                        if row <= p < row + 3 && col <= q < col + 3 && (p - row < i) {
                            g0[p][q] | shape.cells()[p - row][q - col]
                        } else {
                            g0[p][q]
                        }),
            decreases 3 - i,
        {
            let mut j: usize = 0;
            while j < 3
                invariant
                    i < 3,
                    j <= 3,
                    self.border == old(self).border,
                    self.data@.len() == n,
                    forall|p: int| 0 <= p < n ==> (#[trigger] self.data@[p])@.len() == n,
                    forall|p: int, q: int| 0 <= p < n && 0 <= q < n ==>
                        #[trigger] self.data@[p]@[q] == (
                            if row <= p < row + 3 && col <= q < col + 3
                                && (p - row < i || (p - row == i && q - col < j)) {
                                g0[p][q] | shape.cells()[p - row][q - col]
                            } else {
                                g0[p][q]
                            }),
                decreases 3 - j,
            {
                let r: usize = row + i;
                let c: usize = col + j;
                let cur: u8 = self.data[r][c];
                let sv: u8 = shape.data[i][j];
                proof {
                    assert(shape.cells()[i as int][j as int] == shape.data@[i as int]@[j as int]);
                }
                self.data[r][c] = cur | sv;
                j += 1;
            }
            i += 1;
        }
        proof {
            assert forall|p: int, q: int| 0 <= p < n && 0 <= q < n implies
                self.grid()[p][q] == place_at(g0, row as int, col as int, shape.cells())[p][q] by {
                assert(self.grid()[p] == self.data@[p]@);
                assert(g0[p].len() == n);
            }
            assert forall|p: int| 0 <= p < n implies
                (#[trigger] self.grid()[p]).len() == place_at(g0, row as int, col as int, shape.cells())[p].len() by {
                assert(self.grid()[p] == self.data@[p]@);
                assert(g0[p].len() == n);
            }
            assert(self.grid() =~~= place_at(g0, row as int, col as int, shape.cells()));
            self.lemma_place_wf(g0, row as int, col as int, shape.cells());
            lemma_grid_invariant(self.grid(), self.border as int);
        }
    }

    /// After a valid placement the grid is still well formed: ORing a
    /// disjoint mask keeps cells valid, and disjointness from a blocked
    /// cell forces the tile cell to be Empty.
    proof fn lemma_place_wf(self, g0: Seq<Seq<u8>>, row: int, col: int, t: Seq<Seq<u8>>)
        requires
            grid_wf(g0, self.border as int),
            cells_wf(t),
            0 <= row,
            0 <= col,
            row + 3 <= g0.len(),
            col + 3 <= g0.len(),
            overlap_free(g0, row, col, t),
            self.grid() == place_at(g0, row, col, t),
        ensures
            self.wf(),
    {
        let n = g0.len() as int;
        let b = self.border as int;
        let g1 = self.grid();
        assert(g1.len() == n);
        assert forall|i: int| 0 <= i < n implies (#[trigger] g1[i]).len() == n by {
            assert(g0[i].len() == n);
        }
        assert forall|i: int, j: int| 0 <= i < n && 0 <= j < n implies cell_ok(#[trigger] g1[i][j]) by {
            assert(g0[i].len() == n);
            if row <= i < row + 3 && col <= j < col + 3 {
                let a = i - row;
                let c = j - col;
                assert(g0[row + a][col + c] & t[a][c] == 0);
                lemma_or_disjoint(g0[i][j], t[a][c]);
            }
        }
        assert forall|i: int, j: int| 0 <= i < n && 0 <= j < n && on_border(n, b, i, j) implies
            #[trigger] g1[i][j] == 3 by {
            assert(g0[i].len() == n);
            if row <= i < row + 3 && col <= j < col + 3 {
                let a = i - row;
                let c = j - col;
                assert(g0[i][j] == 3);
                assert(g0[row + a][col + c] & t[a][c] == 0);
                lemma_disjoint_from_blocked(t[a][c]);
                assert(g1[i][j] == g0[i][j] | t[a][c]);
            }
        }
    }

    /// Clears exactly the tile's bits from the nine covered cells; every
    /// one of those bits must currently be present.  This is the exact
    /// algebraic inverse of `place`.
    #[verifier::loop_isolation(false)]
    pub fn unplace(&mut self, row: usize, col: usize, shape: &Shape)
        requires
            old(self).wf(),
            shape.wf(),
            row + 3 <= old(self).side(),
            col + 3 <= old(self).side(),
            covered_at(old(self).grid(), row as int, col as int, shape.cells()),
        ensures
            final(self).border == old(self).border,
            final(self).grid() == unplace_at(old(self).grid(), row as int, col as int, shape.cells()),
    {
        proof {
            old(self).lemma_rows();
        }
        let ghost g0 = old(self).grid();
        let ghost n = old(self).side();
        let mut i: usize = 0;
        while i < 3
            invariant
                i <= 3,
                self.border == old(self).border,
                self.data@.len() == n,
                forall|p: int| 0 <= p < n ==> (#[trigger] self.data@[p])@.len() == n,
                forall|p: int, q: int| 0 <= p < n && 0 <= q < n ==>
                    #[trigger] self.data@[p]@[q] == (
                        if row <= p < row + 3 && col <= q < col + 3 && (p - row < i) {
                            g0[p][q] & (shape.cells()[p - row][q - col] ^ 3)
                        } else {
                            g0[p][q]
                        }),
            decreases 3 - i,
        {
            let mut j: usize = 0;
            while j < 3
                invariant
                    i < 3,
                    j <= 3,
                    self.border == old(self).border,
                    self.data@.len() == n,
                    forall|p: int| 0 <= p < n ==> (#[trigger] self.data@[p])@.len() == n,
                    forall|p: int, q: int| 0 <= p < n && 0 <= q < n ==>
                        #[trigger] self.data@[p]@[q] == (
                            if row <= p < row + 3 && col <= q < col + 3
                                && (p - row < i || (p - row == i && q - col < j)) {
                                g0[p][q] & (shape.cells()[p - row][q - col] ^ 3)
                            } else {
                                g0[p][q]
                            }),
                decreases 3 - j,
            {
                let r: usize = row + i;
                let c: usize = col + j;
                let cur: u8 = self.data[r][c];
                let sv: u8 = shape.data[i][j];
                proof {
                    assert(shape.cells()[i as int][j as int] == shape.data@[i as int]@[j as int]);
                }
                self.data[r][c] = cur & (sv ^ 3);
                j += 1;
            }
            i += 1;
        }
        proof {
            assert forall|p: int, q: int| 0 <= p < n && 0 <= q < n implies
                self.grid()[p][q] == unplace_at(g0, row as int, col as int, shape.cells())[p][q] by {
                assert(self.grid()[p] == self.data@[p]@);
                assert(g0[p].len() == n);
            }
            assert forall|p: int| 0 <= p < n implies
                (#[trigger] self.grid()[p]).len() == unplace_at(g0, row as int, col as int, shape.cells())[p].len() by {
                assert(self.grid()[p] == self.data@[p]@);
                assert(g0[p].len() == n);
            }
            assert(self.grid() =~~= unplace_at(g0, row as int, col as int, shape.cells()));
        }
    }
}

/// Whether (i, j, z) is a fillable target: an interior cell whose layer
/// bit z is not yet set there.
pub open spec fn is_target(g: Seq<Seq<u8>>, b: int, i: int, j: int, z: u8) -> bool {
    let n = g.len() as int;
    &&& b <= i < n - b
    &&& b <= j < n - b
    &&& (z == 1 || z == 2)
    &&& g[i][j] & z == 0
}

/// The constraint score of a target: the set layer bits the cell would
/// have once the target bit were filled, plus the set layer bits of its
/// four neighbours.
pub open spec fn target_score(g: Seq<Seq<u8>>, i: int, j: int, z: u8) -> int {
    count_bits(g[i][j] ^ z) + count_bits(g[i - 1][j]) + count_bits(g[i + 1][j])
        + count_bits(g[i][j - 1]) + count_bits(g[i][j + 1])
}

/// The selector's scan order on targets: row-major over cells, layer
/// bit L0 before L1 within a cell.
pub open spec fn scan_before(i1: int, j1: int, z1: u8, i2: int, j2: int, z2: u8) -> bool {
    i1 < i2 || (i1 == i2 && (j1 < j2 || (j1 == j2 && z1 < z2)))
}

impl Assembly {
    /// Picks the next target to fill: among all interior (cell, layer
    /// bit) pairs whose bit is still unset, the one with the maximum
    /// constraint score, ties broken by scan order.  Returns bit 0 as
    /// the "no target" sentinel exactly when every interior cell has
    /// both bits set — the grid is completely packed.
    #[verifier::loop_isolation(false)]
    pub fn find_most_constrained_cell(&self) -> (r: (usize, usize, u8))
        requires
            self.wf(),
        ensures
            (r.2 != 0) == exists|i: int, j: int, z: u8|
                is_target(self.grid(), self.border as int, i, j, z),
            r.2 != 0 ==> is_target(self.grid(), self.border as int, r.0 as int, r.1 as int, r.2),
            r.2 != 0 ==> forall|i: int, j: int, z: u8|
                #[trigger] is_target(self.grid(), self.border as int, i, j, z) ==>
                    target_score(self.grid(), i, j, z)
                        <= target_score(self.grid(), r.0 as int, r.1 as int, r.2),
            r.2 != 0 ==> forall|i: int, j: int, z: u8|
                #[trigger] is_target(self.grid(), self.border as int, i, j, z)
                    && scan_before(i, j, z, r.0 as int, r.1 as int, r.2) ==>
                    target_score(self.grid(), i, j, z)
                        < target_score(self.grid(), r.0 as int, r.1 as int, r.2),
            r.2 == 0 ==> r == (0usize, 0usize, 0u8),
    {
        proof {
            self.lemma_rows();
        }
        let ghost g = self.grid();
        let ghost bi = self.border as int;
        let n: usize = self.data.len();
        let b: usize = self.border;
        let mut br: usize = 0;
        let mut bc: usize = 0;
        let mut bz: u8 = 0;
        let mut max: i32 = -1;
        let mut i: usize = b;
        while i < n - b
            invariant
                b <= i <= n - b,
                max >= -1,
                max == -1 ==> br == 0 && bc == 0 && bz == 0,
                max == -1 ==> forall|ti: int, tj: int, tz: u8|
                    #[trigger] is_target(g, bi, ti, tj, tz) ==> !scan_before(ti, tj, tz, i as int, bi, 1),
                max >= 0 ==> {
                    &&& is_target(g, bi, br as int, bc as int, bz)
                    &&& scan_before(br as int, bc as int, bz, i as int, bi, 1)
                    &&& target_score(g, br as int, bc as int, bz) == max as int
                },
                max >= 0 ==> forall|ti: int, tj: int, tz: u8|
                    #[trigger] is_target(g, bi, ti, tj, tz) && scan_before(ti, tj, tz, i as int, bi, 1)
                        ==> target_score(g, ti, tj, tz) <= max as int,
                max >= 0 ==> forall|ti: int, tj: int, tz: u8|
                    #[trigger] is_target(g, bi, ti, tj, tz) && scan_before(ti, tj, tz, i as int, bi, 1)
                        && scan_before(ti, tj, tz, br as int, bc as int, bz)
                        ==> target_score(g, ti, tj, tz) < max as int,
            decreases n - b - i,
        {
            let mut j: usize = b;
            while j < n - b
                invariant
                    b <= i < n - b,
                    b <= j <= n - b,
                    max >= -1,
                    max == -1 ==> br == 0 && bc == 0 && bz == 0,
                    max == -1 ==> forall|ti: int, tj: int, tz: u8|
                        #[trigger] is_target(g, bi, ti, tj, tz) ==> !scan_before(ti, tj, tz, i as int, j as int, 1),
                    max >= 0 ==> {
                        &&& is_target(g, bi, br as int, bc as int, bz)
                        &&& scan_before(br as int, bc as int, bz, i as int, j as int, 1)
                        &&& target_score(g, br as int, bc as int, bz) == max as int
                    },
                    max >= 0 ==> forall|ti: int, tj: int, tz: u8|
                        #[trigger] is_target(g, bi, ti, tj, tz) && scan_before(ti, tj, tz, i as int, j as int, 1)
                            ==> target_score(g, ti, tj, tz) <= max as int,
                    max >= 0 ==> forall|ti: int, tj: int, tz: u8|
                        #[trigger] is_target(g, bi, ti, tj, tz) && scan_before(ti, tj, tz, i as int, j as int, 1)
                            && scan_before(ti, tj, tz, br as int, bc as int, bz)
                            ==> target_score(g, ti, tj, tz) < max as int,
                decreases n - b - j,
            {
                let mut z: u8 = 1;
                while z <= 2
                    invariant
                        b <= i < n - b,
                        b <= j < n - b,
                        1 <= z <= 3,
                        max >= -1,
                        max == -1 ==> br == 0 && bc == 0 && bz == 0,
                        max == -1 ==> forall|ti: int, tj: int, tz: u8|
                            #[trigger] is_target(g, bi, ti, tj, tz) ==> !scan_before(ti, tj, tz, i as int, j as int, z),
                        max >= 0 ==> {
                            &&& is_target(g, bi, br as int, bc as int, bz)
                            &&& scan_before(br as int, bc as int, bz, i as int, j as int, z)
                            &&& target_score(g, br as int, bc as int, bz) == max as int
                        },
                        max >= 0 ==> forall|ti: int, tj: int, tz: u8|
                            #[trigger] is_target(g, bi, ti, tj, tz) && scan_before(ti, tj, tz, i as int, j as int, z)
                                ==> target_score(g, ti, tj, tz) <= max as int,
                        max >= 0 ==> forall|ti: int, tj: int, tz: u8|
                            #[trigger] is_target(g, bi, ti, tj, tz) && scan_before(ti, tj, tz, i as int, j as int, z)
                                && scan_before(ti, tj, tz, br as int, bc as int, bz)
                                ==> target_score(g, ti, tj, tz) < max as int,
                    decreases 3 - z,
                {
                    proof {
                        assert(g[i as int] == self.data@[i as int]@);
                        assert(g[i as int - 1] == self.data@[i as int - 1]@);
                        assert(g[i as int + 1] == self.data@[i as int + 1]@);
                    }
                    let cellv: u8 = self.data[i][j];
                    if cellv & z == 0 {
                        proof {
                            assert((cellv ^ z) < 4) by (bit_vector)
                                requires
                                    cellv < 4,
                                    z == 1 || z == 2,
                            ;
                        }
                        let count: i32 = hamming_weight(cellv ^ z)
                            + hamming_weight(self.data[i - 1][j])
                            + hamming_weight(self.data[i + 1][j])
                            + hamming_weight(self.data[i][j - 1])
                            + hamming_weight(self.data[i][j + 1]);
                        proof {
                            assert(count == target_score(g, i as int, j as int, z));
                            assert(is_target(g, bi, i as int, j as int, z));
                        }
                        if count > max {
                            max = count;
                            br = i;
                            bc = j;
                            bz = z;
                        }
                    }
                    z += 1;
                }
                j += 1;
            }
            i += 1;
        }
        proof {
            if max >= 0 {
                assert(bz == 1 || bz == 2);
                assert forall|ti: int, tj: int, tz: u8| #[trigger] is_target(g, bi, ti, tj, tz) implies
                    scan_before(ti, tj, tz, i as int, bi, 1) by {}
            } else {
                assert forall|ti: int, tj: int, tz: u8| !(#[trigger] is_target(g, bi, ti, tj, tz)) by {
                    if is_target(g, bi, ti, tj, tz) {
                        assert(scan_before(ti, tj, tz, i as int, bi, 1));
                    }
                }
            }
        }
        (br, bc, bz)
    }
}

/// In every well-formed grid state — which construction establishes and
/// placement preserves — each cell value lies in {0, 1, 2, 3} and every
/// border cell is Blocked(3).
pub proof fn lemma_grid_invariant(g: Seq<Seq<u8>>, b: int)
    requires
        grid_wf(g, b),
    ensures
        forall|i: int, j: int| 0 <= i < g.len() && 0 <= j < g.len() ==> 0 <= #[trigger] g[i][j] < 4,
        forall|i: int, j: int| 0 <= i < g.len() && 0 <= j < g.len() && on_border(g.len() as int, b, i, j)
            ==> #[trigger] g[i][j] == 3,
{
    assert forall|i: int, j: int| 0 <= i < g.len() && 0 <= j < g.len() implies
        0 <= #[trigger] g[i][j] < 4 by {
        assert(cell_ok(g[i][j]));
    }
}

/// Unplacing a tile with the arguments of the matching place restores
/// the grid to its exact prior state (and after the place, every bit the
/// tile set is indeed present, so the unplace's precondition holds).
pub proof fn lemma_unplace_undoes_place(g: Seq<Seq<u8>>, b: int, row: int, col: int, t: Seq<Seq<u8>>)
    requires
        grid_wf(g, b),
        cells_wf(t),
        0 <= row,
        0 <= col,
        row + 3 <= g.len(),
        col + 3 <= g.len(),
        overlap_free(g, row, col, t),
    ensures
        covered_at(place_at(g, row, col, t), row, col, t),
        unplace_at(place_at(g, row, col, t), row, col, t) == g,
{
    let n = g.len() as int;
    let p = place_at(g, row, col, t);
    assert forall|a: int, c: int| 0 <= a < 3 && 0 <= c < 3 implies
        #[trigger] (p[row + a][col + c] & t[a][c]) == t[a][c] by {
        assert(g[row + a].len() == n);
        lemma_or_disjoint(g[row + a][col + c], t[a][c]);
    }
    let u = unplace_at(p, row, col, t);
    assert forall|i: int, j: int| 0 <= i < n && 0 <= j < n implies u[i][j] == g[i][j] by {
        assert(g[i].len() == n);
        if row <= i < row + 3 && col <= j < col + 3 {
            let a = i - row;
            let c = j - col;
            assert(g[row + a][col + c] & t[a][c] == 0);
            lemma_or_disjoint(g[i][j], t[a][c]);
        }
    }
    assert forall|i: int| 0 <= i < n implies (#[trigger] u[i]).len() == g[i].len() by {
        assert(g[i].len() == n);
    }
    assert(u =~~= g);
}

} // verus!
