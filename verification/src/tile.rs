//! Tiles and their symmetry orbit.
//!
//! A `Shape` is one oriented piece footprint: a color-parity tag and a
//! 3x3 matrix of cell values.  In canonical form the last row is all
//! Empty; it exists only to keep the footprint square under rotation.
//! The symmetry group {identity, flip, flip^2, flip^3} x
//! {identity, rotate, rotate^2, rotate^3} expands a canonical tile into
//! its ordered orbit of 16 oriented variants.

use vstd::prelude::*;
use crate::cell::{cell_ok, rows_view};

verus! {

/// One oriented tile footprint with its color-parity tag.
pub struct Shape {
    pub color: u8,
    pub data: Vec<Vec<u8>>,
}

/// A well-formed footprint: a 3x3 matrix of valid cell values.
pub open spec fn cells_wf(c: Seq<Seq<u8>>) -> bool {
    &&& c.len() == 3
    &&& forall|i: int| 0 <= i < 3 ==> #[trigger] c[i].len() == 3
    &&& forall|i: int, j: int| 0 <= i < 3 && 0 <= j < 3 ==> cell_ok(#[trigger] c[i][j])
}

/// The footprint rotated a quarter turn: new cell (i,k) is old cell (2-k,i).
pub open spec fn rotated(c: Seq<Seq<u8>>) -> Seq<Seq<u8>> {
    Seq::new(3, |i: int| Seq::new(3, |k: int| c[2 - k][i]))
}

/// The footprint turned over: the two layer bits are exchanged and
/// reinterleaved between the first two rows; the reserved last row is kept.
pub open spec fn flipped(c: Seq<Seq<u8>>) -> Seq<Seq<u8>> {
    Seq::new(3, |i: int| Seq::new(3, |j: int|
        if i == 0 {
            (c[1][j] & 1) | ((c[0][j] & 1) << 1)
        } else if i == 1 {
            ((c[1][j] & 2) >> 1) | (c[0][j] & 2)
        } else {
            c[2][j]
        }))
}

/// The footprint after `n` quarter turns.
pub open spec fn rotated_n(c: Seq<Seq<u8>>, n: nat) -> Seq<Seq<u8>>
    decreases n,
{
    if n == 0 {
        c
    } else {
        rotated(rotated_n(c, (n - 1) as nat))
    }
}

/// The footprint after `n` flips.
pub open spec fn flipped_n(c: Seq<Seq<u8>>, n: nat) -> Seq<Seq<u8>>
    decreases n,
{
    if n == 0 {
        c
    } else {
        flipped(flipped_n(c, (n - 1) as nat))
    }
}

/// The color tag after `n` flips: each flip inverts the parity.
pub open spec fn color_n(color: u8, n: nat) -> u8 {
    if n % 2 == 0 {
        color
    } else {
        (1 - color) as u8
    }
}

impl Shape {
    /// The footprint as a mathematical 3x3 matrix of cell values.
    pub open spec fn cells(self) -> Seq<Seq<u8>> {
        rows_view(self.data)
    }

    /// A well-formed tile: binary color and a valid 3x3 footprint.
    pub open spec fn wf(self) -> bool {
        &&& self.color <= 1
        &&& self.data@.len() == 3
        &&& forall|i: int| 0 <= i < 3 ==> (#[trigger] self.data@[i])@.len() == 3
        &&& forall|i: int, j: int| 0 <= i < 3 && 0 <= j < 3 ==> cell_ok(#[trigger] self.data@[i]@[j])
    }

    /// The footprint of a well-formed tile is a well-formed 3x3 matrix.
    pub proof fn lemma_wf_cells(self)
        requires
            self.wf(),
        ensures
            cells_wf(self.cells()),
    {
        assert forall|i: int| 0 <= i < 3 implies #[trigger] self.cells()[i].len() == 3 by {
            assert(self.cells()[i] == self.data@[i]@);
        }
        assert forall|i: int, j: int| 0 <= i < 3 && 0 <= j < 3 implies cell_ok(#[trigger] self.cells()[i][j]) by {
            assert(self.cells()[i] == self.data@[i]@);
        }
    }

    /// The reserved last row is entirely Empty (canonical-form invariant).
    pub open spec fn last_row_empty(self) -> bool {
        forall|j: int| 0 <= j < 3 ==> self.cells()[2][j] == 0
    }

    /// Builds a canonical tile from a color tag and a 2x3 pattern;
    /// the reserved third row is initialized to Empty.
    pub fn new(color: u8, pattern: Vec<Vec<u8>>) -> (s: Shape)
        requires
            color <= 1,
            pattern@.len() == 2,
            forall|i: int| 0 <= i < 2 ==> #[trigger] pattern@[i]@.len() == 3,
            forall|i: int, j: int| 0 <= i < 2 && 0 <= j < 3 ==> cell_ok(#[trigger] pattern@[i]@[j]),
        ensures
            s.wf(),
            s.last_row_empty(),
            s.color == color,
            forall|i: int, j: int| 0 <= i < 2 && 0 <= j < 3 ==> #[trigger] s.cells()[i][j] == pattern@[i]@[j],
            forall|j: int| 0 <= j < 3 ==> #[trigger] s.cells()[2][j] == 0,
    {
        let mut data = pattern;
        let mut third: Vec<u8> = Vec::new();
        third.push(0);
        third.push(0);
        third.push(0);
        data.push(third);
        Shape { color, data }
    }

    /// Turns the tile over.  The color parity inverts; for each column,
    /// the layer bits of the first two rows are exchanged and
    /// reinterleaved; the reserved last row (required Empty) is kept.
    pub fn flip(&self) -> (s: Shape)
        requires
            self.wf(),
            self.last_row_empty(),
        ensures
            s.wf(),
            s.last_row_empty(),
            s.color == 1 - self.color,
            s.cells() == flipped(self.cells()),
    {
        let mut r0: Vec<u8> = Vec::new();
        let mut r1: Vec<u8> = Vec::new();
        let mut r2: Vec<u8> = Vec::new();
        let mut j: usize = 0;
        while j < 3
            invariant
                self.wf(),
                j <= 3,
                r0@.len() == j,
                r1@.len() == j,
                r2@.len() == j,
                forall|k: int| 0 <= k < j ==> #[trigger] r0@[k] == (self.cells()[1][k] & 1) | ((self.cells()[0][k] & 1) << 1),
                forall|k: int| 0 <= k < j ==> #[trigger] r1@[k] == ((self.cells()[1][k] & 2) >> 1) | (self.cells()[0][k] & 2),
                forall|k: int| 0 <= k < j ==> #[trigger] r2@[k] == self.cells()[2][k],
            decreases 3 - j,
        {
            let a = self.data[0][j];
            let b = self.data[1][j];
            r0.push((b & 1) | ((a & 1) << 1));
            r1.push(((b & 2) >> 1) | (a & 2));
            r2.push(self.data[2][j]);
            j += 1;
        }
        let mut data: Vec<Vec<u8>> = Vec::new();
        data.push(r0);
        data.push(r1);
        data.push(r2);
        let s = Shape { color: 1 - self.color, data };
        proof {
            assert forall|i: int, k: int| 0 <= i < 3 && 0 <= k < 3 implies cell_ok(#[trigger] s.data@[i]@[k]) by {
                let x = self.cells()[0][k];
                let y = self.cells()[1][k];
                assert(x == self.data@[0]@[k] && y == self.data@[1]@[k]);
                assert(((y & 1) | ((x & 1) << 1)) < 4 && (((y & 2) >> 1) | (x & 2)) < 4) by (bit_vector)
                    requires
                        x < 4,
                        y < 4,
                ;
                assert(self.cells()[2][k] == self.data@[2]@[k]);
            }
            assert(s.cells() =~~= flipped(self.cells()));
        }
        s
    }

    /// Rotates the tile a quarter turn; the color is unchanged.
    pub fn rotate(&self) -> (s: Shape)
        requires
            self.wf(),
        ensures
            s.wf(),
            s.color == self.color,
            s.cells() == rotated(self.cells()),
    {
        let mut r0: Vec<u8> = Vec::new();
        let mut r1: Vec<u8> = Vec::new();
        let mut r2: Vec<u8> = Vec::new();
        r0.push(self.data[2][0]);
        r0.push(self.data[1][0]);
        r0.push(self.data[0][0]);
        r1.push(self.data[2][1]);
        r1.push(self.data[1][1]);
        r1.push(self.data[0][1]);
        r2.push(self.data[2][2]);
        r2.push(self.data[1][2]);
        r2.push(self.data[0][2]);
        let mut data: Vec<Vec<u8>> = Vec::new();
        data.push(r0);
        data.push(r1);
        data.push(r2);
        let s = Shape { color: self.color, data };
        proof {
            assert forall|i: int, k: int| 0 <= i < 3 && 0 <= k < 3 implies cell_ok(#[trigger] s.data@[i]@[k]) by {
                assert(s.data@[i]@[k] == self.data@[2 - k]@[i]);
            }
            assert(s.cells() =~~= rotated(self.cells()));
        }
        s
    }

    /// Expands a canonical tile into its full ordered orbit: for each
    /// flip count f in 0..4 and rotation count r in 0..4, entry f*4+r is
    /// the tile flipped f times then rotated r times.  Internal symmetry
    /// may produce duplicate entries; they are retained.
    pub fn create_group(&self) -> (v: Vec<Shape>)
        requires
            self.wf(),
            self.last_row_empty(),
        ensures
            v@.len() == 16,
            forall|f: int, r: int| 0 <= f < 4 && 0 <= r < 4 ==> (#[trigger] v@[f * 4 + r]).wf(),
            forall|f: int, r: int| 0 <= f < 4 && 0 <= r < 4 ==>
                (#[trigger] v@[f * 4 + r]).color == color_n(self.color, f as nat),
            forall|f: int, r: int| 0 <= f < 4 && 0 <= r < 4 ==>
                (#[trigger] v@[f * 4 + r]).cells() == rotated_n(flipped_n(self.cells(), f as nat), r as nat),
    {
        let mut v: Vec<Shape> = Vec::new();
        let mut s: Shape = self.clone_shape();
        let mut f: usize = 0;
        while f < 4
            invariant
                self.wf(),
                self.last_row_empty(),
                f <= 4,
                s.wf(),
                s.last_row_empty(),
                s.color == color_n(self.color, f as nat),
                s.cells() == flipped_n(self.cells(), f as nat),
                v@.len() == f * 4,
                forall|a: int, r: int| 0 <= a < f && 0 <= r < 4 ==> (#[trigger] v@[a * 4 + r]).wf(),
                forall|a: int, r: int| 0 <= a < f && 0 <= r < 4 ==>
                    (#[trigger] v@[a * 4 + r]).color == color_n(self.color, a as nat),
                forall|a: int, r: int| 0 <= a < f && 0 <= r < 4 ==>
                    (#[trigger] v@[a * 4 + r]).cells() == rotated_n(flipped_n(self.cells(), a as nat), r as nat),
            decreases 4 - f,
        {
            let mut z: Shape = s.clone_shape();
            let mut r: usize = 0;
            while r < 4
                invariant
                    self.wf(),
                    f < 4,
                    r <= 4,
                    s.wf(),
                    s.color == color_n(self.color, f as nat),
                    s.cells() == flipped_n(self.cells(), f as nat),
                    z.wf(),
                    z.color == color_n(self.color, f as nat),
                    z.cells() == rotated_n(flipped_n(self.cells(), f as nat), r as nat),
                    v@.len() == f * 4 + r,
                    forall|a: int, b: int| 0 <= a < f && 0 <= b < 4 ==> (#[trigger] v@[a * 4 + b]).wf(),
                    forall|a: int, b: int| 0 <= a < f && 0 <= b < 4 ==>
                        (#[trigger] v@[a * 4 + b]).color == color_n(self.color, a as nat),
                    forall|a: int, b: int| 0 <= a < f && 0 <= b < 4 ==>
                        (#[trigger] v@[a * 4 + b]).cells() == rotated_n(flipped_n(self.cells(), a as nat), b as nat),
                    forall|b: int| 0 <= b < r ==> (#[trigger] v@[f * 4 + b]).wf(),
                    forall|b: int| 0 <= b < r ==>
                        (#[trigger] v@[f * 4 + b]).color == color_n(self.color, f as nat),
                    forall|b: int| 0 <= b < r ==>
                        (#[trigger] v@[f * 4 + b]).cells() == rotated_n(flipped_n(self.cells(), f as nat), b as nat),
                decreases 4 - r,
            {
                v.push(z.clone_shape());
                z = z.rotate();
                r += 1;
            }
            s = s.flip();
            f += 1;
        }
        v
    }

    /// An explicit clone: same color, same footprint.
    pub fn clone_shape(&self) -> (s: Shape)
        requires
            self.wf(),
        ensures
            s.wf(),
            s.color == self.color,
            s.cells() == self.cells(),
            self.last_row_empty() ==> s.last_row_empty(),
    {
        let mut data: Vec<Vec<u8>> = Vec::new();
        let mut i: usize = 0;
        while i < 3
            invariant
                self.wf(),
                i <= 3,
                data@.len() == i,
                forall|a: int| 0 <= a < i ==> #[trigger] data@[a]@ == self.cells()[a],
            decreases 3 - i,
        {
            let mut row: Vec<u8> = Vec::new();
            let mut j: usize = 0;
            while j < 3
                invariant
                    self.wf(),
                    i < 3,
                    j <= 3,
                    row@.len() == j,
                    forall|b: int| 0 <= b < j ==> #[trigger] row@[b] == self.cells()[i as int][b],
                decreases 3 - j,
            {
                row.push(self.data[i][j]);
                j += 1;
            }
            proof {
                assert(row@ =~= self.cells()[i as int]);
            }
            data.push(row);
            i += 1;
        }
        let s = Shape { color: self.color, data };
        proof {
            assert(s.cells() =~~= self.cells());
        }
        s
    }
}

/// Four quarter turns return any well-formed footprint to itself.
pub proof fn lemma_rotate_four(c: Seq<Seq<u8>>)
    requires
        cells_wf(c),
    ensures
        rotated_n(c, 4) == c,
{
    reveal_with_fuel(rotated_n, 5);
    assert(rotated(rotated(rotated(rotated(c)))) =~~= c);
}

/// Two flips return any binary color tag to itself.
pub proof fn lemma_flip_twice_color(color: u8)
    requires
        color <= 1,
    ensures
        color_n(color, 2) == color,
{
}

} // verus!
