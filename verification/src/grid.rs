//! Linear numbering of the points of a three-dimensional grid.
//!
//! Point `(i, j, k)` of a grid with `dims` points per axis has index
//! `(i·dims[1] + j)·dims[2] + k`: `k` varies fastest.

use vstd::prelude::*;
use vstd::arithmetic::div_mod::lemma_fundamental_div_mod_converse;
use vstd::arithmetic::div_mod::lemma_fundamental_div_mod;

verus! {

/// Points per axis of a uniform grid.
#[derive(Clone, Copy, Debug, PartialEq, Eq)]
pub struct GridShape {
    pub dims: [usize; 3],
}

/// Linear index of point `p` in a grid with `d1` points along the second
/// axis and `d2` along the third.
pub open spec fn index_of(d1: int, d2: int, p0: int, p1: int, p2: int) -> int {
    (p0 * d1 + p1) * d2 + p2
}

/// Point `(i, j, k)` lies in a grid of `d0 × d1 × d2` points.
pub open spec fn in_grid(d0: int, d1: int, d2: int, p0: int, p1: int, p2: int) -> bool {
    0 <= p0 < d0 && 0 <= p1 < d1 && 0 <= p2 < d2
}

impl GridShape {
    /// Total number of grid points, `dims[0]·dims[1]·dims[2]`.
    pub open spec fn point_count(self) -> int {
        self.dims[0] * self.dims[1] * self.dims[2]
    }

    /// Total number of grid points.
    pub fn len(&self) -> (r: usize)
        requires
            self.dims[0] * self.dims[1] <= usize::MAX,
            self.point_count() <= usize::MAX,
        ensures
            r == self.point_count(),
    {
        self.dims[0] * self.dims[1] * self.dims[2]
    }

    /// Linear index of grid point `(i, j, k)`; `k` varies fastest.
    pub fn index(&self, point: [usize; 3]) -> (r: usize)
        requires
            point[0] * self.dims[1] + point[1] <= usize::MAX,
            index_of(self.dims[1] as int, self.dims[2] as int, point[0] as int, point[1] as int, point[2] as int)
                <= usize::MAX,
        ensures
            r == index_of(self.dims[1] as int, self.dims[2] as int, point[0] as int, point[1] as int, point[2] as int),
    {
        let row = point[0] * self.dims[1] + point[1];
        proof {
            assert(0 <= row * self.dims[2]) by (nonlinear_arith)
                requires
                    0 <= row,
                    0 <= self.dims[2],
            ;
        }
        row * self.dims[2] + point[2]
    }

    /// Grid point of a linear index.
    pub fn point(&self, index: usize) -> (r: [usize; 3])
        requires
            self.dims[1] > 0,
            self.dims[2] > 0,
        ensures
            r[0] == (index as int / self.dims[2] as int) / self.dims[1] as int,
            r[1] == (index as int / self.dims[2] as int) % self.dims[1] as int,
            r[2] == index as int % self.dims[2] as int,
    {
        let k = index % self.dims[2];
        let rest = index / self.dims[2];
        [rest / self.dims[1], rest % self.dims[1], k]
    }
}

/// `point` undoes `index`: the point of the index of a grid point is that
/// point.
pub proof fn lemma_point_of_index(d1: int, d2: int, p0: int, p1: int, p2: int)
    requires
        0 <= p0,
        0 <= p1 < d1,
        0 <= p2 < d2,
    ensures
        (index_of(d1, d2, p0, p1, p2) / d2) / d1 == p0,
        (index_of(d1, d2, p0, p1, p2) / d2) % d1 == p1,
        index_of(d1, d2, p0, p1, p2) % d2 == p2,
{
    let row = p0 * d1 + p1;
    lemma_fundamental_div_mod_converse(index_of(d1, d2, p0, p1, p2), d2, row, p2);
    lemma_fundamental_div_mod_converse(row, d1, p0, p1);
}

/// `index` undoes `point`: every index below the point count is the index
/// of its point, and that point lies in the grid.
pub proof fn lemma_index_of_point(d0: int, d1: int, d2: int, x: int)
    requires
        d1 > 0,
        d2 > 0,
        0 <= x < d0 * d1 * d2,
    ensures
        index_of(d1, d2, (x / d2) / d1, (x / d2) % d1, x % d2) == x,
        in_grid(d0, d1, d2, (x / d2) / d1, (x / d2) % d1, x % d2),
{
    let rest = x / d2;
    lemma_fundamental_div_mod(x, d2);
    lemma_fundamental_div_mod(rest, d1);
    assert(d2 * rest == rest * d2) by (nonlinear_arith);
    assert(d1 * (rest / d1) == (rest / d1) * d1) by (nonlinear_arith);
    assert(x == (rest / d1 * d1 + rest % d1) * d2 + x % d2);
    // The first coordinate stays below d0.
    assert(rest < d0 * d1) by (nonlinear_arith)
        requires
            x < d0 * d1 * d2,
            x == d2 * rest + x % d2,
            0 <= x % d2,
            d2 > 0,
    ;
    assert(rest / d1 < d0) by (nonlinear_arith)
        requires
            rest < d0 * d1,
            rest == d1 * (rest / d1) + rest % d1,
            0 <= rest % d1,
            d1 > 0,
    ;
    assert(x / d2 >= 0) by (nonlinear_arith)
        requires
            x >= 0,
            d2 > 0,
    ;
    assert(rest / d1 >= 0) by (nonlinear_arith)
        requires
            rest >= 0,
            d1 > 0,
    ;
}

/// Index in a table of the offsets `|d[a]| <= reach[a]`, `dims[a] = 2 ·
/// reach[a] + 1` per axis, of offset `d`: the grid index of `d + reach`.
pub fn offset_index(reach: [usize; 3], d: [i64; 3]) -> (r: usize)
    requires
        forall|a: int| 0 <= a < 3 ==> -reach[a] <= #[trigger] d[a] <= reach[a],
        forall|a: int| 0 <= a < 3 ==> 2 * #[trigger] reach[a] + 1 <= i64::MAX,
        (2 * reach[0] + 1) * (2 * reach[1] + 1) * (2 * reach[2] + 1) <= usize::MAX,
    ensures
        r == index_of(
            2 * reach[1] + 1,
            2 * reach[2] + 1,
            d[0] + reach[0],
            d[1] + reach[1],
            d[2] + reach[2],
        ),
        r < (2 * reach[0] + 1) * (2 * reach[1] + 1) * (2 * reach[2] + 1),
{
    let ghost dims = (2 * reach[0] + 1, 2 * reach[1] + 1, 2 * reach[2] + 1);
    proof {
        let (a0, a1, a2) = dims;
        assert(a0 <= a0 * a1 * a2 && a1 <= a0 * a1 * a2 && a2 <= a0 * a1 * a2) by (nonlinear_arith)
            requires
                a0 >= 1,
                a1 >= 1,
                a2 >= 1,
        ;
    }
    let x = (d[0] + reach[0] as i64) as usize;
    let y = (d[1] + reach[1] as i64) as usize;
    let z = (d[2] + reach[2] as i64) as usize;
    let d1 = 2 * reach[1] + 1;
    let d2 = 2 * reach[2] + 1;
    proof {
        let d0 = dims.0;
        assert(0 <= x < d0 && 0 <= y < d1 && 0 <= z < d2);
        let row = x * d1 + y;
        assert(0 <= row <= d0 * d1 - 1) by (nonlinear_arith)
            requires
                0 <= x < d0,
                0 <= y < d1,
                row == x * d1 + y,
        ;
        assert(row * d2 + z < d0 * d1 * d2) by (nonlinear_arith)
            requires
                0 <= row <= d0 * d1 - 1,
                0 <= z < d2,
        ;
        assert(row <= row * d2) by (nonlinear_arith)
            requires
                0 <= row,
                1 <= d2,
        ;
    }
    (x * d1 + y) * d2 + z
}

} // verus!
