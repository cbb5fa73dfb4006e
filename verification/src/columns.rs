//! Moving convolution data between layouts: a row-major matrix and its
//! transpose, and the planes of a padded grid and its axis-0 columns.

use vstd::prelude::*;
use vstd::arithmetic::div_mod::lemma_fundamental_div_mod;
use vstd::arithmetic::div_mod::lemma_fundamental_div_mod_converse;

verus! {

/// Position of entry `(r, c)` of a row-major matrix with `cols` columns.
pub open spec fn at(r: int, cols: int, c: int) -> int {
    r * cols + c
}

/// Entries of a `rows × cols` matrix sit at distinct positions below
/// `rows · cols`.
proof fn lemma_at_bounds(r: int, rows: int, c: int, cols: int)
    requires
        0 <= r < rows,
        0 <= c < cols,
    ensures
        0 <= at(r, cols, c) < rows * cols,
        0 <= at(r, cols, c) < cols * rows,
        at(r, cols, c) / cols == r,
        at(r, cols, c) % cols == c,
{
    assert(0 <= r * cols) by (nonlinear_arith)
        requires
            0 <= r,
            0 <= cols,
    ;
    assert(r * cols + c < rows * cols) by (nonlinear_arith)
        requires
            0 <= r < rows,
            0 <= c < cols,
    ;
    assert(rows * cols == cols * rows) by (nonlinear_arith);
    lemma_fundamental_div_mod_converse(r * cols + c, cols, r, c);
}

/// Every position below `rows · cols` is that of one entry.
proof fn lemma_at_cover(k: int, rows: int, cols: int)
    requires
        0 <= k < rows * cols,
        cols > 0,
    ensures
        0 <= k / cols < rows,
        0 <= k % cols < cols,
        k == at(k / cols, cols, k % cols),
{
    lemma_fundamental_div_mod(k, cols);
    assert(cols * (k / cols) == (k / cols) * cols) by (nonlinear_arith);
    assert(0 <= k / cols < rows) by (nonlinear_arith)
        requires
            0 <= k < rows * cols,
            k == cols * (k / cols) + k % cols,
            0 <= k % cols,
            cols > 0,
    ;
}

/// Same positions, same entries: `at` is injective on a matrix.
proof fn lemma_at_injective(r: int, c: int, r2: int, c2: int, rows: int, cols: int)
    requires
        0 <= r < rows,
        0 <= c < cols,
        0 <= r2 < rows,
        0 <= c2 < cols,
        at(r, cols, c) == at(r2, cols, c2),
    ensures
        r == r2,
        c == c2,
{
    lemma_at_bounds(r, rows, c, cols);
    lemma_at_bounds(r2, rows, c2, cols);
}

/// `to` holds the transpose of the `rows × cols` matrix at the front of
/// `from`.
pub open spec fn transposed<T>(from: Seq<T>, to: Seq<T>, rows: int, cols: int) -> bool {
    forall|r: int, c: int| 0 <= r < rows && 0 <= c < cols ==> #[trigger] to[at(c, rows, r)] == from[at(r, cols, c)]
}

/// Writes the transpose (`cols × rows`) of the row-major `rows × cols`
/// matrix at the front of `from` to the front of `to`.
pub fn transpose<T: Copy>(from: &[T], to: &mut Vec<T>, rows: usize, cols: usize)
    requires
        rows * cols <= from@.len(),
        rows * cols <= old(to)@.len(),
    ensures
        final(to)@.len() == old(to)@.len(),
        transposed(from@, final(to)@, rows as int, cols as int),
        forall|k: int| rows * cols <= k < old(to)@.len() ==> #[trigger] final(to)@[k] == old(to)@[k],
{
    let ghost before = to@;
    proof {
        assert(from.len() == from@.len());
    }
    let mut r: usize = 0;
    while r < rows
        invariant
            rows * cols <= usize::MAX,
            rows * cols <= from@.len(),
            rows * cols <= before.len(),
            to@.len() == before.len(),
            r <= rows,
            forall|a: int, b: int|
                0 <= a < rows && 0 <= b < cols ==> #[trigger] to@[at(b, rows as int, a)] == if a < r {
                    from@[at(a, cols as int, b)]
                } else {
                    before[at(b, rows as int, a)]
                },
            forall|k: int| rows * cols <= k < before.len() ==> #[trigger] to@[k] == before[k],
        decreases rows - r,
    {
        let mut c: usize = 0;
        while c < cols
            invariant
                rows * cols <= usize::MAX,
                rows * cols <= from@.len(),
                rows * cols <= before.len(),
                to@.len() == before.len(),
                r < rows,
                c <= cols,
                forall|a: int, b: int|
                    0 <= a < rows && 0 <= b < cols ==> #[trigger] to@[at(b, rows as int, a)] == if a < r || (a == r
                        && b < c) {
                        from@[at(a, cols as int, b)]
                    } else {
                        before[at(b, rows as int, a)]
                    },
                forall|k: int| rows * cols <= k < before.len() ==> #[trigger] to@[k] == before[k],
            decreases cols - c,
        {
            proof {
                lemma_at_bounds(r as int, rows as int, c as int, cols as int);
                lemma_at_bounds(c as int, cols as int, r as int, rows as int);
            }
            let value = from[r * cols + c];
            let ghost here = at(c as int, rows as int, r as int);
            to.set(c * rows + r, value);
            proof {
                assert forall|a: int, b: int| 0 <= a < rows && 0 <= b < cols implies #[trigger] to@[at(b, rows as int, a)]
                    == if a < r || (a == r && b < c + 1) {
                    from@[at(a, cols as int, b)]
                } else {
                    before[at(b, rows as int, a)]
                } by {
                    lemma_at_bounds(b, cols as int, a, rows as int);
                    if at(b, rows as int, a) == here {
                        lemma_at_injective(b, a, c as int, r as int, cols as int, rows as int);
                    }
                }
                assert forall|k: int| rows * cols <= k < before.len() implies #[trigger] to@[k] == before[k] by {
                    assert(k != here);
                }
            }
            c = c + 1;
        }
        r = r + 1;
    }
}

/// Transposing twice gives the matrix back.
pub proof fn lemma_transpose_twice<T>(a: Seq<T>, b: Seq<T>, d: Seq<T>, rows: int, cols: int)
    requires
        transposed(a, b, rows, cols),
        transposed(b, d, cols, rows),
        rows >= 0,
        cols >= 0,
    ensures
        forall|k: int| 0 <= k < rows * cols ==> #[trigger] d[k] == a[k],
{
    assert forall|k: int| 0 <= k < rows * cols implies #[trigger] d[k] == a[k] by {
        assert(cols > 0) by (nonlinear_arith)
            requires
                0 <= k < rows * cols,
                rows >= 0,
                cols >= 0,
        ;
        lemma_at_cover(k, rows, cols);
        let r = k / cols;
        let c = k % cols;
        assert(b[at(c, rows, r)] == a[at(r, cols, c)]);
        assert(d[at(r, cols, c)] == b[at(c, rows, r)]);
    }
}

/// `columns` holds the axis-0 lines of `planes` planes of `stride` entries
/// each as contiguous columns of `m0`: entry `i` of column `c` is entry
/// `c` of plane `i`, and `zero` beyond the planes held.
pub open spec fn gathered<T>(data: Seq<T>, columns: Seq<T>, m0: int, stride: int, planes: int, zero: T) -> bool {
    &&& columns.len() == m0 * stride
    &&& forall|c: int, i: int|
        0 <= c < stride && 0 <= i < m0 ==> #[trigger] columns[at(c, m0, i)] == if i < planes {
            data[at(i, stride, c)]
        } else {
            zero
        }
}

/// The axis-0 lines of the padded grid as contiguous columns
/// (`columns[c·m0 + i] = data[i·stride + c]`), `zero` beyond the planes
/// held in `data`.
pub fn gather<T: Copy>(data: &[T], m0: usize, stride: usize, zero: T) -> (columns: Vec<T>)
    requires
        stride > 0,
        data@.len() as int / stride as int <= m0,
        m0 * stride <= usize::MAX,
    ensures
        gathered(data@, columns@, m0 as int, stride as int, data@.len() as int / stride as int, zero),
{
    let planes = data.len() / stride;
    proof {
        lemma_fundamental_div_mod(data@.len() as int, stride as int);
        assert(stride * planes == planes * stride) by (nonlinear_arith);
    }
    let total = m0 * stride;
    let mut columns: Vec<T> = Vec::new();
    let mut k: usize = 0;
    while k < total
        invariant
            k <= total,
            columns@.len() == k,
            forall|x: int| 0 <= x < k ==> #[trigger] columns@[x] == zero,
        decreases total - k,
    {
        columns.push(zero);
        k = k + 1;
    }
    proof {
        assert forall|a: int, i: int| 0 <= a < stride && 0 <= i < m0 implies #[trigger] columns@[at(a, m0 as int, i)] == zero by {
            lemma_at_bounds(a, stride as int, i, m0 as int);
        }
    }
    let mut c: usize = 0;
    while c < stride
        invariant
            data@.len() <= usize::MAX,
            total == m0 * stride,
            planes == data@.len() as int / stride as int,
            planes * stride <= data@.len(),
            planes <= m0,
            columns@.len() == total,
            c <= stride,
            forall|a: int, i: int|
                0 <= a < stride && 0 <= i < m0 ==> #[trigger] columns@[at(a, m0 as int, i)] == if a < c && i < planes {
                    data@[at(i, stride as int, a)]
                } else {
                    zero
                },
        decreases stride - c,
    {
        let mut i: usize = 0;
        while i < planes
            invariant
                data@.len() <= usize::MAX,
                total == m0 * stride,
                planes == data@.len() as int / stride as int,
                planes * stride <= data@.len(),
                planes <= m0,
                columns@.len() == total,
                c < stride,
                i <= planes,
                forall|a: int, b: int|
                    0 <= a < stride && 0 <= b < m0 ==> #[trigger] columns@[at(a, m0 as int, b)] == if (a < c && b
                        < planes) || (a == c && b < i) {
                        data@[at(b, stride as int, a)]
                    } else {
                        zero
                    },
            decreases planes - i,
        {
            proof {
                lemma_at_bounds(i as int, planes as int, c as int, stride as int);
                lemma_at_bounds(c as int, stride as int, i as int, m0 as int);
            }
            let value = data[i * stride + c];
            let ghost here = at(c as int, m0 as int, i as int);
            columns.set(c * m0 + i, value);
            proof {
                assert forall|a: int, b: int| 0 <= a < stride && 0 <= b < m0 implies #[trigger] columns@[at(a, m0 as int, b)]
                    == if (a < c && b < planes) || (a == c && b < i + 1) {
                    data@[at(b, stride as int, a)]
                } else {
                    zero
                } by {
                    lemma_at_bounds(a, stride as int, b, m0 as int);
                    if at(a, m0 as int, b) == here {
                        lemma_at_injective(a, b, c as int, i as int, stride as int, m0 as int);
                    }
                }
            }
            i = i + 1;
        }
        c = c + 1;
    }
    proof {
        assert(total == m0 * stride);
    }
    columns
}

/// `data` holds, in its first `planes` planes of `stride` entries, entry
/// `p` of every column of `m0` in `columns`; the rest is as it was.
pub open spec fn scattered<T>(columns: Seq<T>, before: Seq<T>, after: Seq<T>, m0: int, stride: int, planes: int) -> bool {
    &&& after.len() == before.len()
    &&& forall|p: int, c: int|
        0 <= p < planes && 0 <= c < stride ==> #[trigger] after[at(p, stride, c)] == columns[at(c, m0, p)]
    &&& forall|k: int| planes * stride <= k < before.len() ==> #[trigger] after[k] == before[k]
}

/// The inverse of [`gather`], for the planes `data` holds.
pub fn scatter<T: Copy>(columns: &[T], data: &mut Vec<T>, m0: usize, stride: usize)
    requires
        stride > 0,
        old(data)@.len() as int / stride as int <= m0,
        m0 * stride <= columns@.len(),
    ensures
        scattered(columns@, old(data)@, final(data)@, m0 as int, stride as int, old(data)@.len() as int / stride as int),
{
    let ghost before = data@;
    proof {
        assert(columns.len() == columns@.len());
    }
    let planes = data.len() / stride;
    proof {
        lemma_fundamental_div_mod(data@.len() as int, stride as int);
        assert(stride * planes == planes * stride) by (nonlinear_arith);
    }
    let mut c: usize = 0;
    while c < stride
        invariant
            before.len() <= usize::MAX,
            m0 * stride <= usize::MAX,
            planes == before.len() as int / stride as int,
            planes * stride <= before.len(),
            planes <= m0,
            m0 * stride <= columns@.len(),
            data@.len() == before.len(),
            c <= stride,
            forall|p: int, a: int|
                0 <= p < planes && 0 <= a < stride ==> #[trigger] data@[at(p, stride as int, a)] == if a < c {
                    columns@[at(a, m0 as int, p)]
                } else {
                    before[at(p, stride as int, a)]
                },
            forall|k: int| planes * stride <= k < before.len() ==> #[trigger] data@[k] == before[k],
        decreases stride - c,
    {
        let mut p: usize = 0;
        while p < planes
            invariant
                before.len() <= usize::MAX,
                m0 * stride <= usize::MAX,
                planes == before.len() as int / stride as int,
                planes * stride <= before.len(),
                planes <= m0,
                m0 * stride <= columns@.len(),
                data@.len() == before.len(),
                c < stride,
                p <= planes,
                forall|q: int, a: int|
                    0 <= q < planes && 0 <= a < stride ==> #[trigger] data@[at(q, stride as int, a)] == if a < c || (a
                        == c && q < p) {
                        columns@[at(a, m0 as int, q)]
                    } else {
                        before[at(q, stride as int, a)]
                    },
                forall|k: int| planes * stride <= k < before.len() ==> #[trigger] data@[k] == before[k],
            decreases planes - p,
        {
            proof {
                lemma_at_bounds(p as int, planes as int, c as int, stride as int);
                lemma_at_bounds(c as int, stride as int, p as int, m0 as int);
            }
            let value = columns[c * m0 + p];
            let ghost here = at(p as int, stride as int, c as int);
            data.set(p * stride + c, value);
            proof {
                assert forall|q: int, a: int| 0 <= q < planes && 0 <= a < stride implies #[trigger] data@[at(
                    q,
                    stride as int,
                    a,
                )] == if a < c || (a == c && q < p + 1) {
                    columns@[at(a, m0 as int, q)]
                } else {
                    before[at(q, stride as int, a)]
                } by {
                    lemma_at_bounds(q, planes as int, a, stride as int);
                    if at(q, stride as int, a) == here {
                        lemma_at_injective(q, a, p as int, c as int, planes as int, stride as int);
                    }
                }
                assert forall|k: int| planes * stride <= k < before.len() implies #[trigger] data@[k] == before[k] by {
                    assert(k != here);
                }
            }
            p = p + 1;
        }
        c = c + 1;
    }
}

/// Scattering the columns gathered from `data` into a buffer of the same
/// length writes `data`'s planes back: gather and scatter are inverse.
pub proof fn lemma_scatter_undoes_gather<T>(
    data: Seq<T>,
    columns: Seq<T>,
    before: Seq<T>,
    after: Seq<T>,
    m0: int,
    stride: int,
    zero: T,
)
    requires
        stride > 0,
        data.len() as int / stride <= m0,
        before.len() == data.len(),
        gathered(data, columns, m0, stride, data.len() as int / stride, zero),
        scattered(columns, before, after, m0, stride, data.len() as int / stride),
    ensures
        forall|k: int| 0 <= k < (data.len() as int / stride) * stride ==> #[trigger] after[k] == data[k],
{
    let planes = data.len() as int / stride;
    assert forall|k: int| 0 <= k < planes * stride implies #[trigger] after[k] == data[k] by {
        lemma_at_cover(k, planes, stride);
        let p = k / stride;
        let c = k % stride;
        assert(after[at(p, stride, c)] == columns[at(c, m0, p)]);
        assert(columns[at(c, m0, p)] == data[at(p, stride, c)]);
    }
}

} // verus!
