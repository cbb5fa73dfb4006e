//! A symmetric matrix in compressed sparse rows, assembled from its upper
//! triangle.
//!
//! Row `i` of the upper triangle lists entries `(j, value)` with `j >= i`.
//! The full matrix holds each of them in row `i` and, off the diagonal,
//! again as `(i, value)` in row `j`. Rows are filled in the order the upper
//! triangle is read: row `r` first receives the mirrored entries of the
//! rows above it, then its own.

use vstd::prelude::*;

verus! {

/// A sparse matrix: row `r` is `columns[offsets[r] .. offsets[r + 1]]`
/// with `values` alongside.
pub struct SparseRows<V> {
    pub offsets: Vec<usize>,
    pub columns: Vec<u32>,
    pub values: Vec<V>,
}

/// What entry `e` of upper row `i` puts in row `r`.
pub open spec fn piece<V>(r: int, i: int, e: (u32, V)) -> Seq<(u32, V)> {
    if i == r {
        seq![e]
    } else if e.0 == r {
        seq![(i as u32, e.1)]
    } else {
        Seq::empty()
    }
}

/// What the first `t` entries of upper row `i` put in row `r`.
pub open spec fn share<V>(up: Seq<Seq<(u32, V)>>, r: int, i: int, t: int) -> Seq<(u32, V)>
    decreases t,
{
    if t <= 0 {
        Seq::empty()
    } else {
        share(up, r, i, t - 1) + piece(r, i, up[i][t - 1])
    }
}

/// What the first `i` upper rows put in row `r`.
pub open spec fn emitted_rows<V>(up: Seq<Seq<(u32, V)>>, r: int, i: int) -> Seq<(u32, V)>
    decreases i,
{
    if i <= 0 {
        Seq::empty()
    } else {
        emitted_rows(up, r, i - 1) + share(up, r, i - 1, up[i - 1].len() as int)
    }
}

/// Row `r` of the full matrix.
pub open spec fn full_row<V>(up: Seq<Seq<(u32, V)>>, r: int) -> Seq<(u32, V)> {
    emitted_rows(up, r, up.len() as int)
}

/// Entries in the first `r` rows of the full matrix.
pub open spec fn rows_total<V>(up: Seq<Seq<(u32, V)>>, r: int) -> int
    decreases r,
{
    if r <= 0 {
        0
    } else {
        rows_total(up, r - 1) + full_row(up, r - 1).len()
    }
}

/// Every entry of upper row `i` lies on or right of the diagonal and
/// inside the matrix.
pub open spec fn upper_triangle<V>(up: Seq<Seq<(u32, V)>>) -> bool {
    forall|i: int, t: int| 0 <= i < up.len() && 0 <= t < up[i].len() ==> i <= (#[trigger] up[i][t]).0 < up.len()
}

/// `a` is a prefix of `b`.
pub open spec fn prefix_of<T>(a: Seq<T>, b: Seq<T>) -> bool {
    &&& a.len() <= b.len()
    &&& forall|k: int| 0 <= k < a.len() ==> #[trigger] a[k] == b[k]
}

proof fn lemma_prefix_trans<T>(a: Seq<T>, b: Seq<T>, c: Seq<T>)
    requires
        prefix_of(a, b),
        prefix_of(b, c),
    ensures
        prefix_of(a, c),
{
    assert forall|k: int| 0 <= k < a.len() implies #[trigger] a[k] == c[k] by {
        assert(a[k] == b[k]);
    }
}

proof fn lemma_prefix_append<T>(a: Seq<T>, b: Seq<T>)
    ensures
        prefix_of(a, a + b),
{
    assert forall|k: int| 0 <= k < a.len() implies #[trigger] a[k] == (a + b)[k] by {}
}

/// What a part of an upper row puts in row `r` is a prefix of what a longer part puts there.
proof fn lemma_share_prefix<V>(up: Seq<Seq<(u32, V)>>, r: int, i: int, t: int, u: int)
    requires
        0 <= t <= u,
    ensures
        prefix_of(share(up, r, i, t), share(up, r, i, u)),
    decreases u - t,
{
    if t < u {
        lemma_share_prefix(up, r, i, t, u - 1);
        lemma_prefix_append(share(up, r, i, u - 1), piece(r, i, up[i][u - 1]));
        lemma_prefix_trans(share(up, r, i, t), share(up, r, i, u - 1), share(up, r, i, u));
    } else {
        lemma_prefix_append(share(up, r, i, t), Seq::<(u32, V)>::empty());
        assert(share(up, r, i, t) + Seq::<(u32, V)>::empty() =~= share(up, r, i, t));
    }
}

/// What fewer upper rows put in row `r` is a prefix of what more of them put there.
proof fn lemma_emitted_prefix<V>(up: Seq<Seq<(u32, V)>>, r: int, i: int, k: int)
    requires
        0 <= i <= k,
    ensures
        prefix_of(emitted_rows(up, r, i), emitted_rows(up, r, k)),
    decreases k - i,
{
    if i < k {
        lemma_emitted_prefix(up, r, i, k - 1);
        lemma_prefix_append(emitted_rows(up, r, k - 1), share(up, r, k - 1, up[k - 1].len() as int));
        lemma_prefix_trans(emitted_rows(up, r, i), emitted_rows(up, r, k - 1), emitted_rows(up, r, k));
    } else {
        lemma_prefix_append(emitted_rows(up, r, i), Seq::<(u32, V)>::empty());
        assert(emitted_rows(up, r, i) + Seq::<(u32, V)>::empty() =~= emitted_rows(up, r, i));
    }
}

/// Row `r` as far as upper row `i` has been read up to entry `t` is a
/// prefix of the full row.
proof fn lemma_partial_row_prefix<V>(up: Seq<Seq<(u32, V)>>, r: int, i: int, t: int)
    requires
        0 <= i < up.len(),
        0 <= t <= up[i].len(),
    ensures
        prefix_of(emitted_rows(up, r, i) + share(up, r, i, t), full_row(up, r)),
{
    let a = emitted_rows(up, r, i);
    let len = up[i].len() as int;
    lemma_share_prefix(up, r, i, t, len);
    let whole = a + share(up, r, i, len);
    assert forall|k: int| 0 <= k < (a + share(up, r, i, t)).len() implies #[trigger] (a + share(up, r, i, t))[k]
        == whole[k] by {
        if k >= a.len() {
            assert(share(up, r, i, t)[k - a.len()] == share(up, r, i, len)[k - a.len()]);
        }
    }
    assert(whole == emitted_rows(up, r, i + 1));
    lemma_emitted_prefix(up, r, i + 1, up.len() as int);
    lemma_prefix_trans(a + share(up, r, i, t), whole, full_row(up, r));
}

/// `rows_total` is nondecreasing.
proof fn lemma_rows_total_monotone<V>(up: Seq<Seq<(u32, V)>>, r: int, k: int)
    requires
        0 <= r <= k,
    ensures
        rows_total(up, r) <= rows_total(up, k),
    decreases k - r,
{
    if r < k {
        lemma_rows_total_monotone(up, r, k - 1);
    }
}

/// Row `r` as far as the upper triangle has been read: rows before `i`,
/// and the first `t` entries of row `i`.
pub open spec fn partial_row<V>(up: Seq<Seq<(u32, V)>>, r: int, i: int, t: int) -> Seq<(u32, V)> {
    emitted_rows(up, r, i) + share(up, r, i, t)
}

/// The upper rows as sequences.
pub open spec fn rows_view<V>(upper: Seq<Vec<(u32, V)>>) -> Seq<Seq<(u32, V)>> {
    Seq::new(upper.len(), |i: int| upper[i]@)
}

/// Row `r`'s entries take positions `rows_total(r) .. rows_total(r + 1)`.
proof fn lemma_row_in_place<V>(up: Seq<Seq<(u32, V)>>, r: int, k: int, n: int)
    requires
        n == up.len(),
        0 <= r < n,
        0 <= k < full_row(up, r).len(),
    ensures
        rows_total(up, r) + k < rows_total(up, r + 1) <= rows_total(up, n),
        0 <= rows_total(up, r),
{
    lemma_rows_total_monotone(up, r + 1, n);
    lemma_rows_total_monotone(up, 0, r);
}

/// The columns and values of the rows read so far are in place.
spec fn filled<V>(
    up: Seq<Seq<(u32, V)>>,
    offsets: Seq<usize>,
    fill: Seq<usize>,
    columns: Seq<u32>,
    values: Seq<V>,
    i: int,
    t: int,
) -> bool {
    &&& fill.len() == up.len()
    &&& forall|r: int| 0 <= r < up.len() ==> #[trigger] fill[r] == offsets[r] + partial_row(up, r, i, t).len()
    &&& forall|r: int, k: int|
        0 <= r < up.len() && 0 <= k < partial_row(up, r, i, t).len() ==> {
            &&& columns[offsets[r] + k] == (#[trigger] partial_row(up, r, i, t)[k]).0
            &&& values[offsets[r] + k] == partial_row(up, r, i, t)[k].1
        }
}

/// The full matrix of the upper triangle `upper`: each entry `(j, v)` of
/// row `i` in row `i`, and off the diagonal `(i, v)` in row `j`; `zero`
/// only fills the buffers before they are written.
pub fn mirror_upper<V: Copy>(upper: &Vec<Vec<(u32, V)>>, zero: V) -> (m: SparseRows<V>)
    requires
        upper_triangle(rows_view(upper@)),
        upper@.len() <= u32::MAX + 1,
        rows_total(rows_view(upper@), upper@.len() as int) <= usize::MAX,
    ensures
        m.offsets@.len() == upper@.len() + 1,
        forall|r: int| 0 <= r <= upper@.len() ==> #[trigger] m.offsets@[r] == rows_total(rows_view(upper@), r),
        m.columns@.len() == rows_total(rows_view(upper@), upper@.len() as int),
        m.values@.len() == m.columns@.len(),
        forall|r: int, k: int|
            0 <= r < upper@.len() && 0 <= k < full_row(rows_view(upper@), r).len() ==> {
                &&& m.columns@[m.offsets@[r] + k] == (#[trigger] full_row(rows_view(upper@), r)[k]).0
                &&& m.values@[m.offsets@[r] + k] == full_row(rows_view(upper@), r)[k].1
            },
{
    let ghost up = rows_view(upper@);
    let n = upper.len();
    // Entries per row of the full matrix.
    let mut counts: Vec<usize> = Vec::new();
    let mut r: usize = 0;
    while r < n
        invariant
            r <= n,
            counts@.len() == r,
            forall|q: int| 0 <= q < r ==> #[trigger] counts@[q] == 0,
        decreases n - r,
    {
        counts.push(0);
        r = r + 1;
    }
    let mut i: usize = 0;
    while i < n
        invariant
            n == upper@.len(),
            up == rows_view(upper@),
            upper_triangle(up),
            rows_total(up, n as int) <= usize::MAX,
            i <= n,
            counts@.len() == n,
            forall|q: int| 0 <= q < n ==> #[trigger] counts@[q] == partial_row(up, q, i as int, 0).len(),
        decreases n - i,
    {
        let row = &upper[i];
        assert(row@ == up[i as int]);
        let mut t: usize = 0;
        while t < row.len()
            invariant
                n == upper@.len(),
                up == rows_view(upper@),
                upper_triangle(up),
                rows_total(up, n as int) <= usize::MAX,
                i < n,
                row@ == up[i as int],
                t <= row@.len(),
                counts@.len() == n,
                forall|q: int| 0 <= q < n ==> #[trigger] counts@[q] == partial_row(up, q, i as int, t as int).len(),
            decreases row@.len() - t,
        {
            let j = row[t].0 as usize;
            proof {
                assert(up[i as int][t as int] == row@[t as int]);
                assert forall|q: int| 0 <= q < n implies (#[trigger] partial_row(up, q, i as int, t + 1)).len() <= rows_total(up, n as int) by {
                    lemma_partial_row_prefix(up, q, i as int, t + 1);
                    lemma_rows_total_monotone(up, 0, q);
                    lemma_rows_total_monotone(up, q + 1, n as int);
                }
                assert(partial_row(up, i as int, i as int, t + 1).len() == partial_row(up, i as int, i as int, t as int).len() + 1);
            }
            let c = counts[i];
            counts.set(i, c + 1);
            if j != i {
                assert(partial_row(up, j as int, i as int, t + 1).len() == partial_row(up, j as int, i as int, t as int).len() + 1);
                let d = counts[j];
                counts.set(j, d + 1);
            }
            proof {
                assert forall|q: int| 0 <= q < n implies #[trigger] counts@[q] == partial_row(up, q, i as int, t + 1).len() by {
                    assert(partial_row(up, q, i as int, t + 1) =~= partial_row(up, q, i as int, t as int) + piece(q, i as int, up[i as int][t as int]));
                }
            }
            t = t + 1;
        }
        proof {
            assert forall|q: int| 0 <= q < n implies #[trigger] counts@[q] == partial_row(up, q, i + 1, 0).len() by {
                assert(partial_row(up, q, i + 1, 0) =~= partial_row(up, q, i as int, row@.len() as int));
            }
        }
        i = i + 1;
    }
    // Where each row starts.
    let mut offsets: Vec<usize> = Vec::new();
    offsets.push(0);
    let mut r: usize = 0;
    while r < n
        invariant
            n == upper@.len(),
            up == rows_view(upper@),
            rows_total(up, n as int) <= usize::MAX,
            r <= n,
            counts@.len() == n,
            forall|q: int| 0 <= q < n ==> #[trigger] counts@[q] == full_row(up, q).len(),
            offsets@.len() == r + 1,
            forall|q: int| 0 <= q <= r ==> #[trigger] offsets@[q] == rows_total(up, q),
        decreases n - r,
    {
        proof {
            lemma_rows_total_monotone(up, r + 1, n as int);
            assert(partial_row(up, r as int, n as int, 0) =~= full_row(up, r as int));
        }
        let last = offsets[r];
        offsets.push(last + counts[r]);
        r = r + 1;
    }
    let total = offsets[n];
    let mut columns: Vec<u32> = Vec::new();
    let mut values: Vec<V> = Vec::new();
    let mut k: usize = 0;
    while k < total
        invariant
            k <= total,
            columns@.len() == k,
            values@.len() == k,
        decreases total - k,
    {
        columns.push(0);
        values.push(zero);
        k = k + 1;
    }
    // Next free position of each row.
    let mut fill: Vec<usize> = Vec::new();
    let mut r: usize = 0;
    while r < n
        invariant
            r <= n,
            offsets@.len() == n + 1,
            fill@.len() == r,
            forall|q: int| 0 <= q < r ==> #[trigger] fill@[q] == offsets@[q],
        decreases n - r,
    {
        fill.push(offsets[r]);
        r = r + 1;
    }
    proof {
        assert forall|q: int| 0 <= q < n implies #[trigger] partial_row(up, q, 0, 0).len() == 0 by {
            assert(partial_row(up, q, 0, 0) =~= Seq::<(u32, V)>::empty());
        }
        assert(filled(up, offsets@, fill@, columns@, values@, 0, 0));
    }
    let mut i: usize = 0;
    while i < n
        invariant
            n == upper@.len(),
            n <= u32::MAX + 1,
            up == rows_view(upper@),
            upper_triangle(up),
            i <= n,
            offsets@.len() == n + 1,
            forall|q: int| 0 <= q <= n ==> #[trigger] offsets@[q] == rows_total(up, q),
            total == rows_total(up, n as int),
            columns@.len() == total,
            values@.len() == total,
            filled(up, offsets@, fill@, columns@, values@, i as int, 0),
        decreases n - i,
    {
        let row = &upper[i];
        assert(row@ == up[i as int]);
        let mut t: usize = 0;
        while t < row.len()
            invariant
                n == upper@.len(),
                n <= u32::MAX + 1,
                up == rows_view(upper@),
                upper_triangle(up),
                i < n,
                row@ == up[i as int],
                t <= row@.len(),
                offsets@.len() == n + 1,
                forall|q: int| 0 <= q <= n ==> #[trigger] offsets@[q] == rows_total(up, q),
                total == rows_total(up, n as int),
                columns@.len() == total,
                values@.len() == total,
                filled(up, offsets@, fill@, columns@, values@, i as int, t as int),
            decreases row@.len() - t,
        {
            let entry = row[t];
            let j = entry.0 as usize;
            let ghost e = up[i as int][t as int];
            let ghost cols0 = columns@;
            let ghost vals0 = values@;
            let ghost fill0 = fill@;
            proof {
                assert(e == entry);
                assert forall|q: int| 0 <= q < n implies #[trigger] partial_row(up, q, i as int, t + 1) == partial_row(up, q, i as int, t as int) + piece(q, i as int, e) by {
                    assert(partial_row(up, q, i as int, t + 1) =~= partial_row(up, q, i as int, t as int) + piece(q, i as int, e));
                }
                lemma_partial_row_prefix(up, i as int, i as int, t + 1);
                lemma_row_in_place(up, i as int, partial_row(up, i as int, i as int, t as int).len() as int, n as int);
            }
            let p = fill[i];
            columns.set(p, entry.0);
            values.set(p, entry.1);
            fill.set(i, p + 1);
            if j != i {
                proof {
                    lemma_partial_row_prefix(up, j as int, i as int, t + 1);
                    lemma_row_in_place(up, j as int, partial_row(up, j as int, i as int, t as int).len() as int, n as int);
                }
                let q = fill[j];
                columns.set(q, i as u32);
                values.set(q, entry.1);
                fill.set(j, q + 1);
            }
            proof {
                assert forall|r: int, k: int|
                    0 <= r < n && 0 <= k < partial_row(up, r, i as int, t + 1).len() implies {
                        &&& columns@[offsets@[r] + k] == (#[trigger] partial_row(up, r, i as int, t + 1)[k]).0
                        &&& values@[offsets@[r] + k] == partial_row(up, r, i as int, t + 1)[k].1
                    } by {
                    let old_len = partial_row(up, r, i as int, t as int).len();
                    lemma_partial_row_prefix(up, r, i as int, t + 1);
                    lemma_row_in_place(up, r, k, n as int);
                    if r != i as int {
                        if r < i {
                            lemma_rows_total_monotone(up, r + 1, i as int);
                        } else {
                            lemma_rows_total_monotone(up, i + 1, r);
                        }
                    }
                    if r != j as int && j != i {
                        if r < j {
                            lemma_rows_total_monotone(up, r + 1, j as int);
                        } else {
                            lemma_rows_total_monotone(up, j + 1, r);
                        }
                    }
                    if k < old_len {
                        assert(partial_row(up, r, i as int, t + 1)[k] == partial_row(up, r, i as int, t as int)[k]);
                    }
                }
                assert(filled(up, offsets@, fill@, columns@, values@, i as int, t + 1));
            }
            t = t + 1;
        }
        proof {
            assert forall|q: int| 0 <= q < n implies #[trigger] partial_row(up, q, i + 1, 0) == partial_row(up, q, i as int, row@.len() as int) by {
                assert(partial_row(up, q, i + 1, 0) =~= partial_row(up, q, i as int, row@.len() as int));
            }
            assert(filled(up, offsets@, fill@, columns@, values@, i + 1, 0));
        }
        i = i + 1;
    }
    proof {
        assert forall|r: int, k: int|
            0 <= r < n && 0 <= k < full_row(up, r).len() implies {
                &&& columns@[offsets@[r] + k] == (#[trigger] full_row(up, r)[k]).0
                &&& values@[offsets@[r] + k] == full_row(up, r)[k].1
            } by {
            assert(partial_row(up, r, n as int, 0) =~= full_row(up, r));
            assert(partial_row(up, r, n as int, 0)[k] == full_row(up, r)[k]);
        }
    }
    SparseRows { offsets, columns, values }
}

/// `x` is an entry of row `r` of the symmetric closure of `up`: an entry
/// of upper row `r` itself, or an entry `(r, v)` of an upper row `i`,
/// mirrored as `(i, v)`.
pub open spec fn from_upper<V>(up: Seq<Seq<(u32, V)>>, r: int, x: (u32, V)) -> bool {
    exists|i: int, t: int|
        0 <= i < up.len() && 0 <= t < up[i].len() && ((i == r && #[trigger] up[i][t] == x) || (up[i][t].0 == r && x == (
            i as u32,
            up[i][t].1,
        )))
}

/// Every entry of `s` belongs to row `r` of the symmetric closure.
pub open spec fn all_from_upper<V>(up: Seq<Seq<(u32, V)>>, r: int, s: Seq<(u32, V)>) -> bool {
    forall|k: int| 0 <= k < s.len() ==> from_upper(up, r, #[trigger] s[k])
}

proof fn lemma_all_from_upper_append<V>(up: Seq<Seq<(u32, V)>>, r: int, a: Seq<(u32, V)>, b: Seq<(u32, V)>)
    requires
        all_from_upper(up, r, a),
        all_from_upper(up, r, b),
    ensures
        all_from_upper(up, r, a + b),
{
    assert forall|k: int| 0 <= k < (a + b).len() implies from_upper(up, r, #[trigger] (a + b)[k]) by {
        if k < a.len() {
            assert((a + b)[k] == a[k]);
        } else {
            assert((a + b)[k] == b[k - a.len()]);
        }
    }
}

proof fn lemma_share_from_upper<V>(up: Seq<Seq<(u32, V)>>, r: int, i: int, t: int)
    requires
        0 <= i < up.len(),
        t <= up[i].len(),
    ensures
        all_from_upper(up, r, share(up, r, i, t)),
    decreases t,
{
    if t > 0 {
        lemma_share_from_upper(up, r, i, t - 1);
        let e = up[i][t - 1];
        let p = piece(r, i, e);
        assert forall|k: int| 0 <= k < p.len() implies from_upper(up, r, #[trigger] p[k]) by {
            assert(up[i][t - 1] == e);
        }
        lemma_all_from_upper_append(up, r, share(up, r, i, t - 1), p);
    }
}

proof fn lemma_emitted_from_upper<V>(up: Seq<Seq<(u32, V)>>, r: int, i: int)
    requires
        i <= up.len(),
    ensures
        all_from_upper(up, r, emitted_rows(up, r, i)),
    decreases i,
{
    if i > 0 {
        lemma_emitted_from_upper(up, r, i - 1);
        lemma_share_from_upper(up, r, i - 1, up[i - 1].len() as int);
        lemma_all_from_upper_append(up, r, emitted_rows(up, r, i - 1), share(up, r, i - 1, up[i - 1].len() as int));
    }
}

/// The full matrix holds nothing but the upper triangle and its mirror
/// image: every entry of row `r` is an entry of upper row `r`, or an
/// entry `(r, v)` of an upper row `i` mirrored as `(i, v)`.
pub proof fn lemma_full_rows_come_from_upper<V>(up: Seq<Seq<(u32, V)>>, r: int, k: int)
    requires
        0 <= k < full_row(up, r).len(),
    ensures
        from_upper(up, r, full_row(up, r)[k]),
{
    lemma_emitted_from_upper(up, r, up.len() as int);
}

/// The full matrix is symmetric: entry `(j, v)` of upper row `i` is in
/// row `i`, and `(i, v)` is in row `j`.
pub proof fn lemma_full_rows_mirror<V>(up: Seq<Seq<(u32, V)>>, i: int, t: int)
    requires
        upper_triangle(up),
        up.len() <= u32::MAX + 1,
        0 <= i < up.len(),
        0 <= t < up[i].len(),
    ensures
        full_row(up, i).contains(up[i][t]),
        full_row(up, up[i][t].0 as int).contains((i as u32, up[i][t].1)),
{
    let e = up[i][t];
    let j = e.0 as int;
    assert(i <= j < up.len());
    // Row i gains e itself.
    let a = partial_row(up, i, i, t + 1);
    assert(a =~= partial_row(up, i, i, t) + piece(i, i, e));
    lemma_partial_row_prefix(up, i, i, t + 1);
    assert(a[a.len() - 1] == e);
    assert(full_row(up, i)[a.len() - 1] == e);
    // Row j gains (i, v).
    let b = partial_row(up, j, i, t + 1);
    assert(b =~= partial_row(up, j, i, t) + piece(j, i, e));
    lemma_partial_row_prefix(up, j, i, t + 1);
    if j == i {
        assert(e == (i as u32, e.1));
    }
    assert(b[b.len() - 1] == (i as u32, e.1));
    assert(full_row(up, j)[b.len() - 1] == (i as u32, e.1));
}

} // verus!
