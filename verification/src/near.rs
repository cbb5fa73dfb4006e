//! Candidate near-field pairs by binning.
//!
//! Each filament's bounding box covers a range of grid cells; every cell
//! (bin) lists the filaments whose range covers it. The candidates of
//! filament `i` are the filaments `j >= i` listed in some bin of `i`'s grown
//! range, ascending and without repeats: exactly those whose cell range
//! meets `i`'s grown range. Which cells a box covers, and which candidates
//! are truly near, are measured by the caller.

use vstd::prelude::*;

use crate::grid::{index_of, lemma_point_of_index, GridShape};

verus! {

/// The cells `first[a] ..= last[a]` along each axis `a`.
#[derive(Clone, Copy, Debug, PartialEq, Eq)]
pub struct CellRange {
    pub first: [usize; 3],
    pub last: [usize; 3],
}

/// The intervals `a_lo ..= a_hi` and `b_lo ..= b_hi` share a cell.
pub open spec fn meet(a_lo: int, a_hi: int, b_lo: int, b_hi: int) -> bool {
    &&& a_lo <= a_hi
    &&& b_lo <= b_hi
    &&& a_lo <= b_hi
    &&& b_lo <= a_hi
}

/// The boxes `alo ..= ahi` and `blo ..= bhi` share a cell.
pub open spec fn meet3(alo: (int, int, int), ahi: (int, int, int), blo: (int, int, int), bhi: (int, int, int)) -> bool {
    &&& meet(alo.0, ahi.0, blo.0, bhi.0)
    &&& meet(alo.1, ahi.1, blo.1, bhi.1)
    &&& meet(alo.2, ahi.2, blo.2, bhi.2)
}

pub open spec fn lo_of(r: CellRange) -> (int, int, int) {
    (r.first[0] as int, r.first[1] as int, r.first[2] as int)
}

pub open spec fn hi_of(r: CellRange) -> (int, int, int) {
    (r.last[0] as int, r.last[1] as int, r.last[2] as int)
}

/// Two cell ranges share a cell.
pub open spec fn overlaps(a: CellRange, b: CellRange) -> bool {
    meet3(lo_of(a), hi_of(a), lo_of(b), hi_of(b))
}

/// Range `r` covers cell `p`.
pub open spec fn covers(r: CellRange, p: (int, int, int)) -> bool {
    meet3(p, p, lo_of(r), hi_of(r))
}

/// Every cell of `r` lies in the grid.
pub open spec fn within(shape: GridShape, r: CellRange) -> bool {
    &&& r.last[0] < shape.dims[0]
    &&& r.last[1] < shape.dims[1]
    &&& r.last[2] < shape.dims[2]
}

/// Cell `p` lies in the grid.
pub open spec fn in_shape(shape: GridShape, p: (int, int, int)) -> bool {
    &&& 0 <= p.0 < shape.dims[0]
    &&& 0 <= p.1 < shape.dims[1]
    &&& 0 <= p.2 < shape.dims[2]
}

/// Bin of cell `p`.
pub open spec fn bin_of(shape: GridShape, p: (int, int, int)) -> int {
    index_of(shape.dims[1] as int, shape.dims[2] as int, p.0, p.1, p.2)
}

/// The box `alo ..= ahi` meets a cell of `q` that a scan of `q` — axis 0
/// outermost, axis 2 innermost — has passed on reaching cell `(i, j, k)`.
pub open spec fn scanned(alo: (int, int, int), ahi: (int, int, int), q: CellRange, i: int, j: int, k: int) -> bool {
    let f = lo_of(q);
    let l = hi_of(q);
    ||| meet3(alo, ahi, f, (i - 1, l.1, l.2))
    ||| meet3(alo, ahi, (i, f.1, f.2), (i, j - 1, l.2))
    ||| meet3(alo, ahi, (i, j, f.2), (i, j, k - 1))
}

/// The scan starts having passed nothing.
proof fn lemma_scan_start(alo: (int, int, int), ahi: (int, int, int), q: CellRange)
    ensures
        !scanned(alo, ahi, q, lo_of(q).0, lo_of(q).1, lo_of(q).2),
{
}

/// One more cell along axis 2.
proof fn lemma_scan_step(alo: (int, int, int), ahi: (int, int, int), q: CellRange, i: int, j: int, k: int)
    requires
        lo_of(q).2 <= k,
    ensures
        scanned(alo, ahi, q, i, j, k + 1) == (scanned(alo, ahi, q, i, j, k) || meet3(alo, ahi, (i, j, k), (i, j, k))),
{
}

/// The end of a line along axis 2 is the start of the next.
proof fn lemma_scan_line(alo: (int, int, int), ahi: (int, int, int), q: CellRange, i: int, j: int, k: int)
    requires
        lo_of(q).1 <= j,
        k == lo_of(q).2 || k == hi_of(q).2 + 1,
        hi_of(q).2 < k,
    ensures
        scanned(alo, ahi, q, i, j, k) == scanned(alo, ahi, q, i, j + 1, lo_of(q).2),
{
}

/// The end of a plane at fixed axis-0 cell is the start of the next.
proof fn lemma_scan_plane(alo: (int, int, int), ahi: (int, int, int), q: CellRange, i: int, j: int)
    requires
        lo_of(q).0 <= i,
        j == lo_of(q).1 || j == hi_of(q).1 + 1,
        hi_of(q).1 < j,
    ensures
        scanned(alo, ahi, q, i, j, lo_of(q).2) == scanned(alo, ahi, q, i + 1, lo_of(q).1, lo_of(q).2),
{
}

/// The finished scan has passed every cell of `q`.
proof fn lemma_scan_end(alo: (int, int, int), ahi: (int, int, int), q: CellRange, i: int)
    requires
        i == lo_of(q).0 || i == hi_of(q).0 + 1,
        hi_of(q).0 < i,
    ensures
        scanned(alo, ahi, q, i, lo_of(q).1, lo_of(q).2) == meet3(alo, ahi, lo_of(q), hi_of(q)),
{
}

/// Different cells of the grid have different bins, each below the
/// number of bins.
proof fn lemma_bins_distinct(shape: GridShape, p: (int, int, int), c: (int, int, int))
    requires
        in_shape(shape, p),
        in_shape(shape, c),
    ensures
        bin_of(shape, p) == bin_of(shape, c) ==> p == c,
        0 <= bin_of(shape, p) < shape.point_count(),
        p.0 * shape.dims[1] + p.1 <= bin_of(shape, p),
{
    let d0 = shape.dims[0] as int;
    let d1 = shape.dims[1] as int;
    let d2 = shape.dims[2] as int;
    lemma_point_of_index(d1, d2, p.0, p.1, p.2);
    lemma_point_of_index(d1, d2, c.0, c.1, c.2);
    let row = p.0 * d1 + p.1;
    assert(0 <= row <= d0 * d1 - 1) by (nonlinear_arith)
        requires
            0 <= p.0 < d0,
            0 <= p.1 < d1,
            row == p.0 * d1 + p.1,
    ;
    assert(row <= row * d2) by (nonlinear_arith)
        requires
            0 <= row,
            1 <= d2,
    ;
    assert(row * d2 + p.2 < d0 * d1 * d2) by (nonlinear_arith)
        requires
            0 <= row <= d0 * d1 - 1,
            0 <= p.2 < d2,
    ;
}

/// What the bins hold while filament `e` (range `r`) is binned, the scan
/// of `r` having reached cell `(i, j, k)`: bins list only filaments that
/// cover them, every earlier filament is listed in the bins it covers,
/// and filament `e` in those its scan has passed.
spec fn bins_hold(
    shape: GridShape,
    boxes: Seq<CellRange>,
    bins: Seq<Vec<u32>>,
    e: int,
    r: CellRange,
    i: int,
    j: int,
    k: int,
) -> bool {
    &&& bins.len() == shape.point_count()
    &&& forall|p: (int, int, int), t: int|
        in_shape(shape, p) && 0 <= t < bins[bin_of(shape, p)]@.len() ==> {
            let v = #[trigger] bins[bin_of(shape, p)]@[t] as int;
            &&& 0 <= v < boxes.len()
            &&& (v < e && covers(boxes[v], p)) || (v == e && scanned(p, p, r, i, j, k))
        }
    &&& forall|p: (int, int, int), v: u32|
        in_shape(shape, p) && v < e && covers(boxes[v as int], p) ==> #[trigger] bins[bin_of(
            shape,
            p,
        )]@.contains(v)
    &&& forall|p: (int, int, int)|
        in_shape(shape, p) && scanned(p, p, r, i, j, k) ==> #[trigger] bins[bin_of(shape, p)]@.contains(
            e as u32,
        )
}

/// Binning filament `e` into the bin of cell `c` moves its scan one cell on.
proof fn lemma_bin_push(
    shape: GridShape,
    boxes: Seq<CellRange>,
    before: Seq<Vec<u32>>,
    after: Seq<Vec<u32>>,
    e: int,
    r: CellRange,
    c: (int, int, int),
)
    requires
        bins_hold(shape, boxes, before, e, r, c.0, c.1, c.2),
        in_shape(shape, c),
        covers(r, c),
        0 <= e < boxes.len(),
        e <= u32::MAX,
        after.len() == before.len(),
        after[bin_of(shape, c)]@ == before[bin_of(shape, c)]@.push(e as u32),
        forall|b: int| 0 <= b < before.len() && b != bin_of(shape, c) ==> after[b] == before[b],
    ensures
        bins_hold(shape, boxes, after, e, r, c.0, c.1, c.2 + 1),
{
    let bc = bin_of(shape, c);
    assert forall|p: (int, int, int), t: int|
        in_shape(shape, p) && 0 <= t < after[bin_of(shape, p)]@.len() implies {
            let v = #[trigger] after[bin_of(shape, p)]@[t] as int;
            &&& 0 <= v < boxes.len()
            &&& (v < e && covers(boxes[v], p)) || (v == e && scanned(p, p, r, c.0, c.1, c.2 + 1))
        } by {
        lemma_bins_distinct(shape, p, c);
        lemma_scan_step(p, p, r, c.0, c.1, c.2);
        if bin_of(shape, p) != bc {
            assert(after[bin_of(shape, p)] == before[bin_of(shape, p)]);
        } else if t < before[bc]@.len() {
            assert(after[bc]@[t] == before[bc]@[t]);
        }
    }
    assert forall|p: (int, int, int), v: u32|
        in_shape(shape, p) && v < e && covers(boxes[v as int], p) implies #[trigger] after[bin_of(
            shape,
            p,
        )]@.contains(v) by {
        lemma_bins_distinct(shape, p, c);
        assert(before[bin_of(shape, p)]@.contains(v));
        if bin_of(shape, p) == bc {
            let t = choose|t: int| 0 <= t < before[bc]@.len() && before[bc]@[t] == v;
            assert(after[bc]@[t] == v);
        } else {
            assert(after[bin_of(shape, p)] == before[bin_of(shape, p)]);
        }
    }
    assert forall|p: (int, int, int)|
        in_shape(shape, p) && scanned(p, p, r, c.0, c.1, c.2 + 1) implies #[trigger] after[bin_of(
            shape,
            p,
        )]@.contains(e as u32) by {
        lemma_bins_distinct(shape, p, c);
        lemma_scan_step(p, p, r, c.0, c.1, c.2);
        if bin_of(shape, p) == bc {
            assert(after[bc]@[before[bc]@.len() as int] == e as u32);
        } else {
            assert(after[bin_of(shape, p)] == before[bin_of(shape, p)]);
            assert(scanned(p, p, r, c.0, c.1, c.2));
        }
    }
}

/// The bins of every grid cell, each listing the filaments whose range
/// covers it, ascending.
fn fill_bins(shape: GridShape, boxes: &[CellRange]) -> (bins: Vec<Vec<u32>>)
    requires
        shape.dims[0] * shape.dims[1] <= usize::MAX,
        shape.point_count() <= usize::MAX,
        boxes@.len() <= u32::MAX + 1,
        forall|e: int| 0 <= e < boxes@.len() ==> within(shape, #[trigger] boxes@[e]),
    ensures
        bins_hold(shape, boxes@, bins@, boxes@.len() as int, boxes@[0], 0, 0, 0),
{
    let total = shape.len();
    let mut bins: Vec<Vec<u32>> = Vec::new();
    let mut b: usize = 0;
    while b < total
        invariant
            total == shape.point_count(),
            b <= total,
            bins@.len() == b,
            forall|x: int| 0 <= x < b ==> (#[trigger] bins@[x])@.len() == 0,
        decreases total - b,
    {
        bins.push(Vec::new());
        b = b + 1;
    }
    proof {
        assert forall|p: (int, int, int)|
            in_shape(shape, p) implies (#[trigger] bins@[bin_of(shape, p)])@.len() == 0 by {
            lemma_bins_distinct(shape, p, p);
        }
        assert forall|p: (int, int, int), v: u32| in_shape(shape, p) && v < 0int && covers(boxes@[v as int], p) implies #[trigger] bins@[bin_of(shape, p)]@.contains(v) by {
        }
        assert(bins_hold(shape, boxes@, bins@, 0, boxes@[0], 0, 0, 0));
    }
    let n = boxes.len();
    let mut e: usize = 0;
    while e < n
        invariant
            n == boxes@.len(),
            n <= u32::MAX + 1,
            e <= n,
            shape.dims[0] * shape.dims[1] <= usize::MAX,
            shape.point_count() <= usize::MAX,
            forall|x: int| 0 <= x < boxes@.len() ==> within(shape, #[trigger] boxes@[x]),
            bins_hold(shape, boxes@, bins@, e as int, boxes@[0], 0, 0, 0),
        decreases n - e,
    {
        let r = boxes[e];
        assert(within(shape, r));
        proof {
            assert forall|p: (int, int, int)| !scanned(p, p, r, lo_of(r).0, lo_of(r).1, lo_of(r).2) by {
                lemma_scan_start(p, p, r);
            }
            assert(bins_hold(shape, boxes@, bins@, e as int, r, lo_of(r).0, lo_of(r).1, lo_of(r).2));
        }
        let mut i = r.first[0];
        while i <= r.last[0]
            invariant
                n == boxes@.len(),
                n <= u32::MAX + 1,
                e < n,
                r == boxes@[e as int],
                within(shape, r),
                shape.dims[0] * shape.dims[1] <= usize::MAX,
                shape.point_count() <= usize::MAX,
                r.first[0] <= i,
                i == r.first[0] || i <= r.last[0] + 1,
                bins_hold(shape, boxes@, bins@, e as int, r, i as int, lo_of(r).1, lo_of(r).2),
            decreases r.last[0] + 1 - i,
        {
            let mut j = r.first[1];
            while j <= r.last[1]
                invariant
                    n == boxes@.len(),
                    n <= u32::MAX + 1,
                    e < n,
                    r == boxes@[e as int],
                    within(shape, r),
                    shape.dims[0] * shape.dims[1] <= usize::MAX,
                    shape.point_count() <= usize::MAX,
                    r.first[0] <= i <= r.last[0],
                    r.first[1] <= j,
                    j == r.first[1] || j <= r.last[1] + 1,
                    bins_hold(shape, boxes@, bins@, e as int, r, i as int, j as int, lo_of(r).2),
                decreases r.last[1] + 1 - j,
            {
                let mut k = r.first[2];
                while k <= r.last[2]
                    invariant
                        n == boxes@.len(),
                        n <= u32::MAX + 1,
                        e < n,
                        r == boxes@[e as int],
                        within(shape, r),
                        shape.dims[0] * shape.dims[1] <= usize::MAX,
                        shape.point_count() <= usize::MAX,
                        r.first[0] <= i <= r.last[0],
                        r.first[1] <= j <= r.last[1],
                        r.first[2] <= k,
                        k == r.first[2] || k <= r.last[2] + 1,
                        bins_hold(shape, boxes@, bins@, e as int, r, i as int, j as int, k as int),
                    decreases r.last[2] + 1 - k,
                {
                    let ghost c = (i as int, j as int, k as int);
                    proof {
                        lemma_bins_distinct(shape, c, c);
                    }
                    let bin = shape.index([i, j, k]);
                    assert(bin == bin_of(shape, c));
                    let ghost before = bins@;
                    bins[bin].push(e as u32);
                    proof {
                        lemma_bin_push(shape, boxes@, before, bins@, e as int, r, c);
                    }
                    k = k + 1;
                }
                proof {
                    assert forall|p: (int, int, int)|
                        #[trigger] scanned(p, p, r, i as int, j as int, k as int) == scanned(p, p, r, i as int, j + 1, lo_of(r).2) by {
                        lemma_scan_line(p, p, r, i as int, j as int, k as int);
                    }
                    assert(bins_hold(shape, boxes@, bins@, e as int, r, i as int, j + 1, lo_of(r).2));
                }
                j = j + 1;
            }
            proof {
                assert forall|p: (int, int, int)|
                    #[trigger] scanned(p, p, r, i as int, j as int, lo_of(r).2) == scanned(p, p, r, i + 1, lo_of(r).1, lo_of(r).2) by {
                    lemma_scan_plane(p, p, r, i as int, j as int);
                }
                assert(bins_hold(shape, boxes@, bins@, e as int, r, i + 1, lo_of(r).1, lo_of(r).2));
            }
            i = i + 1;
        }
        proof {
            assert forall|p: (int, int, int)|
                #[trigger] scanned(p, p, r, i as int, lo_of(r).1, lo_of(r).2) == covers(r, p) by {
                lemma_scan_end(p, p, r, i as int);
            }
            assert forall|p: (int, int, int), v: u32|
                in_shape(shape, p) && v < e + 1 && covers(boxes@[v as int], p) implies #[trigger] bins@[bin_of(
                    shape,
                    p,
                )]@.contains(v) by {
                if v == e {
                    assert(boxes@[v as int] == r);
                    assert(scanned(p, p, r, i as int, lo_of(r).1, lo_of(r).2));
                    assert(bins@[bin_of(shape, p)]@.contains(e as u32));
                    assert(e as u32 == v);
                }
            }
            assert(bins_hold(shape, boxes@, bins@, e + 1, boxes@[0], 0, 0, 0));
        }
        e = e + 1;
    }
    bins
}

/// `s` is strictly increasing.
pub open spec fn increasing(s: Seq<u32>) -> bool {
    forall|a: int, b: int| 0 <= a < b < s.len() ==> s[a] < s[b]
}

/// `s` lists, ascending, exactly the filaments `x >= index` whose range
/// meets `q`.
pub open spec fn candidates(boxes: Seq<CellRange>, q: CellRange, index: int, s: Seq<u32>) -> bool {
    &&& increasing(s)
    &&& forall|t: int|
        0 <= t < s.len() ==> index <= #[trigger] s[t] < boxes.len() && overlaps(boxes[s[t] as int], q)
    &&& forall|x: u32| index <= x < boxes.len() && overlaps(boxes[x as int], q) ==> #[trigger] s.contains(x)
}

/// Adds `x` to the ascending list `found` unless it is there already.
fn insert_sorted(found: &mut Vec<u32>, x: u32)
    requires
        increasing(old(found)@),
    ensures
        increasing(final(found)@),
        forall|y: u32| #[trigger] final(found)@.contains(y) <==> (old(found)@.contains(y) || y == x),
{
    let mut pos: usize = 0;
    while pos < found.len() && found[pos] < x
        invariant
            pos <= found@.len(),
            forall|a: int| 0 <= a < pos ==> found@[a] < x,
        decreases found@.len() - pos,
    {
        pos = pos + 1;
    }
    if pos < found.len() && found[pos] == x {
        return;
    }
    let ghost before = found@;
    found.insert(pos, x);
    proof {
        assert forall|a: int| 0 <= a < found@.len() implies #[trigger] found@[a] == if a < pos {
            before[a]
        } else if a == pos {
            x
        } else {
            before[a - 1]
        } by {}
        assert forall|y: u32| #[trigger] found@.contains(y) <==> (before.contains(y) || y == x) by {
            if before.contains(y) {
                let a = choose|a: int| 0 <= a < before.len() && before[a] == y;
                if a < pos {
                    assert(found@[a] == y);
                } else {
                    assert(found@[a + 1] == y);
                }
            }
            if y == x {
                assert(found@[pos as int] == y);
            }
        }
    }
}

/// What `found` holds while the candidates of `index` are gathered, the
/// scan of its grown range `q` having reached cell `(i, j, k)`.
spec fn gathered(boxes: Seq<CellRange>, q: CellRange, index: int, found: Seq<u32>, i: int, j: int, k: int) -> bool {
    &&& increasing(found)
    &&& forall|t: int|
        0 <= t < found.len() ==> index <= #[trigger] found[t] < boxes.len() && scanned(
            lo_of(boxes[found[t] as int]),
            hi_of(boxes[found[t] as int]),
            q,
            i,
            j,
            k,
        )
    &&& forall|x: u32|
        index <= x < boxes.len() && scanned(lo_of(boxes[x as int]), hi_of(boxes[x as int]), q, i, j, k)
            ==> #[trigger] found.contains(x)
}

/// The candidates of filament `index`, whose grown range is `q`.
fn candidates_of(shape: GridShape, boxes: &[CellRange], bins: &Vec<Vec<u32>>, q: CellRange, index: usize) -> (found: Vec<u32>)
    requires
        bins_hold(shape, boxes@, bins@, boxes@.len() as int, boxes@[0], 0, 0, 0),
        shape.dims[0] * shape.dims[1] <= usize::MAX,
        shape.point_count() <= usize::MAX,
        within(shape, q),
        boxes@.len() <= u32::MAX + 1,
    ensures
        candidates(boxes@, q, index as int, found@),
{
    let ghost n = boxes@.len() as int;
    let mut found: Vec<u32> = Vec::new();
    proof {
        assert forall|x: u32| !scanned(lo_of(boxes@[x as int]), hi_of(boxes@[x as int]), q, lo_of(q).0, lo_of(q).1, lo_of(q).2) by {
            lemma_scan_start(lo_of(boxes@[x as int]), hi_of(boxes@[x as int]), q);
        }
    }
    let mut i = q.first[0];
    while i <= q.last[0]
        invariant
            bins_hold(shape, boxes@, bins@, n, boxes@[0], 0, 0, 0),
            n == boxes@.len(),
            shape.dims[0] * shape.dims[1] <= usize::MAX,
            shape.point_count() <= usize::MAX,
            within(shape, q),
            q.first[0] <= i,
            i == q.first[0] || i <= q.last[0] + 1,
            gathered(boxes@, q, index as int, found@, i as int, lo_of(q).1, lo_of(q).2),
        decreases q.last[0] + 1 - i,
    {
        let mut j = q.first[1];
        while j <= q.last[1]
            invariant
                bins_hold(shape, boxes@, bins@, n, boxes@[0], 0, 0, 0),
                n == boxes@.len(),
                shape.dims[0] * shape.dims[1] <= usize::MAX,
                shape.point_count() <= usize::MAX,
                within(shape, q),
                q.first[0] <= i <= q.last[0],
                q.first[1] <= j,
                j == q.first[1] || j <= q.last[1] + 1,
                gathered(boxes@, q, index as int, found@, i as int, j as int, lo_of(q).2),
            decreases q.last[1] + 1 - j,
        {
            let mut k = q.first[2];
            while k <= q.last[2]
                invariant
                    bins_hold(shape, boxes@, bins@, n, boxes@[0], 0, 0, 0),
                    n == boxes@.len(),
                    shape.dims[0] * shape.dims[1] <= usize::MAX,
                    shape.point_count() <= usize::MAX,
                    within(shape, q),
                    q.first[0] <= i <= q.last[0],
                    q.first[1] <= j <= q.last[1],
                    q.first[2] <= k,
                    k == q.first[2] || k <= q.last[2] + 1,
                    gathered(boxes@, q, index as int, found@, i as int, j as int, k as int),
                decreases q.last[2] + 1 - k,
            {
                let ghost c = (i as int, j as int, k as int);
                proof {
                    lemma_bins_distinct(shape, c, c);
                }
                let b = shape.index([i, j, k]);
                assert(b == bin_of(shape, c));
                let bin = &bins[b];
                let mut t: usize = 0;
                while t < bin.len()
                    invariant
                        bins_hold(shape, boxes@, bins@, n, boxes@[0], 0, 0, 0),
                        n == boxes@.len(),
                        in_shape(shape, c),
                        b == bin_of(shape, c),
                        bin@ == bins@[b as int]@,
                        t <= bin@.len(),
                        increasing(found@),
                        forall|u: int|
                            0 <= u < found@.len() ==> index <= #[trigger] found@[u] < boxes@.len() && (scanned(
                                lo_of(boxes@[found@[u] as int]),
                                hi_of(boxes@[found@[u] as int]),
                                q,
                                c.0,
                                c.1,
                                c.2,
                            ) || covers(boxes@[found@[u] as int], c)),
                        forall|x: u32|
                            index <= x < boxes@.len() && scanned(lo_of(boxes@[x as int]), hi_of(boxes@[x as int]), q, c.0, c.1, c.2)
                                ==> #[trigger] found@.contains(x),
                        forall|u: int| 0 <= u < t && index <= bin@[u] ==> found@.contains(#[trigger] bin@[u]),
                    decreases bin@.len() - t,
                {
                    let other = bin[t];
                    assert(bins@[bin_of(shape, c)]@[t as int] == other);
                    if other as usize >= index {
                        let ghost before = found@;
                        insert_sorted(&mut found, other);
                        proof {
                            assert forall|u: int| 0 <= u < t + 1 && index <= bin@[u] implies found@.contains(#[trigger] bin@[u]) by {
                                if u < t {
                                    assert(before.contains(bin@[u]));
                                }
                            }
                            assert forall|u: int| 0 <= u < found@.len() implies index <= #[trigger] found@[u] < boxes@.len() && (scanned(
                                lo_of(boxes@[found@[u] as int]),
                                hi_of(boxes@[found@[u] as int]),
                                q,
                                c.0,
                                c.1,
                                c.2,
                            ) || covers(boxes@[found@[u] as int], c)) by {
                                assert(found@.contains(found@[u]));
                                if found@[u] != other {
                                    let a = choose|a: int| 0 <= a < before.len() && before[a] == found@[u];
                                }
                            }
                        }
                    }
                    t = t + 1;
                }
                proof {
                    assert forall|x: u32|
                        index <= x < boxes@.len() && scanned(lo_of(boxes@[x as int]), hi_of(boxes@[x as int]), q, c.0, c.1, c.2 + 1)
                            implies #[trigger] found@.contains(x) by {
                        lemma_scan_step(lo_of(boxes@[x as int]), hi_of(boxes@[x as int]), q, c.0, c.1, c.2);
                        if !scanned(lo_of(boxes@[x as int]), hi_of(boxes@[x as int]), q, c.0, c.1, c.2) {
                            assert(covers(boxes@[x as int], c));
                            assert(bins@[bin_of(shape, c)]@.contains(x));
                            let u = choose|u: int| 0 <= u < bin@.len() && bin@[u] == x;
                            assert(found@.contains(bin@[u]));
                        }
                    }
                    assert forall|u: int| 0 <= u < found@.len() implies index <= #[trigger] found@[u] < boxes@.len() && scanned(
                        lo_of(boxes@[found@[u] as int]),
                        hi_of(boxes@[found@[u] as int]),
                        q,
                        c.0,
                        c.1,
                        c.2 + 1,
                    ) by {
                        lemma_scan_step(lo_of(boxes@[found@[u] as int]), hi_of(boxes@[found@[u] as int]), q, c.0, c.1, c.2);
                    }
                }
                k = k + 1;
            }
            proof {
                assert forall|x: u32|
                    #[trigger] scanned(lo_of(boxes@[x as int]), hi_of(boxes@[x as int]), q, i as int, j as int, k as int)
                        == scanned(lo_of(boxes@[x as int]), hi_of(boxes@[x as int]), q, i as int, j + 1, lo_of(q).2) by {
                    lemma_scan_line(lo_of(boxes@[x as int]), hi_of(boxes@[x as int]), q, i as int, j as int, k as int);
                }
                assert forall|u: int| 0 <= u < found@.len() implies scanned(
                    lo_of(boxes@[found@[u] as int]),
                    hi_of(boxes@[found@[u] as int]),
                    q,
                    i as int,
                    j + 1,
                    lo_of(q).2,
                ) by {
                    let x = found@[u];
                    assert(scanned(lo_of(boxes@[x as int]), hi_of(boxes@[x as int]), q, i as int, j as int, k as int));
                }
            }
            j = j + 1;
        }
        proof {
            assert forall|x: u32|
                #[trigger] scanned(lo_of(boxes@[x as int]), hi_of(boxes@[x as int]), q, i as int, j as int, lo_of(q).2)
                    == scanned(lo_of(boxes@[x as int]), hi_of(boxes@[x as int]), q, i + 1, lo_of(q).1, lo_of(q).2) by {
                lemma_scan_plane(lo_of(boxes@[x as int]), hi_of(boxes@[x as int]), q, i as int, j as int);
            }
            assert forall|u: int| 0 <= u < found@.len() implies scanned(
                lo_of(boxes@[found@[u] as int]),
                hi_of(boxes@[found@[u] as int]),
                q,
                i + 1,
                lo_of(q).1,
                lo_of(q).2,
            ) by {
                let x = found@[u];
                assert(scanned(lo_of(boxes@[x as int]), hi_of(boxes@[x as int]), q, i as int, j as int, lo_of(q).2));
            }
        }
        i = i + 1;
    }
    proof {
        assert forall|x: u32|
            #[trigger] scanned(lo_of(boxes@[x as int]), hi_of(boxes@[x as int]), q, i as int, lo_of(q).1, lo_of(q).2)
                == overlaps(boxes@[x as int], q) by {
            lemma_scan_end(lo_of(boxes@[x as int]), hi_of(boxes@[x as int]), q, i as int);
        }
        assert forall|u: int| 0 <= u < found@.len() implies index <= #[trigger] found@[u] < boxes@.len() && overlaps(
            boxes@[found@[u] as int],
            q,
        ) by {
            let x = found@[u];
            assert(scanned(lo_of(boxes@[x as int]), hi_of(boxes@[x as int]), q, i as int, lo_of(q).1, lo_of(q).2));
        }
        assert forall|x: u32| index <= x < boxes@.len() && overlaps(boxes@[x as int], q) implies #[trigger] found@.contains(x) by {
            assert(scanned(lo_of(boxes@[x as int]), hi_of(boxes@[x as int]), q, i as int, lo_of(q).1, lo_of(q).2));
        }
    }
    found
}

/// For each filament `i`, the filaments `j >= i` (including `i` itself
/// wherever its own range meets its grown range) whose cell range `boxes[j]`
/// meets `i`'s grown range `queries[i]`, ascending.
pub fn near_candidates(shape: GridShape, boxes: &[CellRange], queries: &[CellRange]) -> (r: Vec<Vec<u32>>)
    requires
        shape.dims[0] * shape.dims[1] <= usize::MAX,
        shape.point_count() <= usize::MAX,
        boxes@.len() <= u32::MAX + 1,
        queries@.len() == boxes@.len(),
        forall|e: int| 0 <= e < boxes@.len() ==> within(shape, #[trigger] boxes@[e]),
        forall|e: int| 0 <= e < queries@.len() ==> within(shape, #[trigger] queries@[e]),
    ensures
        r@.len() == boxes@.len(),
        forall|i: int| 0 <= i < r@.len() ==> candidates(boxes@, queries@[i], i, #[trigger] r@[i]@),
{
    let n = boxes.len();
    let mut result: Vec<Vec<u32>> = Vec::new();
    if n == 0 {
        return result;
    }
    let bins = fill_bins(shape, boxes);
    let mut index: usize = 0;
    while index < n
        invariant
            n == boxes@.len(),
            n == queries@.len(),
            index <= n,
            bins_hold(shape, boxes@, bins@, n as int, boxes@[0], 0, 0, 0),
            shape.dims[0] * shape.dims[1] <= usize::MAX,
            shape.point_count() <= usize::MAX,
            boxes@.len() <= u32::MAX + 1,
            forall|e: int| 0 <= e < queries@.len() ==> within(shape, #[trigger] queries@[e]),
            result@.len() == index,
            forall|i: int| 0 <= i < index ==> candidates(boxes@, queries@[i], i, #[trigger] result@[i]@),
        decreases n - index,
    {
        let q = queries[index];
        let found = candidates_of(shape, boxes, &bins, q, index);
        result.push(found);
        index = index + 1;
    }
    result
}

/// Smallest `first[a]` over the ranges of the first `m` partners
/// (`usize::MAX` for none).
pub open spec fn partners_lo(boxes: Seq<CellRange>, partners: Seq<usize>, a: int, m: int) -> int
    decreases m,
{
    if m <= 0 {
        usize::MAX as int
    } else {
        let prev = partners_lo(boxes, partners, a, m - 1);
        let here = boxes[partners[m - 1] as int].first[a] as int;
        if here < prev {
            here
        } else {
            prev
        }
    }
}

/// Largest `last[a]` over the ranges of the first `m` partners (`0` for
/// none).
pub open spec fn partners_hi(boxes: Seq<CellRange>, partners: Seq<usize>, a: int, m: int) -> int
    decreases m,
{
    if m <= 0 {
        0
    } else {
        let prev = partners_hi(boxes, partners, a, m - 1);
        let here = boxes[partners[m - 1] as int].last[a] as int;
        if here > prev {
            here
        } else {
            prev
        }
    }
}

/// The inclusive cell box spanned by the ranges of `partners`: the
/// smallest first cell and the largest last cell along each axis.
pub fn partner_box(partners: &[usize], boxes: &[CellRange]) -> (r: ([usize; 3], [usize; 3]))
    requires
        forall|k: int| 0 <= k < partners@.len() ==> #[trigger] partners@[k] < boxes@.len(),
    ensures
        forall|a: int|
            0 <= a < 3 ==> r.0[a] == partners_lo(boxes@, partners@, a, partners@.len() as int) && r.1[a]
                == partners_hi(boxes@, partners@, a, partners@.len() as int),
{
    let mut lo: [usize; 3] = [usize::MAX, usize::MAX, usize::MAX];
    let mut hi: [usize; 3] = [0, 0, 0];
    let mut m: usize = 0;
    while m < partners.len()
        invariant
            m <= partners@.len(),
            forall|k: int| 0 <= k < partners@.len() ==> #[trigger] partners@[k] < boxes@.len(),
            forall|a: int|
                0 <= a < 3 ==> lo[a] == partners_lo(boxes@, partners@, a, m as int) && hi[a] == partners_hi(
                    boxes@,
                    partners@,
                    a,
                    m as int,
                ),
        decreases partners@.len() - m,
    {
        let j = partners[m];
        let b = boxes[j];
        let mut a: usize = 0;
        while a < 3
            invariant
                m < partners@.len(),
                j == partners@[m as int],
                b == boxes@[j as int],
                a <= 3,
                forall|x: int|
                    0 <= x < a ==> lo[x] == partners_lo(boxes@, partners@, x, m + 1) && hi[x] == partners_hi(
                        boxes@,
                        partners@,
                        x,
                        m + 1,
                    ),
                forall|x: int|
                    a <= x < 3 ==> lo[x] == partners_lo(boxes@, partners@, x, m as int) && hi[x] == partners_hi(
                        boxes@,
                        partners@,
                        x,
                        m as int,
                    ),
            decreases 3 - a,
        {
            if b.first[a] < lo[a] {
                lo[a] = b.first[a];
            }
            if b.last[a] > hi[a] {
                hi[a] = b.last[a];
            }
            a = a + 1;
        }
        m = m + 1;
    }
    (lo, hi)
}

/// Reach along one axis of the offsets between the cells `own_lo ..=
/// own_hi` and `lo ..= hi`.
pub open spec fn axis_reach(own_lo: int, own_hi: int, lo: int, hi: int) -> int {
    let up = hi - if own_lo < hi {
        own_lo
    } else {
        hi
    };
    let down = own_hi - if lo < own_hi {
        lo
    } else {
        own_hi
    };
    if up > down {
        up
    } else {
        down
    }
}

/// Per axis, how far a cell of `own` can be from a cell of the box `lo
/// ..= hi`: the offsets the near-field correction of `own` against that
/// box evaluates.
pub fn kernel_reach(own: CellRange, lo: [usize; 3], hi: [usize; 3]) -> (r: [usize; 3])
    ensures
        forall|a: int|
            0 <= a < 3 ==> r[a] == axis_reach(own.first[a] as int, own.last[a] as int, lo[a] as int, hi[a] as int),
{
    let mut r: [usize; 3] = [0, 0, 0];
    let mut a: usize = 0;
    while a < 3
        invariant
            a <= 3,
            forall|x: int|
                0 <= x < a ==> r[x] == axis_reach(own.first[x] as int, own.last[x] as int, lo[x] as int, hi[x] as int),
        decreases 3 - a,
    {
        let up = hi[a] - if own.first[a] < hi[a] {
            own.first[a]
        } else {
            hi[a]
        };
        let down = own.last[a] - if lo[a] < own.last[a] {
            lo[a]
        } else {
            own.last[a]
        };
        r[a] = if up > down {
            up
        } else {
            down
        };
        a = a + 1;
    }
    r
}

/// Every offset between a cell of `own` and a cell of the box lies within
/// the reach: the kernel table built for that reach holds every value the
/// correction asks for.
pub proof fn lemma_reach_covers(own_lo: int, own_hi: int, lo: int, hi: int, g: int, h: int)
    requires
        own_lo <= g <= own_hi,
        lo <= h <= hi,
    ensures
        -axis_reach(own_lo, own_hi, lo, hi) <= h - g <= axis_reach(own_lo, own_hi, lo, hi),
{
}

} // verus!
