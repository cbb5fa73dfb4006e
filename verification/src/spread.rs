//! The index layout of projection and spreading: filament by filament, the
//! grid points each filament projects onto, and grid point by grid point,
//! the filaments that spread onto it. Each is a compressed list with offsets
//! into one flat array; the weights that go with the entries follow the same
//! layout.

use vstd::prelude::*;

verus! {

/// The entry lists as sequences.
pub open spec fn rows_of(entries: Seq<Vec<u32>>) -> Seq<Seq<u32>> {
    entries.map_values(|v: Vec<u32>| v@)
}

/// The grid points of the first `i` filaments' entries, filament by
/// filament.
pub open spec fn flat(rows: Seq<Seq<u32>>, i: int) -> Seq<u32>
    decreases i,
{
    if i <= 0 {
        Seq::empty()
    } else {
        flat(rows, i - 1) + rows[i - 1]
    }
}

/// The filament of each of those entries.
pub open spec fn owners(rows: Seq<Seq<u32>>, i: int) -> Seq<u32>
    decreases i,
{
    if i <= 0 {
        Seq::empty()
    } else {
        owners(rows, i - 1) + Seq::new(rows[i - 1].len(), |k: int| (i - 1) as u32)
    }
}

/// The filaments, one per entry, of the first `e` flat entries that lie on
/// grid point `g`, in entry order.
pub open spec fn spread_of(grid: Seq<u32>, owner: Seq<u32>, g: int, e: int) -> Seq<u32>
    decreases e,
{
    if e <= 0 {
        Seq::empty()
    } else if grid[e - 1] as int == g {
        spread_of(grid, owner, g, e - 1).push(owner[e - 1])
    } else {
        spread_of(grid, owner, g, e - 1)
    }
}

/// How many of the first `e` flat entries lie on grid points below `g`.
pub open spec fn spread_total(grid: Seq<u32>, owner: Seq<u32>, g: int, e: int) -> int
    decreases g,
{
    if g <= 0 {
        0
    } else {
        spread_total(grid, owner, g - 1, e) + spread_of(grid, owner, g - 1, e).len()
    }
}

/// Both layouts: `projection_offsets[i] .. projection_offsets[i + 1]` of
/// `projection_index` are the grid points of filament `i`;
/// `spread_offsets[g] .. spread_offsets[g + 1]` of `spread_filament` are the
/// filaments on grid point `g`; entry `e` of the projection layout is entry
/// `slot[e]` of the spreading layout.
pub struct SpreadLayout {
    pub projection_offsets: Vec<usize>,
    pub projection_index: Vec<u32>,
    pub spread_offsets: Vec<usize>,
    pub spread_filament: Vec<u32>,
    pub slot: Vec<usize>,
}

/// The flat arrays grow filament by filament: filament `i`'s entries follow
/// those of the filaments before it, each owned by `i`.
proof fn lemma_flat_at(rows: Seq<Seq<u32>>, n: int, i: int, k: int)
    requires
        0 <= i < n,
        0 <= k < rows[i].len(),
    ensures
        flat(rows, i).len() + k < flat(rows, n).len(),
        flat(rows, n)[flat(rows, i).len() + k] == rows[i][k],
        owners(rows, n)[flat(rows, i).len() + k] == i as u32,
    decreases n,
{
    lemma_lengths(rows, n);
    lemma_lengths(rows, i);
    if i < n - 1 {
        lemma_flat_at(rows, n - 1, i, k);
        lemma_flat_grows(rows, i + 1, n - 1);
        lemma_lengths(rows, i + 1);
    }
}

/// Owners and grid points come in pairs.
proof fn lemma_lengths(rows: Seq<Seq<u32>>, i: int)
    ensures
        owners(rows, i).len() == flat(rows, i).len(),
        i > 0 ==> flat(rows, i).len() == flat(rows, i - 1).len() + rows[i - 1].len(),
    decreases i,
{
    if i > 0 {
        lemma_lengths(rows, i - 1);
    }
}

/// More filaments, more entries.
proof fn lemma_flat_grows(rows: Seq<Seq<u32>>, i: int, j: int)
    requires
        0 <= i <= j,
    ensures
        flat(rows, i).len() <= flat(rows, j).len(),
    decreases j - i,
{
    if i < j {
        lemma_flat_grows(rows, i, j - 1);
        lemma_lengths(rows, j);
    }
}

/// A grid point's list only grows, by at most one entry per entry read.
proof fn lemma_spread_grows(grid: Seq<u32>, owner: Seq<u32>, g: int, e: int, f: int)
    requires
        0 <= e <= f,
    ensures
        spread_of(grid, owner, g, e).len() <= spread_of(grid, owner, g, f).len(),
        spread_of(grid, owner, g, f).len() <= spread_of(grid, owner, g, e).len() + (f - e),
    decreases f - e,
{
    if e < f {
        lemma_spread_grows(grid, owner, g, e, f - 1);
    }
}

/// The offsets of the grid points never decrease.
proof fn lemma_total_grows(grid: Seq<u32>, owner: Seq<u32>, g: int, h: int, e: int)
    requires
        0 <= g <= h,
    ensures
        0 <= spread_total(grid, owner, g, e) <= spread_total(grid, owner, h, e),
    decreases h,
{
    if g < h {
        lemma_total_grows(grid, owner, g, h - 1, e);
    } else if g > 0 {
        lemma_total_grows(grid, owner, g - 1, g - 1, e);
    }
}

/// Reading one more entry adds it to the count of its grid point and of
/// every grid point above it.
proof fn lemma_total_step(grid: Seq<u32>, owner: Seq<u32>, g: int, e: int)
    requires
        0 <= e,
        0 <= g,
    ensures
        spread_total(grid, owner, g, e + 1) == spread_total(grid, owner, g, e) + if (grid[e] as int) < g {
            1int
        } else {
            0int
        },
    decreases g,
{
    if g > 0 {
        lemma_total_step(grid, owner, g - 1, e);
    }
}

/// Every entry lies on one of the first `g` grid points once all grid
/// points of the entries are below `g`.
proof fn lemma_total_all(grid: Seq<u32>, owner: Seq<u32>, g: int, e: int)
    requires
        0 <= e <= grid.len(),
        0 <= g,
        forall|x: int| 0 <= x < grid.len() ==> (#[trigger] grid[x] as int) < g,
    ensures
        spread_total(grid, owner, g, e) == e,
    decreases e,
{
    if e == 0 {
        lemma_total_zero(grid, owner, g);
    } else {
        lemma_total_all(grid, owner, g, e - 1);
        lemma_total_step(grid, owner, g, e - 1);
    }
}

/// Before any entry, every count is zero.
proof fn lemma_total_zero(grid: Seq<u32>, owner: Seq<u32>, g: int)
    ensures
        spread_total(grid, owner, g, 0) == 0,
    decreases g,
{
    if g > 0 {
        lemma_total_zero(grid, owner, g - 1);
    }
}

/// The projection and spreading layouts of filaments `0 .. entries.len()`,
/// filament `i` projecting onto grid points `entries[i]`, each below
/// `grid_len`: filament by filament, then grid point by grid point with the
/// filaments on each in filament order, and where each entry lands.
pub fn spread_layout(grid_len: usize, entries: &[Vec<u32>]) -> (r: SpreadLayout)
    requires
        entries@.len() <= u32::MAX + 1,
        forall|i: int, k: int|
            0 <= i < entries@.len() && 0 <= k < entries@[i]@.len() ==> (#[trigger] entries@[i]@[k] as int) < grid_len,
    ensures
        ({
            let rows = rows_of(entries@);
            let n = entries@.len() as int;
            let grid = flat(rows, n);
            let owner = owners(rows, n);
            &&& r.projection_offsets@.len() == n + 1
            &&& forall|i: int| 0 <= i <= n ==> #[trigger] r.projection_offsets@[i] == flat(rows, i).len()
            &&& r.projection_index@ == grid
            &&& r.spread_offsets@.len() == grid_len + 1
            &&& forall|g: int|
                0 <= g <= grid_len ==> #[trigger] r.spread_offsets@[g] == spread_total(grid, owner, g, grid.len() as int)
            &&& r.spread_filament@.len() == grid.len()
            &&& forall|g: int, k: int|
                0 <= g < grid_len && 0 <= k < spread_of(grid, owner, g, grid.len() as int).len()
                    ==> r.spread_filament@[r.spread_offsets@[g] + k]
                    == #[trigger] spread_of(grid, owner, g, grid.len() as int)[k]
            &&& r.slot@.len() == grid.len()
            &&& forall|e: int|
                0 <= e < grid.len() ==> #[trigger] r.slot@[e] == r.spread_offsets@[grid[e] as int] + spread_of(
                    grid,
                    owner,
                    grid[e] as int,
                    e,
                ).len()
        }),
{
    let n = entries.len();
    let ghost rows = rows_of(entries@);
    let ghost ni = n as int;
    let ghost grid = flat(rows, ni);
    let ghost owner = owners(rows, ni);
    let ghost gl = grid_len as int;
    // Filament by filament: the grid points, and how many land on each.
    let mut counts: Vec<usize> = Vec::new();
    let mut g: usize = 0;
    while g < grid_len
        invariant
            g <= grid_len,
            counts@.len() == g,
            forall|h: int| 0 <= h < g ==> #[trigger] counts@[h] == 0,
        decreases grid_len - g,
    {
        counts.push(0);
        g = g + 1;
    }
    proof {
        lemma_total_zero(grid, owner, gl);
        lemma_lengths(rows, ni);
    }
    let mut projection_offsets: Vec<usize> = Vec::new();
    projection_offsets.push(0);
    let mut projection_index: Vec<u32> = Vec::new();
    let mut i: usize = 0;
    while i < n
        invariant
            i <= n,
            n == entries@.len(),
            ni == n,
            rows == rows_of(entries@),
            grid == flat(rows, ni),
            owner == owners(rows, ni),
            gl == grid_len,
            n <= u32::MAX + 1,
            forall|i: int, k: int|
                0 <= i < entries@.len() && 0 <= k < entries@[i]@.len() ==> (#[trigger] entries@[i]@[k] as int) < grid_len,
            projection_offsets@.len() == i + 1,
            forall|j: int| 0 <= j <= i ==> #[trigger] projection_offsets@[j] == flat(rows, j).len(),
            projection_index@ == flat(rows, i as int),
            counts@.len() == grid_len,
            forall|h: int|
                0 <= h < grid_len ==> #[trigger] counts@[h] == spread_of(grid, owner, h, flat(rows, i as int).len() as int).len(),
            spread_total(grid, owner, gl, flat(rows, i as int).len() as int) == flat(rows, i as int).len(),
        decreases n - i,
    {
        let row = &entries[i];
        let ghost start = flat(rows, i as int).len() as int;
        proof {
            assert(row@ == rows[i as int]);
            lemma_lengths(rows, i + 1);
        }
        let mut k: usize = 0;
        while k < row.len()
            invariant
                i < n,
                n == entries@.len(),
                ni == n,
                rows == rows_of(entries@),
                grid == flat(rows, ni),
                owner == owners(rows, ni),
                gl == grid_len,
                forall|i: int, k: int|
                    0 <= i < entries@.len() && 0 <= k < entries@[i]@.len() ==> (#[trigger] entries@[i]@[k] as int) < grid_len,
                row@ == rows[i as int],
                start == flat(rows, i as int).len(),
                k <= row@.len(),
                projection_index@ == flat(rows, i as int) + rows[i as int].take(k as int),
                counts@.len() == grid_len,
                forall|h: int| 0 <= h < grid_len ==> #[trigger] counts@[h] == spread_of(grid, owner, h, start + k).len(),
                spread_total(grid, owner, gl, start + k) == start + k,
            decreases row@.len() - k,
        {
            let p = row[k];
            let ghost e = start + k;
            proof {
                lemma_flat_at(rows, ni, i as int, k as int);
                assert(entries@[i as int]@[k as int] == p);
                assert(grid[e] == p);
                lemma_total_step(grid, owner, gl, e);
                lemma_spread_grows(grid, owner, p as int, 0, e);
            }
            projection_index.push(p);
            let total = projection_index.len();
            let c = counts[p as usize];
            counts.set(p as usize, c + 1);
            proof {
                assert(projection_index@ =~= flat(rows, i as int) + rows[i as int].take(k + 1));
                assert forall|h: int| 0 <= h < grid_len implies #[trigger] counts@[h] == spread_of(grid, owner, h, e + 1).len() by {
                }
            }
            k = k + 1;
        }
        proof {
            assert(rows[i as int].take(k as int) =~= rows[i as int]);
        }
        projection_offsets.push(projection_index.len());
        i = i + 1;
    }
    let total = projection_index.len();
    let ghost big = total as int;
    proof {
        assert(grid.len() == big);
    }
    // Grid point by grid point: where each one's filaments start.
    let mut spread_offsets: Vec<usize> = Vec::new();
    spread_offsets.push(0);
    let mut g: usize = 0;
    while g < grid_len
        invariant
            g <= grid_len,
            gl == grid_len,
            big == grid.len(),
            counts@.len() == grid_len,
            forall|h: int| 0 <= h < grid_len ==> #[trigger] counts@[h] == spread_of(grid, owner, h, big).len(),
            spread_total(grid, owner, gl, big) == big,
            big <= usize::MAX,
            spread_offsets@.len() == g + 1,
            forall|h: int| 0 <= h <= g ==> #[trigger] spread_offsets@[h] == spread_total(grid, owner, h, big),
        decreases grid_len - g,
    {
        proof {
            lemma_total_grows(grid, owner, g + 1, gl, big);
        }
        let next = spread_offsets[g] + counts[g];
        spread_offsets.push(next);
        g = g + 1;
    }
    // Each entry into the next free place of its grid point.
    let mut fill: Vec<usize> = Vec::new();
    let mut g: usize = 0;
    while g < grid_len
        invariant
            g <= grid_len,
            spread_offsets@.len() == grid_len + 1,
            fill@.len() == g,
            forall|h: int| 0 <= h < g ==> #[trigger] fill@[h] == spread_offsets@[h],
        decreases grid_len - g,
    {
        fill.push(spread_offsets[g]);
        g = g + 1;
    }
    let mut spread_filament: Vec<u32> = Vec::new();
    let mut x: usize = 0;
    while x < total
        invariant
            x <= total,
            spread_filament@.len() == x,
        decreases total - x,
    {
        spread_filament.push(0);
        x = x + 1;
    }
    let mut slot: Vec<usize> = Vec::new();
    let mut i: usize = 0;
    proof {
        lemma_lengths(rows, ni);
    }
    while i < n
        invariant
            i <= n,
            n == entries@.len(),
            ni == n,
            n <= u32::MAX + 1,
            rows == rows_of(entries@),
            grid == flat(rows, ni),
            owner == owners(rows, ni),
            gl == grid_len,
            big == grid.len(),
            forall|i: int, k: int|
                0 <= i < entries@.len() && 0 <= k < entries@[i]@.len() ==> (#[trigger] entries@[i]@[k] as int) < grid_len,
            spread_total(grid, owner, gl, big) == big,
            spread_offsets@.len() == grid_len + 1,
            forall|h: int| 0 <= h <= grid_len ==> #[trigger] spread_offsets@[h] == spread_total(grid, owner, h, big),
            fill@.len() == grid_len,
            spread_filament@.len() == big,
            slot@.len() == flat(rows, i as int).len(),
            forall|h: int|
                0 <= h < grid_len ==> #[trigger] fill@[h] == spread_offsets@[h] + spread_of(grid, owner, h, slot@.len() as int).len(),
            forall|h: int, j: int|
                0 <= h < grid_len && 0 <= j < spread_of(grid, owner, h, slot@.len() as int).len()
                    ==> spread_filament@[spread_offsets@[h] + j] == #[trigger] spread_of(grid, owner, h, slot@.len() as int)[j],
            forall|e: int|
                0 <= e < slot@.len() ==> #[trigger] slot@[e] == spread_offsets@[grid[e] as int] + spread_of(grid, owner, grid[e] as int, e).len(),
        decreases n - i,
    {
        let row = &entries[i];
        let ghost start = flat(rows, i as int).len() as int;
        proof {
            assert(row@ == rows[i as int]);
            lemma_lengths(rows, i + 1);
            lemma_flat_grows(rows, i + 1, ni);
        }
        let mut k: usize = 0;
        while k < row.len()
            invariant
                i < n,
                n == entries@.len(),
                ni == n,
                n <= u32::MAX + 1,
                rows == rows_of(entries@),
                grid == flat(rows, ni),
                owner == owners(rows, ni),
                gl == grid_len,
                big == grid.len(),
                forall|i: int, k: int|
                    0 <= i < entries@.len() && 0 <= k < entries@[i]@.len() ==> (#[trigger] entries@[i]@[k] as int) < grid_len,
                spread_total(grid, owner, gl, big) == big,
                spread_offsets@.len() == grid_len + 1,
                forall|h: int| 0 <= h <= grid_len ==> #[trigger] spread_offsets@[h] == spread_total(grid, owner, h, big),
                fill@.len() == grid_len,
                spread_filament@.len() == big,
                row@ == rows[i as int],
                start == flat(rows, i as int).len(),
                start + row@.len() <= big,
                k <= row@.len(),
                slot@.len() == start + k,
                forall|h: int|
                    0 <= h < grid_len ==> #[trigger] fill@[h] == spread_offsets@[h] + spread_of(grid, owner, h, slot@.len() as int).len(),
                forall|h: int, j: int|
                    0 <= h < grid_len && 0 <= j < spread_of(grid, owner, h, slot@.len() as int).len()
                        ==> spread_filament@[spread_offsets@[h] + j] == #[trigger] spread_of(grid, owner, h, slot@.len() as int)[j],
                forall|e: int|
                    0 <= e < slot@.len() ==> #[trigger] slot@[e] == spread_offsets@[grid[e] as int] + spread_of(grid, owner, grid[e] as int, e).len(),
            decreases row@.len() - k,
        {
            let p = row[k];
            let ghost e = start + k;
            let ghost pi = p as int;
            proof {
                lemma_flat_at(rows, ni, i as int, k as int);
                assert(entries@[i as int]@[k as int] == p);
                assert(grid[e] == p);
                assert(owner[e] == i as u32);
                lemma_spread_grows(grid, owner, pi, e + 1, big);
                lemma_total_grows(grid, owner, pi + 1, gl, big);
                assert(spread_offsets@[pi + 1] == spread_offsets@[pi] + spread_of(grid, owner, pi, big).len());
            }
            let place = fill[p as usize];
            let ghost sf0 = spread_filament@;
            spread_filament.set(place, i as u32);
            fill.set(p as usize, place + 1);
            slot.push(place);
            proof {
                assert(spread_of(grid, owner, pi, e + 1) == spread_of(grid, owner, pi, e).push(i as u32));
                assert(place == spread_offsets@[pi] + spread_of(grid, owner, pi, e).len());
                assert(place < spread_offsets@[pi + 1]);
                assert(spread_filament@ == sf0.update(place as int, i as u32));
                assert forall|h: int, j: int|
                    0 <= h < grid_len && 0 <= j < spread_of(grid, owner, h, e + 1).len()
                        implies spread_filament@[spread_offsets@[h] + j] == #[trigger] spread_of(grid, owner, h, e + 1)[j] by {
                    if h == pi {
                        if j < spread_of(grid, owner, h, e).len() {
                            assert(spread_offsets@[h] + j != place);
                            assert(sf0[spread_offsets@[h] + j] == spread_of(grid, owner, h, e)[j]);
                            assert(spread_of(grid, owner, h, e + 1)[j] == spread_of(grid, owner, h, e)[j]);
                            assert(spread_filament@[spread_offsets@[h] + j] == sf0[spread_offsets@[h] + j]);
                        } else {
                            assert(spread_offsets@[h] + j == place);
                            assert(spread_of(grid, owner, h, e + 1)[j] == i as u32);
                        }
                    } else {
                        assert(spread_of(grid, owner, h, e + 1) == spread_of(grid, owner, h, e));
                        lemma_spread_grows(grid, owner, h, e, big);
                        if h < pi {
                            lemma_total_grows(grid, owner, h + 1, pi, big);
                        } else {
                            lemma_total_grows(grid, owner, pi + 1, h, big);
                        }
                        assert(spread_offsets@[h + 1] == spread_offsets@[h] + spread_of(grid, owner, h, big).len());
                        assert(spread_offsets@[h] + j != place);
                        lemma_total_grows(grid, owner, h + 1, gl, big);
                        assert(sf0[spread_offsets@[h] + j] == spread_of(grid, owner, h, e)[j]);
                        assert(spread_filament@[spread_offsets@[h] + j] == sf0[spread_offsets@[h] + j]);
                    }
                }
                assert forall|h: int| 0 <= h < grid_len implies #[trigger] fill@[h] == spread_offsets@[h] + spread_of(grid, owner, h, e + 1).len() by {
                }
                assert forall|x: int| 0 <= x < slot@.len() implies #[trigger] slot@[x] == spread_offsets@[grid[x] as int] + spread_of(grid, owner, grid[x] as int, x).len() by {
                }
            }
            k = k + 1;
        }
        i = i + 1;
    }
    SpreadLayout { projection_offsets, projection_index, spread_offsets, spread_filament, slot }
}

} // verus!
