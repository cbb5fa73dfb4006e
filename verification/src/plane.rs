//! Topology of a ground plane's cell-centre mesh.
//!
//! A plane is cut into `nx × ny` cells; cells whose centre falls in a hole
//! are removed. Every live cell gets a node, numbered column by column from
//! a first free node id, and every pair of live cells adjacent across x or
//! across y is joined by one bar. Where the cells lie and which ones a hole
//! removes is the caller's measurement; the grid of live cells is the input
//! here.

use vstd::prelude::*;

use crate::geometry::NodeId;

verus! {

/// The axis a bar runs along.
#[derive(Clone, Copy, Debug, PartialEq, Eq)]
pub enum BarAxis {
    /// From cell `(i, j)` to cell `(i + 1, j)`.
    X,
    /// From cell `(i, j)` to cell `(i, j + 1)`.
    Y,
}

/// A bar of the plane mesh, starting at cell `(column, row)`.
#[derive(Clone, Copy, Debug, PartialEq, Eq)]
pub struct Bar {
    pub column: usize,
    pub row: usize,
    pub axis: BarAxis,
    /// Node of cell `(column, row)`.
    pub from: NodeId,
    /// Node of the neighbouring cell along `axis`.
    pub to: NodeId,
}

/// Node of each live cell, indexed `[i][j]` (`None` where a hole removed
/// the cell), and the bars in the order they are laid: column by column,
/// row by row, the x bar of a cell before its y bar.
pub struct PlaneTopology {
    pub centres: Vec<Vec<Option<NodeId>>>,
    pub bars: Vec<Bar>,
}

/// The live-cell grid as columns of booleans.
pub open spec fn grid_of(live: Seq<Vec<bool>>) -> Seq<Seq<bool>> {
    Seq::new(live.len(), |i: int| live[i]@)
}

/// Rows of the grid (those of its first column).
pub open spec fn rows_of(g: Seq<Seq<bool>>) -> int {
    if g.len() > 0 {
        g[0].len() as int
    } else {
        0
    }
}

/// Every column has as many cells as the first.
pub open spec fn rectangular(g: Seq<Seq<bool>>) -> bool {
    forall|i: int| 0 <= i < g.len() ==> (#[trigger] g[i]).len() == rows_of(g)
}

/// Live cells among the first `j` of a column.
pub open spec fn live_in(column: Seq<bool>, j: int) -> nat
    decreases j,
{
    if j <= 0 {
        0
    } else {
        live_in(column, j - 1) + if column[j - 1] {
            1nat
        } else {
            0nat
        }
    }
}

/// Live cells in the first `i` columns.
pub open spec fn live_before(g: Seq<Seq<bool>>, i: int) -> nat
    decreases i,
{
    if i <= 0 {
        0
    } else {
        live_before(g, i - 1) + live_in(g[i - 1], g[i - 1].len() as int)
    }
}

/// Live cells before cell `(i, j)` in column-major order.
pub open spec fn rank(g: Seq<Seq<bool>>, i: int, j: int) -> nat {
    live_before(g, i) + live_in(g[i], j)
}

/// Node of live cell `(i, j)` when numbering starts at `first`.
pub open spec fn node_at(g: Seq<Seq<bool>>, first: int, i: int, j: int) -> NodeId {
    NodeId((first + rank(g, i, j)) as usize)
}

/// Whether cell `(i, j)` exists and is live.
pub open spec fn alive(g: Seq<Seq<bool>>, i: int, j: int) -> bool {
    0 <= i < g.len() && 0 <= j < g[i].len() && g[i][j]
}

/// The bars that start at cell `(i, j)`: along x to a live right
/// neighbour, then along y to a live upper neighbour.
pub open spec fn cell_bars(g: Seq<Seq<bool>>, first: int, i: int, j: int) -> Seq<Bar> {
    if !alive(g, i, j) {
        Seq::empty()
    } else {
        let here = node_at(g, first, i, j);
        let x = if alive(g, i + 1, j) {
            seq![Bar { column: i as usize, row: j as usize, axis: BarAxis::X, from: here, to: node_at(g, first, i + 1, j) }]
        } else {
            Seq::empty()
        };
        let y = if alive(g, i, j + 1) {
            seq![Bar { column: i as usize, row: j as usize, axis: BarAxis::Y, from: here, to: node_at(g, first, i, j + 1) }]
        } else {
            Seq::empty()
        };
        x + y
    }
}

/// The bars of the first `j` cells of column `i`.
pub open spec fn column_bars(g: Seq<Seq<bool>>, first: int, i: int, j: int) -> Seq<Bar>
    decreases j,
{
    if j <= 0 {
        Seq::empty()
    } else {
        column_bars(g, first, i, j - 1) + cell_bars(g, first, i, j - 1)
    }
}

/// The bars of the first `i` columns.
pub open spec fn grid_bars(g: Seq<Seq<bool>>, first: int, i: int) -> Seq<Bar>
    decreases i,
{
    if i <= 0 {
        Seq::empty()
    } else {
        grid_bars(g, first, i - 1) + column_bars(g, first, i - 1, rows_of(g))
    }
}

/// `live_in` grows by at most one per cell.
proof fn lemma_live_in_bound(column: Seq<bool>, j: int, k: int)
    requires
        0 <= j <= k,
    ensures
        live_in(column, j) <= live_in(column, k),
        live_in(column, k) <= live_in(column, j) + (k - j),
    decreases k - j,
{
    if j < k {
        lemma_live_in_bound(column, j, k - 1);
    }
}

/// A live cell's successors in its column come strictly after it.
proof fn lemma_live_in_step(column: Seq<bool>, j: int, k: int)
    requires
        0 <= j < k,
        column[j],
    ensures
        live_in(column, j) + 1 <= live_in(column, k),
    decreases k - j,
{
    if j + 1 < k {
        lemma_live_in_step(column, j, k - 1);
    }
}

/// `live_before` is nondecreasing.
proof fn lemma_live_before_monotone(g: Seq<Seq<bool>>, i: int, k: int)
    requires
        0 <= i <= k,
    ensures
        live_before(g, i) <= live_before(g, k),
    decreases k - i,
{
    if i < k {
        lemma_live_before_monotone(g, i, k - 1);
    }
}

/// A live cell's rank is below the count of all live cells.
proof fn lemma_rank_below(g: Seq<Seq<bool>>, i: int, j: int)
    requires
        alive(g, i, j),
    ensures
        rank(g, i, j) + 1 <= live_before(g, g.len() as int),
{
    lemma_live_in_step(g[i], j, g[i].len() as int);
    lemma_live_before_monotone(g, i + 1, g.len() as int);
}

/// Bar `b` joins two live neighbouring cells and carries their nodes.
pub open spec fn joins(g: Seq<Seq<bool>>, first: int, b: Bar) -> bool {
    let i = b.column as int;
    let j = b.row as int;
    let (i2, j2) = match b.axis {
        BarAxis::X => (i + 1, j),
        BarAxis::Y => (i, j + 1),
    };
    &&& alive(g, i, j)
    &&& alive(g, i2, j2)
    &&& b.from == node_at(g, first, i, j)
    &&& b.to == node_at(g, first, i2, j2)
}

/// Every cell of the grid is live: a plane without holes.
pub open spec fn all_live(g: Seq<Seq<bool>>) -> bool {
    forall|i: int, j: int| 0 <= i < g.len() && 0 <= j < g[i].len() ==> #[trigger] g[i][j]
}

/// Every column and row index of the grid fits a `usize`.
pub open spec fn fits(g: Seq<Seq<bool>>) -> bool {
    &&& g.len() <= usize::MAX
    &&& forall|i: int| 0 <= i < g.len() ==> (#[trigger] g[i]).len() <= usize::MAX
}

/// Every bar of `s` joins two live neighbouring cells.
pub open spec fn all_join(g: Seq<Seq<bool>>, first: int, s: Seq<Bar>) -> bool {
    forall|k: int| 0 <= k < s.len() ==> joins(g, first, #[trigger] s[k])
}

proof fn lemma_all_join_append(g: Seq<Seq<bool>>, first: int, s: Seq<Bar>, t: Seq<Bar>)
    requires
        all_join(g, first, s),
        all_join(g, first, t),
    ensures
        all_join(g, first, s + t),
{
    assert forall|k: int| 0 <= k < (s + t).len() implies joins(g, first, #[trigger] (s + t)[k]) by {
        if k < s.len() {
            assert((s + t)[k] == s[k]);
        } else {
            assert((s + t)[k] == t[k - s.len()]);
        }
    }
}

proof fn lemma_contains_append(s: Seq<Bar>, t: Seq<Bar>, b: Bar)
    ensures
        s.contains(b) ==> (s + t).contains(b),
        t.contains(b) ==> (s + t).contains(b),
{
    if s.contains(b) {
        let k = choose|k: int| 0 <= k < s.len() && s[k] == b;
        assert((s + t)[k] == b);
    }
    if t.contains(b) {
        let k = choose|k: int| 0 <= k < t.len() && t[k] == b;
        assert((s + t)[s.len() + k] == b);
    }
}

proof fn lemma_column_bars_join(g: Seq<Seq<bool>>, first: int, i: int, j: int)
    requires
        fits(g),
    ensures
        all_join(g, first, column_bars(g, first, i, j)),
    decreases j,
{
    if j > 0 {
        lemma_column_bars_join(g, first, i, j - 1);
        let c = cell_bars(g, first, i, j - 1);
        assert forall|k: int| 0 <= k < c.len() implies joins(g, first, #[trigger] c[k]) by {
        }
        lemma_all_join_append(g, first, column_bars(g, first, i, j - 1), c);
    }
}

proof fn lemma_grid_bars_join(g: Seq<Seq<bool>>, first: int, i: int)
    requires
        fits(g),
    ensures
        all_join(g, first, grid_bars(g, first, i)),
    decreases i,
{
    if i > 0 {
        lemma_grid_bars_join(g, first, i - 1);
        lemma_column_bars_join(g, first, i - 1, rows_of(g));
        lemma_all_join_append(g, first, grid_bars(g, first, i - 1), column_bars(g, first, i - 1, rows_of(g)));
    }
}

/// Column `i`'s first `j` cells' bars include those of cell `c < j`.
proof fn lemma_column_bars_contain(g: Seq<Seq<bool>>, first: int, i: int, c: int, j: int, b: Bar)
    requires
        0 <= c < j,
        cell_bars(g, first, i, c).contains(b),
    ensures
        column_bars(g, first, i, j).contains(b),
    decreases j,
{
    if c < j - 1 {
        lemma_column_bars_contain(g, first, i, c, j - 1, b);
    }
    lemma_contains_append(column_bars(g, first, i, j - 1), cell_bars(g, first, i, j - 1), b);
}

/// The first `k` columns' bars include those of column `i < k`.
proof fn lemma_grid_bars_contain(g: Seq<Seq<bool>>, first: int, i: int, k: int, b: Bar)
    requires
        0 <= i < k,
        column_bars(g, first, i, rows_of(g)).contains(b),
    ensures
        grid_bars(g, first, k).contains(b),
    decreases k,
{
    if i < k - 1 {
        lemma_grid_bars_contain(g, first, i, k - 1, b);
    }
    lemma_contains_append(grid_bars(g, first, k - 1), column_bars(g, first, k - 1, rows_of(g)), b);
}

/// The plane mesh joins exactly the neighbouring live cells: every bar
/// joins two live cells adjacent across x or y and carries their nodes,
/// and every such pair of live cells is joined by a bar. Cells removed by
/// a hole take their bars with them.
pub proof fn lemma_bars_join_neighbours(g: Seq<Seq<bool>>, first: int)
    requires
        rectangular(g),
        fits(g),
    ensures
        all_join(g, first, grid_bars(g, first, g.len() as int)),
        forall|i: int, j: int|
            alive(g, i, j) && alive(g, i + 1, j) ==> grid_bars(g, first, g.len() as int).contains(
                Bar {
                    column: i as usize,
                    row: j as usize,
                    axis: BarAxis::X,
                    from: node_at(g, first, i, j),
                    to: #[trigger] node_at(g, first, i + 1, j),
                },
            ),
        forall|i: int, j: int|
            alive(g, i, j) && alive(g, i, j + 1) ==> grid_bars(g, first, g.len() as int).contains(
                Bar {
                    column: i as usize,
                    row: j as usize,
                    axis: BarAxis::Y,
                    from: node_at(g, first, i, j),
                    to: #[trigger] node_at(g, first, i, j + 1),
                },
            ),
{
    let nx = g.len() as int;
    lemma_grid_bars_join(g, first, nx);
    assert forall|i: int, j: int| alive(g, i, j) && alive(g, i + 1, j) implies grid_bars(g, first, nx).contains(
        Bar {
            column: i as usize,
            row: j as usize,
            axis: BarAxis::X,
            from: node_at(g, first, i, j),
            to: #[trigger] node_at(g, first, i + 1, j),
        },
    ) by {
        let b = Bar {
            column: i as usize,
            row: j as usize,
            axis: BarAxis::X,
            from: node_at(g, first, i, j),
            to: node_at(g, first, i + 1, j),
        };
        assert(g[i].len() == rows_of(g));
        assert(cell_bars(g, first, i, j)[0] == b);
        lemma_column_bars_contain(g, first, i, j, rows_of(g), b);
        lemma_grid_bars_contain(g, first, i, nx, b);
    }
    assert forall|i: int, j: int| alive(g, i, j) && alive(g, i, j + 1) implies grid_bars(g, first, nx).contains(
        Bar {
            column: i as usize,
            row: j as usize,
            axis: BarAxis::Y,
            from: node_at(g, first, i, j),
            to: #[trigger] node_at(g, first, i, j + 1),
        },
    ) by {
        let b = Bar {
            column: i as usize,
            row: j as usize,
            axis: BarAxis::Y,
            from: node_at(g, first, i, j),
            to: node_at(g, first, i, j + 1),
        };
        assert(g[i].len() == rows_of(g));
        let c = cell_bars(g, first, i, j);
        assert(c[c.len() - 1] == b);
        lemma_column_bars_contain(g, first, i, j, rows_of(g), b);
        lemma_grid_bars_contain(g, first, i, nx, b);
    }
}

/// Live cells get distinct nodes, numbered consecutively from `first`:
/// each node lies in `first .. first + count`, where `count` is the number
/// of live cells.
pub proof fn lemma_nodes_distinct(g: Seq<Seq<bool>>, first: int, i: int, j: int, i2: int, j2: int)
    requires
        0 <= first,
        first + live_before(g, g.len() as int) <= usize::MAX,
        alive(g, i, j),
        alive(g, i2, j2),
        i != i2 || j != j2,
    ensures
        node_at(g, first, i, j) != node_at(g, first, i2, j2),
        first <= node_at(g, first, i, j).0 < first + live_before(g, g.len() as int),
{
    lemma_rank_below(g, i, j);
    lemma_rank_below(g, i2, j2);
    if i == i2 {
        if j < j2 {
            lemma_live_in_step(g[i], j, j2);
        } else {
            lemma_live_in_step(g[i], j2, j);
        }
    } else if i < i2 {
        lemma_rank_below_column(g, i, j, i2);
    } else {
        lemma_rank_below_column(g, i2, j2, i);
    }
}

/// A live cell ranks below every cell of a later column.
proof fn lemma_rank_below_column(g: Seq<Seq<bool>>, i: int, j: int, k: int)
    requires
        alive(g, i, j),
        i < k,
    ensures
        rank(g, i, j) + 1 <= live_before(g, k),
{
    lemma_live_in_step(g[i], j, g[i].len() as int);
    lemma_live_before_monotone(g, i + 1, k);
}

proof fn lemma_full_column_len(g: Seq<Seq<bool>>, first: int, i: int, j: int)
    requires
        rectangular(g),
        all_live(g),
        0 <= i < g.len(),
        0 <= j <= rows_of(g),
        rows_of(g) >= 1,
    ensures
        column_bars(g, first, i, j).len() == (if i + 1 < g.len() {
            j
        } else {
            0
        }) + (if j < rows_of(g) {
            j
        } else {
            rows_of(g) - 1
        }),
    decreases j,
{
    if j > 0 {
        lemma_full_column_len(g, first, i, j - 1);
        assert(g[i].len() == rows_of(g));
        assert(g[i][j - 1]);
        if i + 1 < g.len() {
            assert(g[i + 1].len() == rows_of(g));
            assert(g[i + 1][j - 1]);
        }
        if j < rows_of(g) {
            assert(g[i][j]);
        }
    }
}

proof fn lemma_full_grid_len(g: Seq<Seq<bool>>, first: int, i: int)
    requires
        rectangular(g),
        all_live(g),
        0 <= i <= g.len(),
        rows_of(g) >= 1,
    ensures
        grid_bars(g, first, i).len() == (if i < g.len() {
            i
        } else {
            g.len() - 1
        }) * rows_of(g) + i * (rows_of(g) - 1),
    decreases i,
{
    let ny = rows_of(g);
    let nx = g.len() as int;
    if i > 0 {
        lemma_full_grid_len(g, first, i - 1);
        lemma_full_column_len(g, first, i - 1, ny);
        let a = i - 1;
        assert(a * ny + ny == i * ny) by (nonlinear_arith)
            requires
                a == i - 1,
        ;
        assert(a * (ny - 1) + (ny - 1) == i * (ny - 1)) by (nonlinear_arith)
            requires
                a == i - 1,
        ;
        assert(grid_bars(g, first, i) == grid_bars(g, first, a) + column_bars(g, first, a, ny));
        let c = column_bars(g, first, a, ny).len();
        if i < nx {
            assert(c == ny + (ny - 1));
            assert(grid_bars(g, first, i).len() == i * ny + i * (ny - 1));
        } else {
            assert(c == ny - 1);
            assert(grid_bars(g, first, i).len() == (nx - 1) * ny + i * (ny - 1));
        }
    } else {
        assert(0 * ny + 0 * (ny - 1) == 0) by (nonlinear_arith);
    }
}

/// A plane of `nx × ny` cells without holes has `2·nx·ny − nx − ny` bars:
/// `(nx − 1)·ny` across x and `nx·(ny − 1)` across y.
pub proof fn lemma_full_plane_bars(g: Seq<Seq<bool>>, first: int)
    requires
        rectangular(g),
        all_live(g),
        g.len() >= 1,
        rows_of(g) >= 1,
    ensures
        grid_bars(g, first, g.len() as int).len() == 2 * g.len() * rows_of(g) - g.len() - rows_of(g),
{
    let nx = g.len() as int;
    let ny = rows_of(g);
    lemma_full_grid_len(g, first, nx);
    assert((nx - 1) * ny + nx * (ny - 1) == 2 * nx * ny - nx - ny) by (nonlinear_arith);
}

/// Neighbouring live pairs starting at cell `(i, j)`: across x, across y.
pub open spec fn pairs_at(g: Seq<Seq<bool>>, i: int, j: int) -> nat {
    (if alive(g, i, j) && alive(g, i + 1, j) {
        1nat
    } else {
        0nat
    }) + (if alive(g, i, j) && alive(g, i, j + 1) {
        1nat
    } else {
        0nat
    })
}

/// Neighbouring live pairs starting in the first `j` cells of column `i`.
pub open spec fn column_pairs(g: Seq<Seq<bool>>, i: int, j: int) -> nat
    decreases j,
{
    if j <= 0 {
        0
    } else {
        column_pairs(g, i, j - 1) + pairs_at(g, i, j - 1)
    }
}

/// Neighbouring live pairs starting in the first `i` columns.
pub open spec fn grid_pairs(g: Seq<Seq<bool>>, i: int) -> nat
    decreases i,
{
    if i <= 0 {
        0
    } else {
        grid_pairs(g, i - 1) + column_pairs(g, i - 1, rows_of(g))
    }
}

proof fn lemma_column_pairs_len(g: Seq<Seq<bool>>, first: int, i: int, j: int)
    ensures
        column_bars(g, first, i, j).len() == column_pairs(g, i, j),
    decreases j,
{
    if j > 0 {
        lemma_column_pairs_len(g, first, i, j - 1);
    }
}

proof fn lemma_grid_pairs_len(g: Seq<Seq<bool>>, first: int, i: int)
    ensures
        grid_bars(g, first, i).len() == grid_pairs(g, i),
    decreases i,
{
    if i > 0 {
        lemma_grid_pairs_len(g, first, i - 1);
        lemma_column_pairs_len(g, first, i - 1, rows_of(g));
    }
}

/// The bars laid are as many as the pairs of neighbouring live cells,
/// counted independently of how they are laid.
pub proof fn lemma_bar_count(g: Seq<Seq<bool>>, first: int)
    ensures
        grid_bars(g, first, g.len() as int).len() == grid_pairs(g, g.len() as int),
{
    lemma_grid_pairs_len(g, first, g.len() as int);
}

proof fn lemma_column_pairs_monotone(g: Seq<Seq<bool>>, i: int, j: int, k: int)
    requires
        0 <= j <= k,
    ensures
        column_pairs(g, i, j) <= column_pairs(g, i, k),
    decreases k - j,
{
    if j < k {
        lemma_column_pairs_monotone(g, i, j, k - 1);
    }
}

proof fn lemma_grid_pairs_monotone(g: Seq<Seq<bool>>, i: int, k: int)
    requires
        0 <= i <= k,
    ensures
        grid_pairs(g, i) <= grid_pairs(g, k),
    decreases k - i,
{
    if i < k {
        lemma_grid_pairs_monotone(g, i, k - 1);
    }
}

/// Number of bars the plane mesh over the live-cell grid `live` carries,
/// counted pair by pair: a live cell and its live neighbour across x, and
/// across y.
pub fn live_bars(live: &Vec<Vec<bool>>) -> (count: usize)
    requires
        rectangular(grid_of(live@)),
        grid_pairs(grid_of(live@), live@.len() as int) <= usize::MAX,
    ensures
        count == grid_pairs(grid_of(live@), live@.len() as int),
{
    let ghost g = grid_of(live@);
    let nx = live.len();
    let ny: usize = if nx > 0 {
        live[0].len()
    } else {
        0
    };
    let mut bars: usize = 0;
    let mut i: usize = 0;
    while i < nx
        invariant
            nx == live@.len(),
            g == grid_of(live@),
            rectangular(g),
            ny == rows_of(g),
            grid_pairs(g, nx as int) <= usize::MAX,
            i <= nx,
            bars == grid_pairs(g, i as int),
        decreases nx - i,
    {
        assert(g[i as int] == live@[i as int]@);
        let mut j: usize = 0;
        while j < ny
            invariant
                nx == live@.len(),
                g == grid_of(live@),
                rectangular(g),
                ny == rows_of(g),
                grid_pairs(g, nx as int) <= usize::MAX,
                i < nx,
                j <= ny,
                bars == grid_pairs(g, i as int) + column_pairs(g, i as int, j as int),
            decreases ny - j,
        {
            proof {
                lemma_column_pairs_monotone(g, i as int, j + 1, ny as int);
                lemma_grid_pairs_monotone(g, i + 1, nx as int);
                assert(g[i as int] == live@[i as int]@);
                if i + 1 < nx {
                    assert(g[i + 1] == live@[i + 1]@);
                }
            }
            let here = live[i][j];
            if here && i + 1 < nx && live[i + 1][j] {
                bars = bars + 1;
            }
            if here && j + 1 < ny && live[i][j + 1] {
                bars = bars + 1;
            }
            j = j + 1;
        }
        i = i + 1;
    }
    bars
}

/// Lays out the plane mesh over the grid `live` of live cells (`live[i][j]`
/// for column `i`, row `j`), numbering nodes from `first`.
pub fn plane_topology(first: usize, live: &Vec<Vec<bool>>) -> (t: PlaneTopology)
    requires
        rectangular(grid_of(live@)),
        first + live_before(grid_of(live@), live@.len() as int) <= usize::MAX,
    ensures
        t.centres@.len() == live@.len(),
        forall|i: int| 0 <= i < live@.len() ==> (#[trigger] t.centres@[i])@.len() == live@[i]@.len(),
        forall|i: int, j: int|
            0 <= i < live@.len() && 0 <= j < live@[i]@.len() ==> (#[trigger] t.centres@[i]@[j]) == if live@[i]@[j] {
                Some(node_at(grid_of(live@), first as int, i, j))
            } else {
                None::<NodeId>
            },
        t.bars@ == grid_bars(grid_of(live@), first as int, live@.len() as int),
{
    let ghost g = grid_of(live@);
    let nx = live.len();
    let ny: usize = if nx > 0 {
        live[0].len()
    } else {
        0
    };
    assert(ny == rows_of(g));
    let mut centres: Vec<Vec<Option<NodeId>>> = Vec::new();
    let mut next: usize = first;
    let mut i: usize = 0;
    while i < nx
        invariant
            nx == live@.len(),
            g == grid_of(live@),
            rectangular(g),
            ny == rows_of(g),
            first + live_before(g, nx as int) <= usize::MAX,
            0 <= i <= nx,
            next == first + live_before(g, i as int),
            centres@.len() == i,
            forall|a: int| 0 <= a < i ==> (#[trigger] centres@[a])@.len() == ny,
            forall|a: int, b: int|
                0 <= a < i && 0 <= b < ny ==> (#[trigger] centres@[a]@[b]) == if g[a][b] {
                    Some(node_at(g, first as int, a, b))
                } else {
                    None::<NodeId>
                },
        decreases nx - i,
    {
        assert(g[i as int] == live@[i as int]@);
        assert(g[i as int].len() == ny);
        let column = &live[i];
        let mut cells: Vec<Option<NodeId>> = Vec::new();
        let mut j: usize = 0;
        while j < ny
            invariant
                nx == live@.len(),
                g == grid_of(live@),
                rectangular(g),
                ny == rows_of(g),
                first + live_before(g, nx as int) <= usize::MAX,
                i < nx,
                column@ == g[i as int],
                column@.len() == ny,
                0 <= j <= ny,
                next == first + rank(g, i as int, j as int),
                cells@.len() == j,
                forall|b: int|
                    0 <= b < j ==> (#[trigger] cells@[b]) == if g[i as int][b] {
                        Some(node_at(g, first as int, i as int, b))
                    } else {
                        None::<NodeId>
                    },
            decreases ny - j,
        {
            if column[j] {
                proof {
                    lemma_rank_below(g, i as int, j as int);
                }
                cells.push(Some(NodeId(next)));
                next = next + 1;
            } else {
                cells.push(None);
            }
            j = j + 1;
        }
        centres.push(cells);
        i = i + 1;
    }
    let mut bars: Vec<Bar> = Vec::new();
    let mut i: usize = 0;
    while i < nx
        invariant
            nx == live@.len(),
            g == grid_of(live@),
            rectangular(g),
            ny == rows_of(g),
            0 <= i <= nx,
            centres@.len() == nx,
            forall|a: int| 0 <= a < nx ==> (#[trigger] centres@[a])@.len() == ny,
            forall|a: int, b: int|
                0 <= a < nx && 0 <= b < ny ==> (#[trigger] centres@[a]@[b]) == if g[a][b] {
                    Some(node_at(g, first as int, a, b))
                } else {
                    None::<NodeId>
                },
            bars@ == grid_bars(g, first as int, i as int),
        decreases nx - i,
    {
        let mut j: usize = 0;
        while j < ny
            invariant
                nx == live@.len(),
                g == grid_of(live@),
                rectangular(g),
                ny == rows_of(g),
                i < nx,
                0 <= j <= ny,
                centres@.len() == nx,
                forall|a: int| 0 <= a < nx ==> (#[trigger] centres@[a])@.len() == ny,
                forall|a: int, b: int|
                    0 <= a < nx && 0 <= b < ny ==> (#[trigger] centres@[a]@[b]) == if g[a][b] {
                        Some(node_at(g, first as int, a, b))
                    } else {
                        None::<NodeId>
                    },
                bars@ == grid_bars(g, first as int, i as int) + column_bars(g, first as int, i as int, j as int),
            decreases ny - j,
        {
            let ghost before = bars@;
            let ghost cell = cell_bars(g, first as int, i as int, j as int);
            assert(centres@[i as int]@[j as int] == centres[i as int][j as int]);
            if let Some(here) = centres[i][j] {
                let mut x_bar: Option<Bar> = None;
                if i + 1 < nx {
                    assert(centres@[i + 1]@[j as int] == centres[i + 1][j as int]);
                    if let Some(right) = centres[i + 1][j] {
                        x_bar = Some(Bar { column: i, row: j, axis: BarAxis::X, from: here, to: right });
                    }
                }
                let mut y_bar: Option<Bar> = None;
                if j + 1 < ny {
                    assert(centres@[i as int]@[j + 1] == centres[i as int][j + 1]);
                    if let Some(up) = centres[i][j + 1] {
                        y_bar = Some(Bar { column: i, row: j, axis: BarAxis::Y, from: here, to: up });
                    }
                }
                if let Some(b) = x_bar {
                    bars.push(b);
                }
                if let Some(b) = y_bar {
                    bars.push(b);
                }
                proof {
                    assert(bars@ =~= before + cell);
                }
            } else {
                assert(cell =~= Seq::<Bar>::empty());
                assert(bars@ =~= before + cell);
            }
            assert(bars@ =~= grid_bars(g, first as int, i as int) + column_bars(g, first as int, i as int, j + 1));
            j = j + 1;
        }
        assert(bars@ =~= grid_bars(g, first as int, i + 1));
        i = i + 1;
    }
    assert forall|a: int| 0 <= a < live@.len() implies (#[trigger] live@[a])@ == g[a] && g[a].len() == ny by {
        assert(g[a] == live@[a]@);
    }
    PlaneTopology { centres, bars }
}

} // verus!
