//! Which filament pairs of an assembly are evaluated: each filament carries
//! a group index, and a symmetric table over the groups says which pairs of
//! groups are coupled.

use vstd::prelude::*;

verus! {

/// The mathematical content of a [`PairMask`].
pub struct PairMaskModel {
    /// Group index of each filament.
    pub group: Seq<usize>,
    /// Number of groups.
    pub groups: nat,
    /// `groups × groups` coupling table.
    pub table: Seq<Seq<bool>>,
}

impl PairMaskModel {
    /// The table is square, symmetric, and true on its diagonal.
    pub open spec fn wf(self) -> bool {
        &&& self.table.len() == self.groups
        &&& forall|a: int| 0 <= a < self.groups ==> (#[trigger] self.table[a]).len() == self.groups
        &&& forall|a: int| 0 <= a < self.groups ==> #[trigger] self.table[a][a]
        &&& forall|a: int, b: int|
            0 <= a < self.groups && 0 <= b < self.groups ==> #[trigger] self.table[a][b]
                == self.table[b][a]
    }

    /// Whether groups `a` and `b` are coupled; a group index out of range is
    /// coupled to everything.
    pub open spec fn group_keeps(self, a: int, b: int) -> bool {
        if 0 <= a < self.groups && 0 <= b < self.groups {
            self.table[a][b]
        } else {
            true
        }
    }

    /// Whether the partial inductance of filaments `i` and `j` is
    /// evaluated; a filament index out of range is coupled to everything.
    pub open spec fn keeps(self, i: int, j: int) -> bool {
        if 0 <= i < self.group.len() && 0 <= j < self.group.len() {
            self.group_keeps(self.group[i] as int, self.group[j] as int)
        } else {
            true
        }
    }

    /// Filaments among the first `m` that are in group `a`.
    pub open spec fn size_upto(self, a: int, m: int) -> nat
        decreases m,
    {
        if m <= 0 {
            0
        } else {
            self.size_upto(a, m - 1) + if self.group[m - 1] == a {
                1nat
            } else {
                0nat
            }
        }
    }

    /// Cross pairs between groups `a` and `b` among the first `m`
    /// filaments, when the table drops them.
    pub open spec fn dropped_pair(self, a: int, b: int, m: int) -> nat {
        if !self.table[a][b] {
            self.size_upto(a, m) * self.size_upto(b, m)
        } else {
            0
        }
    }

    /// Cross pairs dropped between group `a` and the groups `a+1 .. b`,
    /// among the first `m` filaments.
    pub open spec fn dropped_row(self, a: int, b: int, m: int) -> nat
        decreases b - a,
    {
        if b <= a + 1 {
            0
        } else {
            self.dropped_row(a, b - 1, m) + self.dropped_pair(a, b - 1, m)
        }
    }

    /// Cross pairs dropped between the groups `0 .. a` and all later
    /// groups, among the first `m` filaments.
    pub open spec fn dropped_upto(self, a: int, m: int) -> nat
        decreases a,
    {
        if a <= 0 {
            0
        } else {
            self.dropped_upto(a - 1, m) + self.dropped_row(a - 1, self.groups as int, m)
        }
    }

    /// All cross-group pairs the table drops.
    pub open spec fn dropped(self) -> nat {
        self.dropped_upto(self.groups as int, self.group.len() as int)
    }

    /// Unordered pairs, self terms included, of a full assembly.
    pub open spec fn total_pairs(self) -> nat {
        (self.group.len() * (self.group.len() + 1) / 2) as nat
    }

    /// Filaments among the first `k` whose pair with filament `j` is kept.
    pub open spec fn kept_with(self, j: int, k: int) -> nat
        decreases k,
    {
        if k <= 0 {
            0
        } else {
            self.kept_with(j, k - 1) + if self.keeps(k - 1, j) {
                1nat
            } else {
                0nat
            }
        }
    }

    /// Unordered kept pairs `i <= j` with `j` among the first `m` filaments.
    pub open spec fn kept_upto(self, m: int) -> nat
        decreases m,
    {
        if m <= 0 {
            0
        } else {
            self.kept_upto(m - 1) + self.kept_with(m - 1, m)
        }
    }

    /// Unordered pairs, self terms included, whose partial inductance is
    /// evaluated.
    pub open spec fn kept_pairs(self) -> nat {
        self.kept_upto(self.group.len() as int)
    }
}

/// Which filament pairs are evaluated.
#[derive(Debug, PartialEq, Eq)]
pub struct PairMask {
    group: Vec<usize>,
    coupled: Vec<Vec<bool>>,
    groups: usize,
}

/// The contents of a table of rows.
pub open spec fn table_view(t: Seq<Vec<bool>>) -> Seq<Seq<bool>> {
    t.map_values(|row: Vec<bool>| row@)
}

impl View for PairMask {
    type V = PairMaskModel;

    closed spec fn view(&self) -> PairMaskModel {
        PairMaskModel {
            group: self.group@,
            groups: self.groups as nat,
            table: table_view(self.coupled@),
        }
    }
}

impl PairMask {
    #[verifier::type_invariant]
    closed spec fn well_formed(self) -> bool {
        self@.wf()
    }

    /// The mask that keeps every pair of `filaments` filaments.
    pub fn all(filaments: usize) -> (r: Self)
        ensures
            r@.group == Seq::new(filaments as nat, |i: int| 0usize),
            r@.groups == 1,
            r@.table == seq![seq![true]],
    {
        let mut group: Vec<usize> = Vec::new();
        let mut i: usize = 0;
        while i < filaments
            invariant
                i <= filaments,
                group@ == Seq::new(i as nat, |k: int| 0usize),
            decreases filaments - i,
        {
            group.push(0);
            i = i + 1;
            proof {
                assert(group@ =~= Seq::new(i as nat, |k: int| 0usize));
            }
        }
        let mut row: Vec<bool> = Vec::new();
        row.push(true);
        let mut coupled: Vec<Vec<bool>> = Vec::new();
        coupled.push(row);
        let r = PairMask { group, coupled, groups: 1 };
        proof {
            assert(table_view(coupled@) =~= seq![seq![true]]);
        }
        r
    }

    /// A mask from a per-filament group index and a predicate on group
    /// indices.
    ///
    /// The predicate is symmetrized (`a` and `b` are coupled if it accepts
    /// either order, asked in that order) and the diagonal is forced true.
    /// Group indices at or above `groups`, and filament indices beyond
    /// `group`'s length, are treated as coupled.
    pub fn from_groups(group: Vec<usize>, groups: usize, coupled: impl Fn(usize, usize) -> bool) -> (r: Self)
        requires
            forall|a: usize, b: usize| a < groups && b < groups ==> call_requires(coupled, (a, b)),
        ensures
            r@.group == group@,
            r@.groups == groups,
            r@.wf(),
            forall|a: int, b: int|
                0 <= a < b < groups ==> (#[trigger] r@.table[a][b] ==> call_ensures(
                    coupled,
                    (a as usize, b as usize),
                    true,
                ) || call_ensures(coupled, (b as usize, a as usize), true)),
            forall|a: int, b: int|
                0 <= a < b < groups ==> (!#[trigger] r@.table[a][b] ==> call_ensures(
                    coupled,
                    (a as usize, b as usize),
                    false,
                ) && call_ensures(coupled, (b as usize, a as usize), false)),
    {
        let mut table: Vec<Vec<bool>> = Vec::new();
        let mut a: usize = 0;
        while a < groups
            invariant
                a <= groups,
                forall|x: usize, y: usize| x < groups && y < groups ==> call_requires(coupled, (x, y)),
                table@.len() == a,
                forall|x: int| 0 <= x < a ==> (#[trigger] table@[x])@.len() == groups,
                forall|x: int| 0 <= x < a ==> #[trigger] table@[x]@[x],
                forall|x: int, y: int|
                    0 <= x < a && 0 <= y < a ==> #[trigger] table@[x]@[y] == table@[y]@[x],
                forall|x: int, y: int|
                    0 <= x < y < groups && x < a ==> (#[trigger] table@[x]@[y] ==> call_ensures(
                        coupled,
                        (x as usize, y as usize),
                        true,
                    ) || call_ensures(coupled, (y as usize, x as usize), true)),
                forall|x: int, y: int|
                    0 <= x < y < groups && x < a ==> (!#[trigger] table@[x]@[y] ==> call_ensures(
                        coupled,
                        (x as usize, y as usize),
                        false,
                    ) && call_ensures(coupled, (y as usize, x as usize), false)),
            decreases groups - a,
        {
            let mut row: Vec<bool> = Vec::new();
            let mut b: usize = 0;
            while b < groups
                invariant
                    a < groups,
                    b <= groups,
                    forall|x: usize, y: usize|
                        x < groups && y < groups ==> call_requires(coupled, (x, y)),
                    table@.len() == a,
                    forall|x: int| 0 <= x < a ==> (#[trigger] table@[x])@.len() == groups,
                    row@.len() == b,
                    forall|y: int| 0 <= y < b && y < a ==> #[trigger] row@[y] == table@[y]@[a as int],
                    b > a ==> row@[a as int],
                    forall|y: int|
                        a < y < b ==> (#[trigger] row@[y] ==> call_ensures(
                            coupled,
                            (a, y as usize),
                            true,
                        ) || call_ensures(coupled, (y as usize, a), true)),
                    forall|y: int|
                        a < y < b ==> (!#[trigger] row@[y] ==> call_ensures(
                            coupled,
                            (a, y as usize),
                            false,
                        ) && call_ensures(coupled, (y as usize, a), false)),
                decreases groups - b,
            {
                let keep = if b < a {
                    table[b][a]
                } else {
                    a == b || coupled(a, b) || coupled(b, a)
                };
                row.push(keep);
                b = b + 1;
            }
            table.push(row);
            proof {
                let t = table@;
                assert forall|x: int, y: int|
                    0 <= x < a + 1 && 0 <= y < a + 1 implies #[trigger] t[x]@[y] == t[y]@[x] by {
                    if x == a && y < a {
                        assert(row@[y] == t[y]@[a as int]);
                    } else if y == a && x < a {
                        assert(row@[x] == t[x]@[a as int]);
                    }
                }
            }
            a = a + 1;
        }
        let r = PairMask { group, coupled: table, groups };
        proof {
            assert forall|x: int, y: int|
                0 <= x < groups && 0 <= y < groups implies #[trigger] r@.table[x][y] == table@[x]@[y] by {
            }
        }
        r
    }

    /// Number of filaments the mask describes.
    pub fn len(&self) -> (r: usize)
        ensures
            r == self@.group.len(),
    {
        self.group.len()
    }

    /// Whether the mask describes no filaments at all.
    pub fn is_empty(&self) -> (r: bool)
        ensures
            r == (self@.group.len() == 0),
    {
        self.group.len() == 0
    }

    /// Number of groups.
    pub fn groups(&self) -> (r: usize)
        ensures
            r == self@.groups,
    {
        self.groups
    }

    /// Whether the partial inductance of filaments `i` and `j` is evaluated.
    pub fn keeps(&self, i: usize, j: usize) -> (r: bool)
        ensures
            r == self@.keeps(i as int, j as int),
    {
        proof {
            use_type_invariant(self);
        }
        if i < self.group.len() && j < self.group.len() {
            let a = self.group[i];
            let b = self.group[j];
            if a < self.groups && b < self.groups {
                proof {
                    assert(self@.table[a as int] == self.coupled@[a as int]@);
                }
                self.coupled[a][b]
            } else {
                true
            }
        } else {
            true
        }
    }

    /// Whether every pair is kept, so that masking costs nothing.
    pub fn keeps_everything(&self) -> (r: bool)
        ensures
            r == forall|a: int, b: int| 0 <= a < self@.groups && 0 <= b < self@.groups ==> #[trigger] self@.table[a][b],
    {
        proof {
            use_type_invariant(self);
        }
        let mut a: usize = 0;
        while a < self.groups
            invariant
                a <= self.groups,
                self@.wf(),
                forall|x: int, y: int| 0 <= x < a && 0 <= y < self@.groups ==> #[trigger] self@.table[x][y],
            decreases self.groups - a,
        {
            let mut b: usize = 0;
            while b < self.groups
                invariant
                    a < self.groups,
                    b <= self.groups,
                    self@.wf(),
                    forall|x: int, y: int|
                        0 <= x < a && 0 <= y < self@.groups ==> #[trigger] self@.table[x][y],
                    forall|y: int| 0 <= y < b ==> #[trigger] self@.table[a as int][y],
                decreases self.groups - b,
            {
                proof {
                    assert(self@.table[a as int] == self.coupled@[a as int]@);
                }
                if !self.coupled[a][b] {
                    return false;
                }
                b = b + 1;
            }
            a = a + 1;
        }
        true
    }

    /// Unordered pairs (including the `n` self terms) the mask keeps, out of
    /// the [`total_pairs`](Self::total_pairs) a full assembly evaluates.
    pub fn kept_pairs(&self) -> (r: usize)
        requires
            self@.group.len() * (self@.group.len() + 1) <= usize::MAX,
        ensures
            r == self@.kept_pairs(),
    {
        proof {
            use_type_invariant(self);
            lemma_kept_pairs(self@);
        }
        let ghost mm = self@;
        let ghost n = self.group@.len() as int;
        let g = self.groups;
        // Counted as every pair, less the cross-group pairs dropped: a
        // filament whose group index is out of range is coupled to
        // everything and so is never subtracted.
        let mut sizes: Vec<usize> = Vec::new();
        let mut a: usize = 0;
        while a < g
            invariant
                a <= g,
                sizes@.len() == a,
                forall|x: int| 0 <= x < a ==> #[trigger] sizes@[x] == 0,
            decreases g - a,
        {
            sizes.push(0);
            a = a + 1;
        }
        let mut k: usize = 0;
        while k < self.group.len()
            invariant
                mm == self@,
                g == mm.groups,
                k <= n,
                n == mm.group.len(),
                sizes@.len() == g,
                forall|x: int| 0 <= x < g ==> #[trigger] sizes@[x] == mm.size_upto(x, k as int),
            decreases n - k,
        {
            let x = self.group[k];
            proof {
                lemma_size_upto_bound(mm, x as int, k as int);
            }
            if x < g {
                let c = sizes[x];
                sizes.set(x, c + 1);
            }
            k = k + 1;
        }
        let total = self.total_pairs();
        let mut dropped: usize = 0;
        let mut a: usize = 0;
        while a < g
            invariant
                mm == self@,
                mm.wf(),
                g == mm.groups,
                n == mm.group.len(),
                a <= g,
                sizes@.len() == g,
                forall|x: int| 0 <= x < g ==> #[trigger] sizes@[x] == mm.size_upto(x, n),
                dropped == mm.dropped_upto(a as int, n),
                mm.dropped() <= total,
                total == mm.total_pairs(),
            decreases g - a,
        {
            let mut b: usize = a + 1;
            proof {
                lemma_upto_monotone(mm, a as int + 1, g as int, n);
            }
            while b < g
                invariant
                    mm == self@,
                    mm.wf(),
                    g == mm.groups,
                    n == mm.group.len(),
                    a < b <= g,
                    sizes@.len() == g,
                    forall|x: int| 0 <= x < g ==> #[trigger] sizes@[x] == mm.size_upto(x, n),
                    dropped == mm.dropped_upto(a as int, n) + mm.dropped_row(a as int, b as int, n),
                    mm.dropped_upto(a as int + 1, n) <= total,
                    total == mm.total_pairs(),
                decreases g - b,
            {
                proof {
                    lemma_row_monotone(mm, a as int, b as int + 1, g as int, n);
                    assert(mm.table[a as int] == self.coupled@[a as int]@);
                }
                if !self.coupled[a][b] {
                    dropped = dropped + sizes[a] * sizes[b];
                }
                b = b + 1;
            }
            a = a + 1;
        }
        total - dropped
    }

    /// Unordered pairs a full assembly of the same filaments evaluates,
    /// `n·(n+1)/2`.
    pub fn total_pairs(&self) -> (r: usize)
        requires
            self@.group.len() * (self@.group.len() + 1) <= usize::MAX,
        ensures
            r == self@.total_pairs(),
    {
        let n = self.group.len();
        assert(n + 1 <= usize::MAX) by (nonlinear_arith)
            requires
                n * (n + 1) <= usize::MAX,
        ;
        n * (n + 1) / 2
    }
}


// ---------------------------------------------------------------------------
// Counting kept pairs.
// ---------------------------------------------------------------------------

/// Filaments, among the first `m`, of the groups `a < k` that group `g`
/// is not coupled to.
spec fn uncoupled_to(mm: PairMaskModel, g: int, m: int, k: int) -> nat
    decreases k,
{
    if k <= 0 {
        0
    } else {
        uncoupled_to(mm, g, m, k - 1) + if !mm.table[k - 1][g] {
            mm.size_upto(k - 1, m)
        } else {
            0nat
        }
    }
}

/// Before any filament, no group has members.
proof fn lemma_uncoupled_empty(mm: PairMaskModel, g: int, k: int)
    requires
        k >= 0,
    ensures
        uncoupled_to(mm, g, 0, k) == 0,
    decreases k,
{
    if k > 0 {
        lemma_uncoupled_empty(mm, g, k - 1);
    }
}

/// Filament `m` joins its group.
proof fn lemma_uncoupled_step(mm: PairMaskModel, g: int, m: int, k: int)
    requires
        0 <= m < mm.group.len(),
        k >= 0,
    ensures
        uncoupled_to(mm, g, m + 1, k) == uncoupled_to(mm, g, m, k) + if (mm.group[m] as int) < k
            && !mm.table[mm.group[m] as int][g] {
            1int
        } else {
            0int
        },
    decreases k,
{
    if k > 0 {
        lemma_uncoupled_step(mm, g, m, k - 1);
    }
}

/// Among the first `k` filaments, those kept with filament `j` and those
/// whose group is not coupled to `j`'s make up all `k`.
proof fn lemma_column(mm: PairMaskModel, j: int, k: int)
    requires
        mm.wf(),
        0 <= j < mm.group.len(),
        0 <= k <= mm.group.len(),
        (mm.group[j] as int) < mm.groups,
    ensures
        mm.kept_with(j, k) + uncoupled_to(mm, mm.group[j] as int, k, mm.groups as int) == k,
    decreases k,
{
    let g = mm.group[j] as int;
    if k == 0 {
        lemma_uncoupled_empty(mm, g, mm.groups as int);
    } else {
        lemma_column(mm, j, k - 1);
        lemma_uncoupled_step(mm, g, k - 1, mm.groups as int);
    }
}

/// A filament outside every group is kept with everything.
proof fn lemma_column_free(mm: PairMaskModel, j: int, k: int)
    requires
        0 <= j < mm.group.len(),
        0 <= k <= mm.group.len(),
        (mm.group[j] as int) >= mm.groups,
    ensures
        mm.kept_with(j, k) == k,
    decreases k,
{
    if k > 0 {
        lemma_column_free(mm, j, k - 1);
    }
}

/// The dropped pairs of two distinct groups when filament `m` joins one of
/// them.
proof fn lemma_pair_step(mm: PairMaskModel, a: int, b: int, m: int)
    requires
        0 <= m < mm.group.len(),
        a != b,
    ensures
        mm.dropped_pair(a, b, m + 1) == mm.dropped_pair(a, b, m) + if !mm.table[a][b] {
            (if a == mm.group[m] {
                mm.size_upto(b, m) as int
            } else {
                0int
            }) + (if b == mm.group[m] {
                mm.size_upto(a, m) as int
            } else {
                0int
            })
        } else {
            0int
        },
{
    let x = mm.size_upto(a, m) as int;
    let y = mm.size_upto(b, m) as int;
    let da: int = if a == mm.group[m] {
        1
    } else {
        0
    };
    let db: int = if b == mm.group[m] {
        1
    } else {
        0
    };
    assert(mm.size_upto(a, m + 1) == x + da);
    assert(mm.size_upto(b, m + 1) == y + db);
    assert(da * db == 0);
    assert((x + da) * (y + db) == x * y + da * y + db * x) by (nonlinear_arith)
        requires
            da * db == 0,
    ;
}

/// Gain of row `a` of the dropped pairs when filament `m`, of group `g`,
/// joins.
spec fn row_gain(mm: PairMaskModel, g: int, a: int, b: int, m: int) -> int {
    if a == g {
        uncoupled_to(mm, g, m, b) - uncoupled_to(mm, g, m, a + 1)
    } else if a < g < b && !mm.table[a][g] {
        mm.size_upto(a, m) as int
    } else {
        0
    }
}

proof fn lemma_row_step(mm: PairMaskModel, a: int, b: int, m: int)
    requires
        mm.wf(),
        0 <= m < mm.group.len(),
        0 <= a < b <= mm.groups,
        (mm.group[m] as int) < mm.groups,
    ensures
        mm.dropped_row(a, b, m + 1) == mm.dropped_row(a, b, m) + row_gain(mm, mm.group[m] as int, a, b, m),
    decreases b - a,
{
    let g = mm.group[m] as int;
    if b > a + 1 {
        lemma_row_step(mm, a, b - 1, m);
        lemma_pair_step(mm, a, b - 1, m);
        assert(mm.table[a][b - 1] == mm.table[b - 1][a]);
        if a == g {
            assert(uncoupled_to(mm, g, m, b) == uncoupled_to(mm, g, m, b - 1) + if !mm.table[b - 1][g] {
                mm.size_upto(b - 1, m)
            } else {
                0nat
            });
        }
    }
}

/// Gain of the rows before `a` when filament `m`, of group `g`, joins.
spec fn upto_gain(mm: PairMaskModel, g: int, a: int, m: int) -> int {
    uncoupled_to(mm, g, m, if a < g {
        a
    } else {
        g
    }) + if g < a {
        uncoupled_to(mm, g, m, mm.groups as int) - uncoupled_to(mm, g, m, g + 1)
    } else {
        0int
    }
}

proof fn lemma_upto_step(mm: PairMaskModel, a: int, m: int)
    requires
        mm.wf(),
        0 <= m < mm.group.len(),
        0 <= a <= mm.groups,
        (mm.group[m] as int) < mm.groups,
    ensures
        mm.dropped_upto(a, m + 1) == mm.dropped_upto(a, m) + upto_gain(mm, mm.group[m] as int, a, m),
    decreases a,
{
    if a > 0 {
        lemma_upto_step(mm, a - 1, m);
        lemma_row_step(mm, a - 1, mm.groups as int, m);
    }
}

/// Filament `m` outside every group changes no dropped pair.
proof fn lemma_upto_free(mm: PairMaskModel, a: int, m: int)
    requires
        0 <= m < mm.group.len(),
        0 <= a <= mm.groups,
        (mm.group[m] as int) >= mm.groups,
    ensures
        mm.dropped_upto(a, m + 1) == mm.dropped_upto(a, m),
    decreases a,
{
    if a > 0 {
        lemma_upto_free(mm, a - 1, m);
        lemma_row_free(mm, a - 1, mm.groups as int, m);
    }
}

proof fn lemma_row_free(mm: PairMaskModel, a: int, b: int, m: int)
    requires
        0 <= m < mm.group.len(),
        0 <= a,
        b <= mm.groups,
        (mm.group[m] as int) >= mm.groups,
    ensures
        mm.dropped_row(a, b, m + 1) == mm.dropped_row(a, b, m),
    decreases b - a,
{
    if b > a + 1 {
        lemma_row_free(mm, a, b - 1, m);
        lemma_pair_step(mm, a, b - 1, m);
    }
}

/// Before any filament nothing is dropped.
proof fn lemma_upto_empty(mm: PairMaskModel, a: int)
    requires
        0 <= a,
    ensures
        mm.dropped_upto(a, 0) == 0,
    decreases a,
{
    if a > 0 {
        lemma_upto_empty(mm, a - 1);
        lemma_row_empty(mm, a - 1, mm.groups as int);
    }
}

proof fn lemma_row_empty(mm: PairMaskModel, a: int, b: int)
    ensures
        mm.dropped_row(a, b, 0) == 0,
    decreases b - a,
{
    if b > a + 1 {
        lemma_row_empty(mm, a, b - 1);
    }
}

/// Among the first `m` filaments, the kept pairs and the dropped pairs
/// make up all `m·(m+1)/2` unordered pairs.
proof fn lemma_kept_upto(mm: PairMaskModel, m: int)
    requires
        mm.wf(),
        0 <= m <= mm.group.len(),
    ensures
        mm.kept_upto(m) + mm.dropped_upto(mm.groups as int, m) == m * (m + 1) / 2,
    decreases m,
{
    let gs = mm.groups as int;
    if m == 0 {
        lemma_upto_empty(mm, gs);
    } else {
        let k = m - 1;
        lemma_kept_upto(mm, k);
        let g = mm.group[k] as int;
        assert(mm.keeps(k, k));
        if g < gs {
            lemma_column(mm, k, k);
            lemma_upto_step(mm, gs, k);
            assert(uncoupled_to(mm, g, k, g + 1) == uncoupled_to(mm, g, k, g));
        } else {
            lemma_column_free(mm, k, k);
            lemma_upto_free(mm, gs, k);
        }
        assert(m * (m + 1) / 2 == k * (k + 1) / 2 + m) by (nonlinear_arith)
            requires
                k == m - 1,
                m >= 1,
        ;
    }
}

/// The kept pairs are every unordered pair, self terms included, less the
/// cross-group pairs the table drops.
pub proof fn lemma_kept_pairs(mm: PairMaskModel)
    requires
        mm.wf(),
    ensures
        mm.kept_pairs() + mm.dropped() == mm.total_pairs(),
{
    let n = mm.group.len() as int;
    lemma_kept_upto(mm, n);
    assert(n * (n + 1) >= 0) by (nonlinear_arith)
        requires
            n >= 0,
    ;
}


/// A group has no more members than there are filaments.
proof fn lemma_size_upto_bound(mm: PairMaskModel, a: int, m: int)
    ensures
        mm.size_upto(a, m) <= if m >= 0 {
            m
        } else {
            0
        },
    decreases m,
{
    if m > 0 {
        lemma_size_upto_bound(mm, a, m - 1);
    }
}

/// Row sums grow with the row.
proof fn lemma_row_monotone(mm: PairMaskModel, a: int, b: int, c: int, m: int)
    requires
        a < b <= c,
    ensures
        mm.dropped_row(a, b, m) <= mm.dropped_row(a, c, m),
    decreases c - b,
{
    if b < c {
        lemma_row_monotone(mm, a, b, c - 1, m);
    }
}

/// Sums over rows grow with the rows.
proof fn lemma_upto_monotone(mm: PairMaskModel, a: int, c: int, m: int)
    requires
        a <= c,
    ensures
        mm.dropped_upto(a, m) <= mm.dropped_upto(c, m),
    decreases c - a,
{
    if a < c {
        lemma_upto_monotone(mm, a, c - 1, m);
    }
}


/// Whether a pair is kept does not depend on its order.
pub proof fn lemma_keeps_symmetric(mm: PairMaskModel, i: int, j: int)
    requires
        mm.wf(),
    ensures
        mm.keeps(i, j) == mm.keeps(j, i),
{
}

/// Every group is coupled to itself, so self and intra-group terms always
/// survive.
pub proof fn lemma_same_group_kept(mm: PairMaskModel, i: int, j: int)
    requires
        mm.wf(),
        0 <= i < mm.group.len(),
        0 <= j < mm.group.len(),
        mm.group[i] == mm.group[j],
    ensures
        mm.keeps(i, j),
{
}

} // verus!
