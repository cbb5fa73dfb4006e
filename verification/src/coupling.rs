//! Coupling truncation: naming groups of segments and declaring which pairs
//! of groups are magnetically coupled, so that the mutual inductance of the
//! rest is never computed.
//!
//! Segments carry a group name; a [`Coupling`] says which groups couple to
//! which. A group is always coupled to itself, and [`Coupling::all_pairs`]
//! couples everything. A truncating coupling is checked against a geometry
//! by [`Coupling::validate`]: no more tags than segments, every declared
//! name in use, and a declared relation that is transitive, so that the
//! groups fall into independent blocks.

use vstd::prelude::*;

use crate::graph::{
    connected, lemma_connected_edge, lemma_connected_keeps_label, lemma_connected_refl,
    lemma_connected_sym, lemma_connected_trans, symmetric,
};
use crate::pair_mask::{PairMask, PairMaskModel};
use crate::text::{str_eq, to_string};

verus! {

/// The group a segment belongs to when it names none: the empty name.
pub const DEFAULT_GROUP: &'static str = "";

/// Why a [`Coupling`] does not fit its geometry.
#[derive(Clone, Debug, PartialEq, Eq)]
pub enum CouplingError {
    /// A declared coupling names a group no segment belongs to.
    UnknownGroup { name: String },
    /// More group tags than the geometry has segments.
    SegmentCountMismatch { expected: usize, got: usize },
    /// Two groups are reachable through other declared couplings, but are
    /// not declared coupled directly.
    NonTransitiveCoupling { groups: [String; 2] },
}

/// What checking a coupling against a segment count finds.
pub enum CouplingCheck {
    Fits,
    CountMismatch { expected: nat, got: nat },
    Unknown { name: Seq<char> },
    NonTransitive { first: Seq<char>, second: Seq<char> },
}

/// The finding that an error reports.
pub open spec fn error_check(e: CouplingError) -> CouplingCheck {
    match e {
        CouplingError::UnknownGroup { name } => CouplingCheck::Unknown { name: name@ },
        CouplingError::SegmentCountMismatch { expected, got } => CouplingCheck::CountMismatch {
            expected: expected as nat,
            got: got as nat,
        },
        CouplingError::NonTransitiveCoupling { groups } => CouplingCheck::NonTransitive {
            first: groups@[0]@,
            second: groups@[1]@,
        },
    }
}

/// The finding that a validation result reports.
pub open spec fn result_check(r: Result<(), CouplingError>) -> CouplingCheck {
    match r {
        Ok(()) => CouplingCheck::Fits,
        Err(e) => error_check(e),
    }
}

/// A declared pair of group names.
pub type NamePair = (Seq<char>, Seq<char>);

/// The mathematical content of a [`Coupling`]: the group tag of each
/// segment, and the declared pairs (`None` when nothing is truncated).
pub struct CouplingModel {
    pub groups: Seq<Seq<char>>,
    pub pairs: Option<Seq<NamePair>>,
}

/// The group of segment `i`: its tag, or the default group past the end of
/// the tag list.
pub open spec fn group_at(groups: Seq<Seq<char>>, i: int) -> Seq<char> {
    if 0 <= i < groups.len() {
        groups[i]
    } else {
        Seq::empty()
    }
}

/// The distinct groups of segments `0..k`, in order of first appearance.
pub open spec fn names_upto(groups: Seq<Seq<char>>, k: nat) -> Seq<Seq<char>>
    decreases k,
{
    if k == 0 {
        Seq::empty()
    } else {
        let before = names_upto(groups, (k - 1) as nat);
        let g = group_at(groups, k - 1);
        if before.contains(g) {
            before
        } else {
            before.push(g)
        }
    }
}

/// Whether `x` and `y` are declared coupled, in either order.
pub open spec fn pair_declared(pairs: Seq<NamePair>, x: Seq<char>, y: Seq<char>) -> bool {
    exists|k: int| 0 <= k < pairs.len() && (#[trigger] pairs[k] == (x, y) || pairs[k] == (y, x))
}

/// Whether the mutual inductance of groups `x` and `y` is kept.
pub open spec fn couples_spec(pairs: Option<Seq<NamePair>>, x: Seq<char>, y: Seq<char>) -> bool {
    match pairs {
        None => true,
        Some(ps) => x == y || pair_declared(ps, x, y),
    }
}

/// The coupling relation on group indices `0..names.len()`.
pub open spec fn group_edge(pairs: Option<Seq<NamePair>>, names: Seq<Seq<char>>) -> spec_fn(
    int,
    int,
) -> bool {
    |i: int, j: int| couples_spec(pairs, names[i], names[j])
}

/// Groups `a < b` that are not coupled, but reachable through other groups.
pub open spec fn indirect(edge: spec_fn(int, int) -> bool, n: int, a: int, b: int) -> bool {
    &&& 0 <= a < b < n
    &&& !edge(a, b)
    &&& connected(edge, n, a, b)
}

/// The first such pair in lexicographic order.
pub open spec fn first_indirect(edge: spec_fn(int, int) -> bool, n: int, a: int, b: int) -> bool {
    &&& indirect(edge, n, a, b)
    &&& forall|c: int, d: int| #[trigger] indirect(edge, n, c, d) ==> a < c || (a == c && b <= d)
}

/// The first name, in declaration order, that no group carries: the first
/// name of each pair is looked at before the second.
pub open spec fn first_unknown(pairs: Seq<NamePair>, names: Seq<Seq<char>>, k: int) -> Option<
    Seq<char>,
>
    decreases pairs.len() - k,
{
    if k < 0 || k >= pairs.len() {
        None
    } else if !names.contains(pairs[k].0) {
        Some(pairs[k].0)
    } else if !names.contains(pairs[k].1) {
        Some(pairs[k].1)
    } else {
        first_unknown(pairs, names, k + 1)
    }
}

impl CouplingModel {
    /// The groups present in a geometry of `n` segments.
    pub open spec fn names(self, n: nat) -> Seq<Seq<char>> {
        names_upto(self.groups, n)
    }

    /// The first unknown declared name, if any.
    pub open spec fn unknown(self, n: nat) -> Option<Seq<char>> {
        match self.pairs {
            None => None,
            Some(ps) => first_unknown(ps, self.names(n), 0),
        }
    }

    /// The coupling relation on the group indices of a geometry of `n`
    /// segments.
    pub open spec fn edge(self, n: nat) -> spec_fn(int, int) -> bool {
        group_edge(self.pairs, self.names(n))
    }

    /// Whether some pair of groups is reachable but not coupled.
    pub open spec fn has_indirect(self, n: nat) -> bool {
        exists|a: int, b: int| indirect(self.edge(n), self.names(n).len() as int, a, b)
    }

    /// What checking the coupling against `n` segments finds: too many
    /// tags, else the first unknown declared name, else the first
    /// non-transitive pair, else a fit.
    pub open spec fn check(self, n: nat) -> CouplingCheck {
        let names = self.names(n);
        if self.groups.len() > n {
            CouplingCheck::CountMismatch { expected: n, got: self.groups.len() }
        } else if self.unknown(n) is Some {
            CouplingCheck::Unknown { name: self.unknown(n).unwrap() }
        } else if self.has_indirect(n) {
            let (a, b) = choose|a: int, b: int|
                first_indirect(self.edge(n), names.len() as int, a, b);
            CouplingCheck::NonTransitive { first: names[a], second: names[b] }
        } else {
            CouplingCheck::Fits
        }
    }
}

/// Segment group names and the group pairs whose mutual inductance is kept.
#[derive(Clone, Debug, Default, PartialEq, Eq)]
pub struct Coupling {
    /// Group name of each segment, in geometry segment order.
    segment_groups: Vec<String>,
    /// Cross-group pairs to keep; `None` keeps every pair.
    couples: Option<Vec<[String; 2]>>,
}

/// The names of a list of strings.
pub open spec fn string_views(v: Seq<String>) -> Seq<Seq<char>> {
    v.map_values(|s: String| s@)
}

/// The name pairs of a list of declared pairs.
pub open spec fn pair_views(v: Seq<[String; 2]>) -> Seq<NamePair> {
    v.map_values(|p: [String; 2]| (p@[0]@, p@[1]@))
}

impl View for Coupling {
    type V = CouplingModel;

    closed spec fn view(&self) -> CouplingModel {
        CouplingModel {
            groups: string_views(self.segment_groups@),
            pairs: match self.couples {
                None => None,
                Some(v) => Some(pair_views(v@)),
            },
        }
    }
}

/// A [`Coupling`] resolved against a segment count.
pub(crate) struct Resolved {
    /// Group index of every segment.
    pub(crate) of_segment: Vec<usize>,
    /// Group names, in order of first appearance.
    pub(crate) names: Vec<String>,
    /// `names × names` coupling table.
    pub(crate) table: Vec<Vec<bool>>,
}

impl Resolved {
    /// The resolution of `c` against `n` segments.
    pub(crate) open spec fn resolves(self, c: CouplingModel, n: nat) -> bool {
        let names = c.names(n);
        &&& string_views(self.names@) == names
        &&& self.of_segment@.len() == n
        &&& forall|i: int|
            0 <= i < n ==> (#[trigger] self.of_segment@[i] as int) < names.len() && names[self.of_segment@[i] as int]
                == group_at(c.groups, i)
        &&& self.table@.len() == names.len()
        &&& forall|a: int| 0 <= a < names.len() ==> (#[trigger] self.table@[a])@.len() == names.len()
        &&& forall|a: int, b: int|
            0 <= a < names.len() && 0 <= b < names.len() ==> (#[trigger] self.table@[a]@[b])
                == couples_spec(c.pairs, names[a], names[b])
    }

    /// Whether groups `a` and `b` are coupled.
    pub(crate) fn couples(&self, a: usize, b: usize) -> (r: bool)
        requires
            a < self.table@.len(),
            b < self.table@[a as int]@.len(),
        ensures
            r == self.table@[a as int]@[b as int],
    {
        self.table[a][b]
    }
}

/// The distinct names carry no repetition, and every earlier group is among
/// them.
proof fn lemma_names_upto(groups: Seq<Seq<char>>, k: nat)
    ensures
        names_upto(groups, k).no_duplicates(),
        forall|i: int| 0 <= i < k ==> names_upto(groups, k).contains(#[trigger] group_at(groups, i)),
    decreases k,
{
    if k > 0 {
        lemma_names_upto(groups, (k - 1) as nat);
        let before = names_upto(groups, (k - 1) as nat);
        let g = group_at(groups, k - 1);
        if !before.contains(g) {
            let after = before.push(g);
            assert forall|i: int, j: int|
                0 <= i < after.len() && 0 <= j < after.len() && i != j implies after[i]
                != after[j] by {
                if i < before.len() && j < before.len() {
                } else if i < before.len() {
                    assert(after[i] == before[i]);
                } else {
                    assert(after[j] == before[j]);
                }
            }
            assert forall|i: int| 0 <= i < k implies after.contains(#[trigger] group_at(groups, i)) by {
                if i < k - 1 {
                    let j = choose|j: int| 0 <= j < before.len() && before[j] == group_at(groups, i);
                    assert(after[j] == before[j]);
                } else {
                    assert(after[before.len() as int] == g);
                }
            }
        }
    }
}

/// Index of `name` in `names`, if it is there.
fn find_name(names: &Vec<String>, name: &str) -> (r: Option<usize>)
    ensures
        match r {
            Some(j) => j < names@.len() && names@[j as int]@ == name@,
            None => !string_views(names@).contains(name@),
        },
{
    let mut j: usize = 0;
    while j < names.len()
        invariant
            j <= names@.len(),
            forall|k: int| 0 <= k < j ==> names@[k]@ != name@,
        decreases names@.len() - j,
    {
        if str_eq(names[j].as_str(), name) {
            return Some(j);
        }
        j = j + 1;
    }
    proof {
        if string_views(names@).contains(name@) {
            let k = choose|k: int| 0 <= k < string_views(names@).len() && string_views(names@)[k] == name@;
            assert(names@[k]@ == name@);
        }
    }
    None
}

/// Two lexicographically first pairs are the same pair.
proof fn lemma_first_indirect_unique(edge: spec_fn(int, int) -> bool, n: int, a: int, b: int, c: int, d: int)
    requires
        first_indirect(edge, n, a, b),
        first_indirect(edge, n, c, d),
    ensures
        a == c && b == d,
{
    assert(indirect(edge, n, c, d));
    assert(indirect(edge, n, a, b));
}

/// Rejects a coupling relation that is not transitive: the first pair of
/// groups, in lexicographic order, that are reachable through other groups
/// but not coupled directly.
///
/// Connected components of the coupling graph are labelled by merging the
/// labels of the two ends of every edge; a pair is then reachable exactly
/// when its labels agree.
fn check_transitive(table: &Vec<Vec<bool>>, names: &Vec<String>, Ghost(edge): Ghost<
    spec_fn(int, int) -> bool,
>) -> (r: Result<(), CouplingError>)
    requires
        table@.len() == names@.len(),
        forall|i: int| 0 <= i < table@.len() ==> (#[trigger] table@[i])@.len() == names@.len(),
        forall|i: int, j: int|
            0 <= i < names@.len() && 0 <= j < names@.len() ==> (#[trigger] table@[i]@[j]) == edge(
                i,
                j,
            ),
        symmetric(edge),
    ensures
        match r {
            Ok(()) => forall|a: int, b: int| !indirect(edge, names@.len() as int, a, b),
            Err(e) => exists|a: int, b: int|
                #![trigger indirect(edge, names@.len() as int, a, b)]
                first_indirect(edge, names@.len() as int, a, b) && error_check(e)
                    == (CouplingCheck::NonTransitive { first: names@[a]@, second: names@[b]@ }),
        },
{
    let n = names.len();
    let ghost ni = n as int;
    if n < 3 {
        proof {
            assert forall|a: int, b: int| !indirect(edge, ni, a, b) by {
                if indirect(edge, ni, a, b) {
                    // With at most two groups, `a` and `b` are the only
                    // vertices, and no edge joins two different ones.
                    let label = |i: int| if i == a { 0int } else { 1int };
                    assert forall|x: int, y: int|
                        0 <= x < ni && 0 <= y < ni && #[trigger] edge(x, y) implies label(x) == label(
                            y,
                        ) by {
                        if x != y {
                            assert((x == a && y == b) || (x == b && y == a));
                        }
                    }
                    lemma_connected_keeps_label(edge, ni, label, a, b);
                }
            }
        }
        return Ok(());
    }
    let mut comp: Vec<usize> = Vec::new();
    let mut i: usize = 0;
    while i < n
        invariant
            i <= n,
            comp@.len() == i,
            forall|j: int| 0 <= j < i ==> comp@[j] == j,
        decreases n - i,
    {
        comp.push(i);
        i = i + 1;
    }
    proof {
        assert forall|x: int, y: int|
            0 <= x < ni && 0 <= y < ni && comp@[x] == comp@[y] implies connected(edge, ni, x, y) by {
            lemma_connected_refl(edge, ni, x);
        }
    }
    // Merge the labels across every edge `a < b`, in lexicographic order.
    let mut a: usize = 0;
    while a < n
        invariant
            a <= n,
            n == names@.len(),
            ni == n,
            comp@.len() == n,
            table@.len() == n,
            forall|i: int| 0 <= i < table@.len() ==> (#[trigger] table@[i])@.len() == n,
            forall|i: int, j: int|
                0 <= i < n && 0 <= j < n ==> (#[trigger] table@[i]@[j]) == edge(i, j),
            symmetric(edge),
            forall|x: int| 0 <= x < n ==> #[trigger] comp@[x] < n,
            forall|x: int, y: int|
                0 <= x < n && 0 <= y < n && #[trigger] comp@[x] == #[trigger] comp@[y] ==> connected(
                    edge,
                    ni,
                    x,
                    y,
                ),
            forall|x: int, y: int|
                0 <= x < a && x < y < n && #[trigger] edge(x, y) ==> comp@[x] == comp@[y],
        decreases n - a,
    {
        let mut b: usize = a + 1;
        while b < n
            invariant
                a < n,
                a + 1 <= b <= n,
                n == names@.len(),
                ni == n,
                comp@.len() == n,
                table@.len() == n,
                forall|i: int| 0 <= i < table@.len() ==> (#[trigger] table@[i])@.len() == n,
                forall|i: int, j: int|
                    0 <= i < n && 0 <= j < n ==> (#[trigger] table@[i]@[j]) == edge(i, j),
                symmetric(edge),
                forall|x: int| 0 <= x < n ==> #[trigger] comp@[x] < n,
                forall|x: int, y: int|
                    0 <= x < n && 0 <= y < n && #[trigger] comp@[x] == #[trigger] comp@[y]
                        ==> connected(edge, ni, x, y),
                forall|x: int, y: int|
                    ((0 <= x < a && x < y < n) || (x == a && a < y < b)) && #[trigger] edge(x, y)
                        ==> comp@[x] == comp@[y],
            decreases n - b,
        {
            if table[a][b] && comp[a] != comp[b] {
                let ca = comp[a];
                let cb = comp[b];
                let ghost c0 = comp@;
                let mut x: usize = 0;
                while x < n
                    invariant
                        x <= n,
                        comp@.len() == n,
                        c0.len() == n,
                        forall|y: int|
                            0 <= y < x ==> #[trigger] comp@[y] == (if c0[y] == ca {
                                cb
                            } else {
                                c0[y]
                            }),
                        forall|y: int| x <= y < n ==> #[trigger] comp@[y] == c0[y],
                    decreases n - x,
                {
                    if comp[x] == ca {
                        comp.set(x, cb);
                    }
                    x = x + 1;
                }
                proof {
                    let ai = a as int;
                    let bi = b as int;
                    assert(edge(ai, bi));
                    assert(c0[ai] == ca && c0[bi] == cb);
                    assert forall|x: int, y: int|
                        0 <= x < n && 0 <= y < n && #[trigger] comp@[x] == #[trigger] comp@[y]
                            implies connected(edge, ni, x, y) by {
                        assert(comp@[x] == (if c0[x] == ca { cb } else { c0[x] }));
                        assert(comp@[y] == (if c0[y] == ca { cb } else { c0[y] }));
                        if c0[x] == ca && c0[y] != ca {
                            // x ~ a -- b ~ y
                            assert(c0[x] == c0[ai]);
                            assert(c0[bi] == c0[y]);
                            lemma_connected_edge(edge, ni, ai, bi);
                            lemma_connected_trans(edge, ni, x, ai, bi);
                            lemma_connected_trans(edge, ni, x, bi, y);
                        } else if c0[x] != ca && c0[y] == ca {
                            assert(c0[y] == c0[ai]);
                            assert(c0[bi] == c0[x]);
                            lemma_connected_edge(edge, ni, ai, bi);
                            lemma_connected_trans(edge, ni, y, ai, bi);
                            lemma_connected_trans(edge, ni, y, bi, x);
                            lemma_connected_sym(edge, ni, y, x);
                        } else {
                            assert(c0[x] == c0[y]);
                        }
                    }
                    assert forall|x: int, y: int|
                        ((0 <= x < a && x < y < n) || (x == a && a < y < b + 1)) && #[trigger] edge(
                            x,
                            y,
                        ) implies comp@[x] == comp@[y] by {
                        assert(comp@[x] == (if c0[x] == ca { cb } else { c0[x] }));
                        assert(comp@[y] == (if c0[y] == ca { cb } else { c0[y] }));
                        if x == a && y == b {
                        } else {
                            assert(c0[x] == c0[y]);
                        }
                    }
                    assert forall|x: int| 0 <= x < n implies #[trigger] comp@[x] < n by {
                        assert(comp@[x] == (if c0[x] == ca { cb } else { c0[x] }));
                    }
                }
            }
            b = b + 1;
        }
        a = a + 1;
    }
    // Labels now agree across every edge, so they agree along every walk.
    proof {
        let label = |i: int| comp@[i] as int;
        assert forall|x: int, y: int|
            0 <= x < ni && 0 <= y < ni && #[trigger] edge(x, y) implies label(x) == label(y) by {
            if x < y {
            } else if y < x {
                assert(edge(y, x));
            }
        }
        assert forall|x: int, y: int|
            0 <= x < ni && 0 <= y < ni && connected(edge, ni, x, y) implies comp@[x] == comp@[y] by {
            lemma_connected_keeps_label(edge, ni, label, x, y);
        }
    }
    let mut a: usize = 0;
    while a < n
        invariant
            a <= n,
            n == names@.len(),
            ni == n,
            comp@.len() == n,
            table@.len() == n,
            forall|i: int| 0 <= i < table@.len() ==> (#[trigger] table@[i])@.len() == n,
            forall|i: int, j: int|
                0 <= i < n && 0 <= j < n ==> (#[trigger] table@[i]@[j]) == edge(i, j),
            forall|x: int, y: int|
                0 <= x < n && 0 <= y < n && #[trigger] comp@[x] == #[trigger] comp@[y] ==> connected(
                    edge,
                    ni,
                    x,
                    y,
                ),
            forall|x: int, y: int|
                0 <= x < ni && 0 <= y < ni && connected(edge, ni, x, y) ==> comp@[x] == comp@[y],
            forall|c: int, d: int| 0 <= c < a ==> !#[trigger] indirect(edge, ni, c, d),
        decreases n - a,
    {
        let mut b: usize = a + 1;
        while b < n
            invariant
                a < n,
                a + 1 <= b <= n,
                n == names@.len(),
                ni == n,
                comp@.len() == n,
                table@.len() == n,
                forall|i: int| 0 <= i < table@.len() ==> (#[trigger] table@[i])@.len() == n,
                forall|i: int, j: int|
                    0 <= i < n && 0 <= j < n ==> (#[trigger] table@[i]@[j]) == edge(i, j),
                forall|x: int, y: int|
                    0 <= x < n && 0 <= y < n && #[trigger] comp@[x] == #[trigger] comp@[y]
                        ==> connected(edge, ni, x, y),
                forall|x: int, y: int|
                    0 <= x < ni && 0 <= y < ni && connected(edge, ni, x, y) ==> comp@[x] == comp@[y],
                forall|c: int, d: int|
                    (0 <= c < a || (c == a && d < b)) ==> !#[trigger] indirect(edge, ni, c, d),
            decreases n - b,
        {
            if !table[a][b] && comp[a] == comp[b] {
                let first = names[a].clone();
                let second = names[b].clone();
                let e = CouplingError::NonTransitiveCoupling { groups: [first, second] };
                proof {
                    let ai = a as int;
                    let bi = b as int;
                    assert(comp@[ai] == comp@[bi]);
                    assert(indirect(edge, ni, ai, bi));
                    assert forall|c: int, d: int| #[trigger] indirect(edge, ni, c, d) implies ai < c || (
                    ai == c && bi <= d) by {
                        if c < ai || (c == ai && d < bi) {
                            assert(!indirect(edge, ni, c, d));
                        }
                    }
                    assert(first_indirect(edge, ni, ai, bi));
                }
                return Err(e);
            }
            proof {
                let ai = a as int;
                let bi = b as int;
                if indirect(edge, ni, ai, bi) {
                    assert(comp@[ai] == comp@[bi]);
                }
            }
            b = b + 1;
        }
        proof {
            assert forall|c: int, d: int| 0 <= c < a + 1 implies !#[trigger] indirect(edge, ni, c, d) by {
                if c == a && indirect(edge, ni, c, d) {
                    assert(d < n);
                }
            }
        }
        a = a + 1;
    }
    Ok(())
}


/// Whether some declared index pair joins `a` and `b`, in either order.
fn declared_index(index_pairs: &Vec<(usize, usize)>, a: usize, b: usize) -> (r: bool)
    ensures
        r == exists|k: int|
            0 <= k < index_pairs@.len() && (#[trigger] index_pairs@[k] == (a, b) || index_pairs@[k]
                == (b, a)),
{
    let mut k: usize = 0;
    while k < index_pairs.len()
        invariant
            k <= index_pairs@.len(),
            forall|j: int| 0 <= j < k ==> !(#[trigger] index_pairs@[j] == (a, b) || index_pairs@[j] == (b, a)),
        decreases index_pairs@.len() - k,
    {
        let (x, y) = index_pairs[k];
        if (x == a && y == b) || (x == b && y == a) {
            return true;
        }
        k = k + 1;
    }
    false
}

impl Coupling {
    /// Couple everything to everything: the default.
    pub fn all_pairs() -> (r: Self)
        ensures
            r@.groups == Seq::<Seq<char>>::empty(),
            r@.pairs is None,
    {
        let r = Coupling { segment_groups: Vec::new(), couples: None };
        proof {
            assert(string_views(r.segment_groups@) =~= Seq::<Seq<char>>::empty());
        }
        r
    }

    /// Tag each segment with a group (in geometry segment order) and keep
    /// only the pairs declared with [`coupled`](Self::coupled): every group
    /// with itself, and nothing else until declared.
    pub fn truncated(segment_groups: Vec<String>) -> (r: Self)
        ensures
            r@.groups == string_views(segment_groups@),
            r@.pairs == Some(Seq::<NamePair>::empty()),
    {
        let r = Coupling { segment_groups, couples: Some(Vec::new()) };
        proof {
            assert(pair_views(Seq::<[String; 2]>::empty()) =~= Seq::<NamePair>::empty());
        }
        r
    }

    /// Declares that groups `a` and `b` are coupled. Switches an
    /// [`all_pairs`](Self::all_pairs) coupling into a truncating one.
    pub fn coupled(self, a: &str, b: &str) -> (r: Self)
        ensures
            r@.groups == self@.groups,
            r@.pairs == Some(
                match self@.pairs {
                    None => seq![(a@, b@)],
                    Some(ps) => ps.push((a@, b@)),
                },
            ),
    {
        let pair: [String; 2] = [to_string(a), to_string(b)];
        let ghost old_couples = self.couples;
        let Coupling { segment_groups, couples } = self;
        let list = match couples {
            None => {
                let mut v: Vec<[String; 2]> = Vec::new();
                v.push(pair);
                v
            },
            Some(v) => {
                let mut v = v;
                v.push(pair);
                v
            },
        };
        let r = Coupling { segment_groups, couples: Some(list) };
        proof {
            match old_couples {
                None => {
                    assert(pair_views(list@) =~= seq![(a@, b@)]);
                },
                Some(v) => {
                    assert(pair_views(list@) =~= pair_views(v@).push((a@, b@)));
                },
            }
        }
        r
    }

    /// Whether every pair is kept, so assembly is unaffected.
    pub fn is_all_pairs(&self) -> (r: bool)
        ensures
            r == (self@.pairs is None),
    {
        self.couples.is_none()
    }

    /// Whether this is the untouched default: no group tags, no truncation.
    pub fn is_trivial(&self) -> (r: bool)
        ensures
            r == (self@.groups.len() == 0 && self@.pairs is None),
    {
        self.segment_groups.len() == 0 && self.couples.is_none()
    }

    /// The group names, in geometry segment order.
    pub fn segment_groups(&self) -> (r: &[String])
        ensures
            string_views(r@) == self@.groups,
    {
        self.segment_groups.as_slice()
    }

    /// The declared cross-group couplings, or `None` when nothing is
    /// truncated.
    pub fn declared_couples(&self) -> (r: Option<&[[String; 2]]>)
        ensures
            match r {
                None => self@.pairs is None,
                Some(s) => self@.pairs == Some(pair_views(s@)),
            },
    {
        match &self.couples {
            None => None,
            Some(v) => Some(v.as_slice()),
        }
    }

    /// The group of segment `index`; [`DEFAULT_GROUP`] when it carries no
    /// tag.
    pub fn group_of(&self, index: usize) -> (r: &str)
        ensures
            r@ == group_at(self@.groups, index as int),
    {
        if index < self.segment_groups.len() {
            self.segment_groups[index].as_str()
        } else {
            proof {
                reveal_strlit("");
            }
            DEFAULT_GROUP
        }
    }

    /// Whether the mutual inductance of groups `a` and `b` is kept. A group
    /// is always coupled to itself, and everything is coupled under
    /// [`all_pairs`](Self::all_pairs).
    pub fn couples(&self, a: &str, b: &str) -> (r: bool)
        ensures
            r == couples_spec(self@.pairs, a@, b@),
    {
        match &self.couples {
            None => true,
            Some(pairs) => {
                if str_eq(a, b) {
                    return true;
                }
                let ghost ps = pair_views(pairs@);
                let mut k: usize = 0;
                while k < pairs.len()
                    invariant
                        k <= pairs@.len(),
                        ps == pair_views(pairs@),
                        self@.pairs == Some(ps),
                        forall|j: int| 0 <= j < k ==> !(#[trigger] ps[j] == (a@, b@) || ps[j] == (b@, a@)),
                    decreases pairs@.len() - k,
                {
                    let x = pairs[k][0].as_str();
                    let y = pairs[k][1].as_str();
                    if (str_eq(x, a) && str_eq(y, b)) || (str_eq(x, b) && str_eq(y, a)) {
                        proof {
                            assert(ps[k as int] == (x@, y@));
                            assert(ps[k as int] == (a@, b@) || ps[k as int] == (b@, a@));
                            assert(pair_declared(ps, a@, b@));
                        }
                        return true;
                    }
                    proof {
                        assert(ps[k as int] == (x@, y@));
                    }
                    k = k + 1;
                }
                false
            },
        }
    }

    /// Checks the coupling against a geometry of `segment_count` segments:
    /// no more tags than segments, every declared name in use, and a
    /// transitive coupling relation.
    pub fn validate(&self, segment_count: usize) -> (r: Result<(), CouplingError>)
        ensures
            result_check(r) == self@.check(segment_count as nat),
    {
        match self.resolve(segment_count) {
            Ok(_) => Ok(()),
            Err(e) => Err(e),
        }
    }

    /// Group indices per segment, the names in index order, and the coupled
    /// table.
    pub(crate) fn resolve(&self, segment_count: usize) -> (r: Result<Resolved, CouplingError>)
        ensures
            match r {
                Ok(res) => self@.check(segment_count as nat) is Fits && res.resolves(
                    self@,
                    segment_count as nat,
                ),
                Err(e) => error_check(e) == self@.check(segment_count as nat),
            },
    {
        let ghost n = segment_count as nat;
        let ghost groups = self@.groups;
        if self.segment_groups.len() > segment_count {
            return Err(
                CouplingError::SegmentCountMismatch {
                    expected: segment_count,
                    got: self.segment_groups.len(),
                },
            );
        }
        let mut names: Vec<String> = Vec::new();
        let mut of_segment: Vec<usize> = Vec::new();
        let mut index: usize = 0;
        proof {
            assert(string_views(names@) =~= names_upto(groups, 0));
        }
        while index < segment_count
            invariant
                index <= segment_count,
                groups == self@.groups,
                string_views(names@) == names_upto(groups, index as nat),
                of_segment@.len() == index,
                forall|i: int|
                    0 <= i < index ==> (#[trigger] of_segment@[i] as int) < names@.len()
                        && names@[of_segment@[i] as int]@ == group_at(groups, i),
            decreases segment_count - index,
        {
            let name = self.group_of(index);
            let ghost before = names@;
            match find_name(&names, name) {
                Some(j) => {
                    of_segment.push(j);
                    proof {
                        assert(string_views(names@)[j as int] == name@);
                        assert(string_views(names@).contains(name@));
                    }
                },
                None => {
                    of_segment.push(names.len());
                    names.push(to_string(name));
                    proof {
                        assert(string_views(names@) =~= string_views(before).push(name@));
                    }
                },
            }
            proof {
                assert forall|i: int|
                    0 <= i < index + 1 implies (#[trigger] of_segment@[i] as int) < names@.len()
                        && names@[of_segment@[i] as int]@ == group_at(groups, i) by {
                    if i < index {
                        assert(names@[of_segment@[i] as int] == before[of_segment@[i] as int]);
                    }
                }
            }
            index = index + 1;
        }
        let ghost names_m = names_upto(groups, n);
        proof {
            lemma_names_upto(groups, n);
        }
        // Declared pairs as group indices, failing on the first unknown name.
        let mut index_pairs: Vec<(usize, usize)> = Vec::new();
        match &self.couples {
            None => {},
            Some(pairs) => {
                let ghost pv = pair_views(pairs@);
                let mut k: usize = 0;
                while k < pairs.len()
                    invariant
                        k <= pairs@.len(),
                        pv == pair_views(pairs@),
                        self@.pairs == Some(pv),
                        n == segment_count as nat,
                        self@.groups.len() <= n,
                        names_m == self@.names(n),
                        string_views(names@) == names_m,
                        index_pairs@.len() == k,
                        forall|j: int|
                            0 <= j < k ==> (#[trigger] index_pairs@[j]).0 < names@.len()
                                && index_pairs@[j].1 < names@.len() && names@[index_pairs@[j].0 as int]@
                                == pv[j].0 && names@[index_pairs@[j].1 as int]@ == pv[j].1,
                        first_unknown(pv, names_m, 0) == first_unknown(pv, names_m, k as int),
                    decreases pairs@.len() - k,
                {
                    proof {
                        assert(pv[k as int] == (pairs@[k as int]@[0]@, pairs@[k as int]@[1]@));
                    }
                    let ia = match find_name(&names, pairs[k][0].as_str()) {
                        Some(i) => i,
                        None => {
                            let name = pairs[k][0].clone();
                            proof {
                                assert(name@ == pv[k as int].0);
                                assert(!names_m.contains(pv[k as int].0));
                                assert(first_unknown(pv, names_m, k as int) == Some(pv[k as int].0));
                            }
                            return Err(CouplingError::UnknownGroup { name });
                        },
                    };
                    let ib = match find_name(&names, pairs[k][1].as_str()) {
                        Some(i) => i,
                        None => {
                            let name = pairs[k][1].clone();
                            proof {
                                assert(string_views(names@)[ia as int] == pv[k as int].0);
                                assert(names_m.contains(pv[k as int].0));
                                assert(name@ == pv[k as int].1);
                                assert(!names_m.contains(pv[k as int].1));
                                assert(first_unknown(pv, names_m, k as int) == Some(pv[k as int].1));
                            }
                            return Err(CouplingError::UnknownGroup { name });
                        },
                    };
                    index_pairs.push((ia, ib));
                    proof {
                        assert(string_views(names@)[ia as int] == pv[k as int].0);
                        assert(string_views(names@)[ib as int] == pv[k as int].1);
                    }
                    k = k + 1;
                }
            },
        }
        let g = names.len();
        let ghost edge = self@.edge(n);
        let mut table: Vec<Vec<bool>> = Vec::new();
        let mut a: usize = 0;
        while a < g
            invariant
                a <= g,
                g == names@.len(),
                string_views(names@) == names_m,
                names_m.no_duplicates(),
                edge == self@.edge(n),
                names_m == self@.names(n),
                match self@.pairs {
                    None => true,
                    Some(pv) => forall|j: int|
                        0 <= j < index_pairs@.len() ==> (#[trigger] index_pairs@[j]).0 < names@.len()
                            && index_pairs@[j].1 < names@.len() && names@[index_pairs@[j].0 as int]@
                            == pv[j].0 && names@[index_pairs@[j].1 as int]@ == pv[j].1,
                },
                match self@.pairs {
                    None => true,
                    Some(pv) => index_pairs@.len() == pv.len(),
                },
                table@.len() == a,
                forall|i: int| 0 <= i < a ==> (#[trigger] table@[i])@.len() == g,
                forall|i: int, j: int| 0 <= i < a && 0 <= j < g ==> (#[trigger] table@[i]@[j]) == edge(i, j),
            decreases g - a,
        {
            let mut row: Vec<bool> = Vec::new();
            let mut b: usize = 0;
            while b < g
                invariant
                    a < g,
                    b <= g,
                    g == names@.len(),
                    string_views(names@) == names_m,
                    names_m.no_duplicates(),
                    edge == self@.edge(n),
                    names_m == self@.names(n),
                    match self@.pairs {
                        None => true,
                        Some(pv) => forall|j: int|
                            0 <= j < index_pairs@.len() ==> (#[trigger] index_pairs@[j]).0 < names@.len()
                                && index_pairs@[j].1 < names@.len() && names@[index_pairs@[j].0 as int]@
                                == pv[j].0 && names@[index_pairs@[j].1 as int]@ == pv[j].1,
                    },
                    match self@.pairs {
                        None => true,
                        Some(pv) => index_pairs@.len() == pv.len(),
                    },
                    row@.len() == b,
                    forall|j: int| 0 <= j < b ==> (#[trigger] row@[j]) == edge(a as int, j),
                decreases g - b,
            {
                let keep = match &self.couples {
                    None => true,
                    Some(_) => a == b || declared_index(&index_pairs, a, b),
                };
                proof {
                    let ai = a as int;
                    let bi = b as int;
                    match self@.pairs {
                        None => {},
                        Some(pv) => {
                            let x = names_m[ai];
                            let y = names_m[bi];
                            assert(x == names@[ai]@);
                            assert(y == names@[bi]@);
                            assert((x == y) == (ai == bi));
                            if pair_declared(pv, x, y) {
                                let k = choose|k: int|
                                    0 <= k < pv.len() && (#[trigger] pv[k] == (x, y) || pv[k] == (y, x));
                                let (p, q) = index_pairs@[k];
                                assert(names_m[p as int] == pv[k].0);
                                assert(names_m[q as int] == pv[k].1);
                                if pv[k] == (x, y) {
                                    assert(index_pairs@[k] == (a, b));
                                } else {
                                    assert(index_pairs@[k] == (b, a));
                                }
                            }
                            if exists|k: int|
                                0 <= k < index_pairs@.len() && (#[trigger] index_pairs@[k] == (a, b)
                                    || index_pairs@[k] == (b, a)) {
                                let k = choose|k: int|
                                    0 <= k < index_pairs@.len() && (#[trigger] index_pairs@[k] == (a, b)
                                        || index_pairs@[k] == (b, a));
                                assert(pv[k] == (x, y) || pv[k] == (y, x));
                            }
                        },
                    }
                    assert(keep == edge(ai, bi));
                }
                row.push(keep);
                b = b + 1;
            }
            table.push(row);
            a = a + 1;
        }
        proof {
            assert forall|x: int, y: int| #[trigger] edge(x, y) implies edge(y, x) by {
                lemma_couples_symmetric(*self, names_m[x], names_m[y]);
            }
            assert(symmetric(edge));
            assert forall|i: int, j: int|
                0 <= i < names@.len() && 0 <= j < names@.len() implies (#[trigger] table@[i]@[j]) == edge(i, j) by {
            }
        }
        let checked = check_transitive(&table, &names, Ghost(edge));
        proof {
            assert(self@.unknown(n) is None) by {
                match self@.pairs {
                    None => {},
                    Some(pv) => {
                        assert(first_unknown(pv, names_m, pv.len() as int) is None);
                    },
                }
            }
            assert(names_m.len() == names@.len());
        }
        match checked {
            Ok(()) => {
                let res = Resolved { of_segment, names, table };
                proof {
                    assert(!self@.has_indirect(n));
                    assert forall|i: int|
                        0 <= i < n implies (#[trigger] res.of_segment@[i] as int) < names_m.len()
                            && names_m[res.of_segment@[i] as int] == group_at(groups, i) by {
                        assert(string_views(res.names@)[res.of_segment@[i] as int] == res.names@[res.of_segment@[i] as int]@);
                    }
                }
                Ok(res)
            },
            Err(e) => {
                proof {
                    let ni = names_m.len() as int;
                    let (a, b) = choose|a: int, b: int|
                        #![trigger indirect(edge, ni, a, b)]
                        first_indirect(edge, ni, a, b) && error_check(e) == (CouplingCheck::NonTransitive {
                            first: names@[a]@,
                            second: names@[b]@,
                        });
                    assert(indirect(edge, ni, a, b));
                    assert(self@.has_indirect(n));
                    let (c, d) = choose|c: int, d: int| first_indirect(self@.edge(n), ni, c, d);
                    lemma_first_indirect_unique(edge, ni, a, b, c, d);
                    assert(names_m[a] == names@[a]@);
                    assert(names_m[b] == names@[b]@);
                }
                Err(e)
            },
        }
    }
}

/// Filaments of the segments before `s`, when segment `t` is cut into
/// `counts[t]` filaments.
pub open spec fn prefix_sum(counts: Seq<usize>, s: int) -> int
    decreases s,
{
    if s <= 0 {
        0
    } else {
        prefix_sum(counts, s - 1) + counts[s - 1]
    }
}

/// The filament mask of a coupling over segments cut into `counts[s]`
/// filaments each: one group per name present, filament `k` of segment `s`
/// (numbered `Σ_{t<s} counts[t] + k`) in the group of its segment, and the
/// table coupling exactly the group pairs the coupling keeps.
pub open spec fn mask_of(c: CouplingModel, counts: Seq<usize>, m: PairMaskModel) -> bool {
    let n = counts.len() as nat;
    let names = c.names(n);
    &&& m.wf()
    &&& m.groups == names.len()
    &&& m.group.len() == prefix_sum(counts, n as int)
    &&& forall|s: int, k: int|
        0 <= s < n && 0 <= k < counts[s] ==> {
            let g = #[trigger] m.group[prefix_sum(counts, s) + k] as int;
            g < names.len() && names[g] == group_at(c.groups, s)
        }
    &&& forall|a: int, b: int|
        0 <= a < names.len() && 0 <= b < names.len() ==> #[trigger] m.table[a][b] == couples_spec(
            c.pairs,
            names[a],
            names[b],
        )
}

/// Filament `i` of a mask keeps filament `j` exactly when the coupling
/// couples the groups of their segments `s` and `t`.
pub proof fn lemma_mask_keeps_by_segment(
    c: CouplingModel,
    counts: Seq<usize>,
    m: PairMaskModel,
    i: int,
    j: int,
    s: int,
    t: int,
)
    requires
        mask_of(c, counts, m),
        0 <= s < counts.len(),
        0 <= t < counts.len(),
        prefix_sum(counts, s) <= i < prefix_sum(counts, s + 1),
        prefix_sum(counts, t) <= j < prefix_sum(counts, t + 1),
    ensures
        m.keeps(i, j) == couples_spec(c.pairs, group_at(c.groups, s), group_at(c.groups, t)),
{
    let n = counts.len() as int;
    lemma_prefix_sum_monotone(counts, s + 1, n);
    lemma_prefix_sum_monotone(counts, t + 1, n);
    lemma_prefix_sum_monotone(counts, 0, s);
    lemma_prefix_sum_monotone(counts, 0, t);
    let k = i - prefix_sum(counts, s);
    let l = j - prefix_sum(counts, t);
    assert(prefix_sum(counts, s + 1) == prefix_sum(counts, s) + counts[s]);
    assert(prefix_sum(counts, t + 1) == prefix_sum(counts, t) + counts[t]);
    assert(0 <= k < counts[s] && 0 <= l < counts[t]);
    let names = c.names(n as nat);
    let gi = m.group[prefix_sum(counts, s) + k] as int;
    let gj = m.group[prefix_sum(counts, t) + l] as int;
    assert(gi < names.len() && names[gi] == group_at(c.groups, s));
    assert(gj < names.len() && names[gj] == group_at(c.groups, t));
    assert(m.group[i] as int == gi && m.group[j] as int == gj);
    assert(m.table[gi][gj] == couples_spec(c.pairs, names[gi], names[gj]));
}

/// No cross pairs of group `a` are dropped when the table keeps every pair
/// of groups.
proof fn lemma_dropped_row_none(m: PairMaskModel, a: int, b: int, x: int)
    requires
        0 <= a < m.groups,
        b <= m.groups,
        forall|p: int, q: int| 0 <= p < m.groups && 0 <= q < m.groups ==> #[trigger] m.table[p][q],
    ensures
        m.dropped_row(a, b, x) == 0,
    decreases b - a,
{
    if b > a + 1 {
        lemma_dropped_row_none(m, a, b - 1, x);
        assert(m.table[a][b - 1]);
    }
}

proof fn lemma_dropped_upto_none(m: PairMaskModel, a: int, x: int)
    requires
        a <= m.groups,
        forall|p: int, q: int| 0 <= p < m.groups && 0 <= q < m.groups ==> #[trigger] m.table[p][q],
    ensures
        m.dropped_upto(a, x) == 0,
    decreases a,
{
    if a > 0 {
        lemma_dropped_upto_none(m, a - 1, x);
        lemma_dropped_row_none(m, a - 1, m.groups as int, x);
    }
}

/// A coupling that truncates nothing gives a mask that keeps every pair of
/// groups, and so every one of the `n(n+1)/2` unordered filament pairs.
pub proof fn lemma_all_pairs_mask(c: CouplingModel, counts: Seq<usize>, m: PairMaskModel)
    requires
        mask_of(c, counts, m),
        c.pairs is None,
    ensures
        forall|a: int, b: int| 0 <= a < m.groups && 0 <= b < m.groups ==> #[trigger] m.table[a][b],
        m.kept_pairs() == m.total_pairs(),
{
    lemma_dropped_upto_none(m, m.groups as int, m.group.len() as int);
    crate::pair_mask::lemma_kept_pairs(m);
}

impl Coupling {
    /// The filament-level mask for a geometry whose segments were cut into
    /// `filaments_per_segment[i]` filaments each: filament `k` of segment
    /// `s` is numbered `Σ_{t<s} filaments_per_segment[t] + k` and carries
    /// the group of its segment.
    pub fn pair_mask(&self, filaments_per_segment: &[usize]) -> (r: Result<PairMask, CouplingError>)
        ensures
            match r {
                Ok(m) => self@.check(filaments_per_segment@.len() as nat) is Fits && mask_of(
                    self@,
                    filaments_per_segment@,
                    m@,
                ),
                Err(e) => error_check(e) == self@.check(filaments_per_segment@.len() as nat),
            },
    {
        let n = filaments_per_segment.len();
        let res = match self.resolve(n) {
            Ok(res) => res,
            Err(e) => {
                return Err(e);
            },
        };
        let ghost names = self@.names(n as nat);
        let ghost counts = filaments_per_segment@;
        let mut group: Vec<usize> = Vec::new();
        let mut s: usize = 0;
        while s < n
            invariant
                s <= n,
                n == counts.len(),
                counts == filaments_per_segment@,
                res.resolves(self@, n as nat),
                names == self@.names(n as nat),
                group@.len() == prefix_sum(counts, s as int),
                forall|t: int, k: int|
                    0 <= t < s && 0 <= k < counts[t] ==> {
                        let g = #[trigger] group@[prefix_sum(counts, t) + k] as int;
                        g < names.len() && names[g] == group_at(self@.groups, t)
                    },
            decreases n - s,
        {
            let c = res.of_segment[s];
            let count = filaments_per_segment[s];
            let ghost start = group@.len() as int;
            let ghost g0 = group@;
            let mut k: usize = 0;
            while k < count
                invariant
                    s < n,
                    n == counts.len(),
                    count == counts[s as int],
                    k <= count,
                    start == prefix_sum(counts, s as int),
                    group@.len() == start + k,
                    g0.len() == start,
                    forall|j: int| 0 <= j < start ==> #[trigger] group@[j] == g0[j],
                    forall|j: int| start <= j < start + k ==> #[trigger] group@[j] == c,
                decreases count - k,
            {
                let ghost before = group@;
                group.push(c);
                proof {
                    assert forall|j: int| start <= j < start + k + 1 implies #[trigger] group@[j] == c by {
                        if j < start + k {
                            assert(group@[j] == before[j]);
                        }
                    }
                    assert forall|j: int| 0 <= j < start implies #[trigger] group@[j] == g0[j] by {
                        assert(group@[j] == before[j]);
                    }
                }
                k = k + 1;
            }
            proof {
                assert(prefix_sum(counts, s as int + 1) == start + count);
                assert forall|t: int, k: int|
                    0 <= t < s + 1 && 0 <= k < counts[t] implies {
                        let g = #[trigger] group@[prefix_sum(counts, t) + k] as int;
                        g < names.len() && names[g] == group_at(self@.groups, t)
                    } by {
                    if t < s {
                        lemma_prefix_sum_monotone(counts, t + 1, s as int);
                        lemma_prefix_sum_monotone(counts, 0, t);
                        assert(prefix_sum(counts, t + 1) == prefix_sum(counts, t) + counts[t]);
                        assert(group@[prefix_sum(counts, t) + k] == g0[prefix_sum(counts, t) + k]);
                    } else {
                        assert(group@[prefix_sum(counts, t) + k] == c);
                    }
                }
            }
            s = s + 1;
        }
        let g = res.names.len();
        let f = |a: usize, b: usize| -> (r: bool)
            requires
                a < res.table@.len(),
                b < res.table@[a as int]@.len(),
            ensures
                r == res.table@[a as int]@[b as int],
            { res.couples(a, b) };
        let m = PairMask::from_groups(group, g, f);
        proof {
            assert forall|a: int, b: int|
                0 <= a < names.len() && 0 <= b < names.len() implies #[trigger] m@.table[a][b]
                    == couples_spec(self@.pairs, names[a], names[b]) by {
                lemma_couples_symmetric(*self, names[a], names[b]);
                if a < b {
                    if m@.table[a][b] {
                        assert(call_ensures(f, (a as usize, b as usize), true) || call_ensures(f, (b as usize, a as usize), true));
                    } else {
                        assert(call_ensures(f, (a as usize, b as usize), false));
                    }
                } else if b < a {
                    assert(m@.table[a][b] == m@.table[b][a]);
                    if m@.table[b][a] {
                        assert(call_ensures(f, (b as usize, a as usize), true) || call_ensures(f, (a as usize, b as usize), true));
                    } else {
                        assert(call_ensures(f, (b as usize, a as usize), false));
                    }
                } else {
                    assert(m@.table[a][a]);
                }
            }
        }
        Ok(m)
    }

    /// The group layout a truncation check works on: the group index of
    /// every one of `segment_count` segments, the group names in order of
    /// first appearance, and the group pairs `(a, b)`, `a < b`, that the
    /// coupling leaves uncoupled, in group order (none under
    /// [`all_pairs`](Self::all_pairs)). Which of these pairs lie close
    /// enough to warn about is a question of geometry, answered on them.
    pub fn truncated_pairs(&self, segment_count: usize) -> (r: Result<
        (Vec<usize>, Vec<String>, Vec<(usize, usize)>),
        CouplingError,
    >)
        ensures
            match r {
                Ok((of_segment, names, pairs)) => {
                    let ns = self@.names(segment_count as nat);
                    &&& self@.check(segment_count as nat) is Fits
                    &&& string_views(names@) == ns
                    &&& of_segment@.len() == segment_count
                    &&& forall|i: int|
                        0 <= i < segment_count ==> (#[trigger] of_segment@[i] as int) < ns.len()
                            && ns[of_segment@[i] as int] == group_at(self@.groups, i)
                    &&& pairs@ == uncoupled_below(self@.pairs, ns, ns.len() as int)
                },
                Err(e) => error_check(e) == self@.check(segment_count as nat),
            },
    {
        let res = match self.resolve(segment_count) {
            Ok(res) => res,
            Err(e) => {
                return Err(e);
            },
        };
        let ghost ns = self@.names(segment_count as nat);
        let ghost ps = self@.pairs;
        let k = res.names.len();
        let mut pairs: Vec<(usize, usize)> = Vec::new();
        let mut a: usize = 0;
        while a < k
            invariant
                a <= k,
                k == ns.len(),
                res.resolves(self@, segment_count as nat),
                ns == self@.names(segment_count as nat),
                ps == self@.pairs,
                pairs@ == uncoupled_below(ps, ns, a as int),
            decreases k - a,
        {
            let ghost before = pairs@;
            let mut b: usize = a + 1;
            while b < k
                invariant
                    a < k,
                    a + 1 <= b <= k,
                    k == ns.len(),
                    res.resolves(self@, segment_count as nat),
                    ns == self@.names(segment_count as nat),
                    ps == self@.pairs,
                    pairs@ == before + uncoupled_from(ps, ns, a as int, b as int),
                decreases k - b,
            {
                let ghost mid = pairs@;
                if !res.couples(a, b) {
                    pairs.push((a, b));
                }
                proof {
                    let prev = uncoupled_from(ps, ns, a as int, b as int);
                    if !couples_spec(ps, ns[a as int], ns[b as int]) {
                        assert(pairs@ =~= before + prev.push((a, b)));
                    }
                }
                b = b + 1;
            }
            a = a + 1;
        }
        Ok((res.of_segment, res.names, pairs))
    }
}

/// The group pairs `(a, c)`, `a < c < b`, that `pairs` leaves uncoupled,
/// in order of `c`.
pub open spec fn uncoupled_from(pairs: Option<Seq<NamePair>>, names: Seq<Seq<char>>, a: int, b: int) -> Seq<
    (usize, usize),
>
    decreases b - a,
{
    if b <= a + 1 {
        Seq::empty()
    } else {
        let prev = uncoupled_from(pairs, names, a, b - 1);
        if couples_spec(pairs, names[a], names[b - 1]) {
            prev
        } else {
            prev.push((a as usize, (b - 1) as usize))
        }
    }
}

/// The uncoupled group pairs whose first group is below `a`, in
/// lexicographic order.
pub open spec fn uncoupled_below(pairs: Option<Seq<NamePair>>, names: Seq<Seq<char>>, a: int) -> Seq<
    (usize, usize),
>
    decreases a,
{
    if a <= 0 {
        Seq::empty()
    } else {
        uncoupled_below(pairs, names, a - 1) + uncoupled_from(pairs, names, a - 1, names.len() as int)
    }
}

/// The filaments of earlier segments come first.
pub(crate) proof fn lemma_prefix_sum_monotone(counts: Seq<usize>, s: int, t: int)
    requires
        0 <= s <= t <= counts.len(),
    ensures
        prefix_sum(counts, s) <= prefix_sum(counts, t),
    decreases t - s,
{
    if s < t {
        lemma_prefix_sum_monotone(counts, s, t - 1);
    }
}

/// A group is always coupled to itself.
pub proof fn lemma_couples_reflexive(c: Coupling, x: Seq<char>)
    ensures
        couples_spec(c@.pairs, x, x),
{
}

/// Coupling is symmetric: `a` keeps `b` exactly when `b` keeps `a`.
pub proof fn lemma_couples_symmetric(c: Coupling, x: Seq<char>, y: Seq<char>)
    ensures
        couples_spec(c@.pairs, x, y) == couples_spec(c@.pairs, y, x),
{
    match c@.pairs {
        None => {},
        Some(ps) => {
            if pair_declared(ps, x, y) {
                let k = choose|k: int| 0 <= k < ps.len() && (#[trigger] ps[k] == (x, y) || ps[k] == (y, x));
                assert(pair_declared(ps, y, x));
            }
            if pair_declared(ps, y, x) {
                let k = choose|k: int| 0 <= k < ps.len() && (#[trigger] ps[k] == (y, x) || ps[k] == (x, y));
                assert(pair_declared(ps, x, y));
            }
        },
    }
}

/// A coupling that validates against a geometry couples its groups
/// transitively: if `x` keeps `y` and `y` keeps `z`, then `x` keeps `z`,
/// so the groups fall into independent blocks.
pub proof fn lemma_validated_is_transitive(
    c: Coupling,
    n: nat,
    x: Seq<char>,
    y: Seq<char>,
    z: Seq<char>,
)
    requires
        c@.check(n) is Fits,
        c@.names(n).contains(x),
        c@.names(n).contains(y),
        c@.names(n).contains(z),
        couples_spec(c@.pairs, x, y),
        couples_spec(c@.pairs, y, z),
    ensures
        couples_spec(c@.pairs, x, z),
{
    let names = c@.names(n);
    let ni = names.len() as int;
    let edge = c@.edge(n);
    let i = choose|i: int| 0 <= i < names.len() && names[i] == x;
    let j = choose|j: int| 0 <= j < names.len() && names[j] == y;
    let k = choose|k: int| 0 <= k < names.len() && names[k] == z;
    if !couples_spec(c@.pairs, x, z) {
        assert(edge(i, j));
        assert(edge(j, k));
        lemma_connected_edge(edge, ni, i, j);
        lemma_connected_edge(edge, ni, j, k);
        lemma_connected_trans(edge, ni, i, j, k);
        lemma_couples_symmetric(c, x, z);
        assert(i != k);
        assert(symmetric(edge)) by {
            assert forall|p: int, q: int| #[trigger] edge(p, q) implies edge(q, p) by {
                lemma_couples_symmetric(c, names[p], names[q]);
            }
        }
        if i < k {
            assert(indirect(edge, ni, i, k));
        } else {
            lemma_connected_sym(edge, ni, i, k);
            assert(indirect(edge, ni, k, i));
        }
        assert(c@.has_indirect(n));
    }
}

/// Conversely, a coupling whose tags fit, whose declared names are all in
/// use, and whose relation is transitive on the groups present validates.
pub proof fn lemma_transitive_validates(c: Coupling, n: nat)
    requires
        c@.groups.len() <= n,
        c@.unknown(n) is None,
        forall|x: Seq<char>, y: Seq<char>, z: Seq<char>|
            c@.names(n).contains(x) && c@.names(n).contains(y) && c@.names(n).contains(z)
                && #[trigger] couples_spec(c@.pairs, x, y) && #[trigger] couples_spec(c@.pairs, y, z)
                ==> couples_spec(c@.pairs, x, z),
    ensures
        c@.check(n) is Fits,
{
    let names = c@.names(n);
    let ni = names.len() as int;
    let edge = c@.edge(n);
    if c@.has_indirect(n) {
        let (a, b) = choose|a: int, b: int| indirect(edge, ni, a, b);
        let label = |i: int| if edge(a, i) { 1int } else { 0int };
        assert forall|p: int, q: int|
            0 <= p < ni && 0 <= q < ni && #[trigger] edge(p, q) implies label(p) == label(q) by {
            assert(names.contains(names[a]));
            assert(names.contains(names[p]));
            assert(names.contains(names[q]));
            lemma_couples_symmetric(c, names[p], names[q]);
            if edge(a, p) {
                assert(couples_spec(c@.pairs, names[a], names[p]));
                assert(couples_spec(c@.pairs, names[p], names[q]));
            }
            if edge(a, q) {
                assert(couples_spec(c@.pairs, names[a], names[q]));
                assert(couples_spec(c@.pairs, names[q], names[p]));
            }
        }
        assert(label(a) == 1);
        lemma_connected_keeps_label(edge, ni, label, a, b);
    }
}

/// A coupling that truncates nothing fits every geometry with at least as
/// many segments as tags: group tags alone change nothing.
pub proof fn lemma_untruncated_fits(c: Coupling, n: nat)
    requires
        c@.pairs is None,
        c@.groups.len() <= n,
    ensures
        c@.check(n) is Fits,
{
    let ni = c@.names(n).len() as int;
    assert forall|a: int, b: int| !indirect(c@.edge(n), ni, a, b) by {
    }
}

} // verus!
