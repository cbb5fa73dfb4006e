pub mod cli;
pub mod columns;
pub mod coupling;
pub mod fft;
pub mod geometry;
pub mod graph;
pub mod grid;
pub mod inductance;
pub mod inp;
pub mod mat;
pub mod memo;
pub mod mesh;
pub mod near;
pub mod pair_mask;
pub mod plane;
pub mod result;
pub mod sparse;
pub mod spread;
pub mod text;

use vstd::prelude::*;

use crate::coupling::prefix_sum;

verus! {

/// Number of filaments across the width (`nw`) and height (`nh`) of a segment.
#[derive(Clone, Copy, Debug, PartialEq, Eq, Hash)]
pub struct Subdivision {
    pub nw: usize,
    pub nh: usize,
}

impl Subdivision {
    /// `nw` filaments across the width and `nh` across the height.
    pub fn new(nw: usize, nh: usize) -> (s: Self)
        ensures
            s.nw == nw,
            s.nh == nh,
    {
        Subdivision { nw, nh }
    }
}


/// The subdivision every segment shares, if they all share one: a deck
/// whose segments agree is discretized uniformly.
pub fn shared_subdivision(subs: &[Subdivision]) -> (r: Option<Subdivision>)
    requires
        subs@.len() > 0,
    ensures
        r == if forall|i: int| 0 <= i < subs@.len() ==> #[trigger] subs@[i] == subs@[0] {
            Some(subs@[0])
        } else {
            None::<Subdivision>
        },
{
    let first = subs[0];
    let mut i: usize = 1;
    while i < subs.len()
        invariant
            1 <= i <= subs@.len(),
            first == subs@[0],
            forall|j: int| 0 <= j < i ==> #[trigger] subs@[j] == subs@[0],
        decreases subs@.len() - i,
    {
        let s = subs[i];
        if s.nw != first.nw || s.nh != first.nh {
            proof {
                assert(subs@[i as int] != subs@[0]);
            }
            return None;
        }
        i = i + 1;
    }
    Some(first)
}

/// Why the filament counts of a discretization do not fit a `usize`.
#[derive(Clone, Copy, Debug, PartialEq, Eq)]
pub enum FilamentCountError {
    /// The `nw × nh` grid of segment `segment` overflows.
    Grid { segment: usize },
    /// The filaments of the segments up to this one together overflow.
    Total { segment: usize },
}

/// Filaments a segment is cut into.
pub open spec fn filaments_of(s: Subdivision) -> int {
    s.nw * s.nh
}

/// Filaments of the first `i` segments.
pub open spec fn filament_total(subs: Seq<Subdivision>, i: int) -> int
    decreases i,
{
    if i <= 0 {
        0
    } else {
        filament_total(subs, i - 1) + filaments_of(subs[i - 1])
    }
}

/// Counting the filaments of segment `i` overflows: its own grid, or the
/// running total.
pub open spec fn count_overflows(subs: Seq<Subdivision>, i: int) -> bool {
    filaments_of(subs[i]) > usize::MAX || filament_total(subs, i + 1) > usize::MAX
}

/// Segment `i` is the first whose count overflows.
pub open spec fn first_overflow(subs: Seq<Subdivision>, i: int) -> bool {
    &&& 0 <= i < subs.len()
    &&& count_overflows(subs, i)
    &&& forall|j: int| 0 <= j < i ==> !#[trigger] count_overflows(subs, j)
}

/// The filaments of each segment, `nw · nh`, and their total; or, at the
/// first segment where a count overflows, which one did.
pub fn filament_counts(subs: &[Subdivision]) -> (r: Result<(Vec<usize>, usize), FilamentCountError>)
    ensures
        match r {
            Ok((counts, total)) => {
                &&& forall|i: int| 0 <= i < subs@.len() ==> !#[trigger] count_overflows(subs@, i)
                &&& counts@.len() == subs@.len()
                &&& forall|i: int| 0 <= i < subs@.len() ==> #[trigger] counts@[i] == filaments_of(subs@[i])
                &&& total == filament_total(subs@, subs@.len() as int)
                &&& prefix_sum(counts@, counts@.len() as int) == total
            },
            Err(e) => exists|i: int|
                #[trigger] first_overflow(subs@, i) && e == if filaments_of(subs@[i]) > usize::MAX {
                    FilamentCountError::Grid { segment: i as usize }
                } else {
                    FilamentCountError::Total { segment: i as usize }
                },
        },
{
    let mut counts: Vec<usize> = Vec::new();
    let mut total: usize = 0;
    let mut i: usize = 0;
    while i < subs.len()
        invariant
            i <= subs@.len(),
            counts@.len() == i,
            forall|j: int| 0 <= j < i ==> !#[trigger] count_overflows(subs@, j),
            forall|j: int| 0 <= j < i ==> #[trigger] counts@[j] == filaments_of(subs@[j]),
            total == filament_total(subs@, i as int),
            prefix_sum(counts@, i as int) == total,
        decreases subs@.len() - i,
    {
        let s = subs[i];
        let count = match s.nw.checked_mul(s.nh) {
            Some(c) => c,
            None => {
                assert(first_overflow(subs@, i as int));
                return Err(FilamentCountError::Grid { segment: i });
            },
        };
        let next = match total.checked_add(count) {
            Some(t) => t,
            None => {
                assert(first_overflow(subs@, i as int));
                return Err(FilamentCountError::Total { segment: i });
            },
        };
        let ghost before = counts@;
        counts.push(count);
        proof {
            lemma_prefix_sum_prefix(counts@, before, i as int);
        }
        total = next;
        i = i + 1;
    }
    Ok((counts, total))
}

/// `prefix_sum` over the first `i` entries sees only those entries.
proof fn lemma_prefix_sum_prefix(longer: Seq<usize>, shorter: Seq<usize>, i: int)
    requires
        0 <= i <= shorter.len(),
        shorter.len() <= longer.len(),
        forall|j: int| 0 <= j < shorter.len() ==> longer[j] == shorter[j],
    ensures
        prefix_sum(longer, i) == prefix_sum(shorter, i),
    decreases i,
{
    if i > 0 {
        lemma_prefix_sum_prefix(longer, shorter, i - 1);
    }
}

} // verus!
