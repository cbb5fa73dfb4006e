//! The memo of aligned-bar evaluations, keyed by the problem's bits.
//!
//! The memo is a fixed-size direct-mapped table: the nine bit patterns that
//! describe an aligned-bar problem are hashed to one of [`SLOTS`] slots, a
//! hit is confirmed by comparing the key itself, and a miss overwrites the
//! slot it lands in. A poor mix costs collisions, never a wrong answer, and
//! a hit returns the very value recorded under the identical key.

use vstd::prelude::*;

verus! {

/// Slots per thread.
pub const SLOTS: usize = 1024;

/// Multiplier of the folding rounds, and the initial state.
pub const MIX: u64 = 0x9e37_79b9_7f4a_7c15;

/// Rotation left by 29 bits.
pub open spec fn rotl29(x: u64) -> u64 {
    (x << 29u64) | (x >> 35u64)
}

/// One folding round: mix in `word`, multiply, rotate.
pub open spec fn fold_round(h: u64, word: u64) -> u64 {
    rotl29((h ^ word).wrapping_mul(MIX))
}

/// The state after folding in the first `k` words of `key`.
pub open spec fn folded(key: Seq<u64>, k: int) -> u64
    decreases k,
{
    if k <= 0 {
        MIX
    } else {
        fold_round(folded(key, k - 1), key[k - 1])
    }
}

/// The final avalanche, spreading the entropy of the folded state over
/// every bit.
pub open spec fn avalanche(h: u64) -> u64 {
    let h1 = h ^ (h >> 30u64);
    let h2 = h1.wrapping_mul(0xbf58_476d_1ce4_e5b9u64);
    let h3 = h2 ^ (h2 >> 27u64);
    let h4 = h3.wrapping_mul(0x94d0_49bb_1331_11ebu64);
    h4 ^ (h4 >> 31u64)
}

/// The slot of `key`: the low ten bits of its avalanched hash.
#[verifier::opaque]
pub open spec fn slot_of(key: Seq<u64>) -> int {
    (avalanche(folded(key, 9)) & 1023u64) as int
}

/// Multiplicative hash of the whole key, reduced to a slot index.
pub fn slot(key: &[u64; 9]) -> (r: usize)
    ensures
        r == slot_of(key@),
        r < SLOTS,
{
    let mut hash: u64 = MIX;
    let mut i: usize = 0;
    while i < 9
        invariant
            i <= 9,
            key@.len() == 9,
            hash == folded(key@, i as int),
        decreases 9 - i,
    {
        let word = key[i];
        let mixed = (hash ^ word).wrapping_mul(MIX);
        hash = (mixed << 29u64) | (mixed >> 35u64);
        i = i + 1;
    }
    hash = hash ^ (hash >> 30u64);
    hash = hash.wrapping_mul(0xbf58_476d_1ce4_e5b9u64);
    hash = hash ^ (hash >> 27u64);
    hash = hash.wrapping_mul(0x94d0_49bb_1331_11ebu64);
    hash = hash ^ (hash >> 31u64);
    let low = hash & 1023u64;
    assert(low < 1024) by (bit_vector)
        requires
            low == hash & 1023u64,
    ;
    proof {
        reveal(slot_of);
    }
    low as usize
}

/// `slot_of` always names a slot of the table.
pub proof fn lemma_slot_in_range(key: Seq<u64>)
    ensures
        0 <= slot_of(key) < SLOTS,
{
    reveal(slot_of);
    let h = avalanche(folded(key, 9));
    assert(h & 1023u64 <= 1023u64) by (bit_vector);
}

/// The keys that share `key`'s slot, `key` among them.
pub open spec fn slot_mates(key: Seq<u64>) -> Set<Seq<u64>> {
    Set::new(|k: Seq<u64>| slot_of(k) == slot_of(key))
}

/// The table after recording `value` under `key`: whatever shared the slot
/// is evicted.
pub open spec fn after_record<V>(held: Map<Seq<u64>, V>, key: Seq<u64>, value: V) -> Map<Seq<u64>, V> {
    held.remove_keys(slot_mates(key)).insert(key, value)
}

/// What a lookup of `key` answers.
pub open spec fn answer<V>(held: Map<Seq<u64>, V>, key: Seq<u64>) -> Option<V> {
    if held.contains_key(key) {
        Some(held[key])
    } else {
        None
    }
}

/// Every value held is `f` of its key.
pub open spec fn faithful<V>(held: Map<Seq<u64>, V>, f: spec_fn(Seq<u64>) -> V) -> bool {
    forall|k: Seq<u64>| #[trigger] held.contains_key(k) ==> held[k] == f(k)
}

/// A fixed-size direct-mapped memo: each slot holds the key last recorded
/// there and its value. The table never grows; a miss overwrites the slot
/// its key lands in.
pub struct MemoTable<V> {
    entries: Vec<Option<([u64; 9], V)>>,
}

impl<V: Copy> MemoTable<V> {
    /// The table has its slots, and each occupied slot is its key's slot.
    pub closed spec fn wf(&self) -> bool {
        &&& self.entries@.len() == SLOTS
        &&& forall|s: int|
            0 <= s < SLOTS && (#[trigger] self.entries@[s]) is Some ==> slot_of(self.entries@[s]->Some_0.0@) == s
    }

    /// The keys held and their values.
    pub closed spec fn held(&self) -> Map<Seq<u64>, V> {
        Map::new(
            |k: Seq<u64>|
                k.len() == 9 && match self.entries@[slot_of(k)] {
                    Some(e) => e.0@ == k,
                    None => false,
                },
            |k: Seq<u64>| self.entries@[slot_of(k)]->Some_0.1,
        )
    }

    /// An empty table.
    pub fn new() -> (t: Self)
        ensures
            t.wf(),
            t.held() == Map::<Seq<u64>, V>::empty(),
    {
        let mut entries: Vec<Option<([u64; 9], V)>> = Vec::new();
        let mut i: usize = 0;
        while i < SLOTS
            invariant
                i <= SLOTS,
                entries@.len() == i,
                forall|s: int| 0 <= s < i ==> (#[trigger] entries@[s]) is None,
            decreases SLOTS - i,
        {
            entries.push(None);
            i = i + 1;
        }
        let t = MemoTable { entries };
        assert forall|k: Seq<u64>| !#[trigger] t.held().contains_key(k) by {
            lemma_slot_in_range(k);
        }
        assert(t.held() =~= Map::<Seq<u64>, V>::empty());
        t
    }

    /// The value recorded under `key`, if the table still holds it.
    pub fn lookup(&self, key: &[u64; 9]) -> (r: Option<V>)
        requires
            self.wf(),
        ensures
            r == answer(self.held(), key@),
    {
        let s = slot(key);
        match self.entries[s] {
            Some((k, v)) => {
                if same_key(&k, key) {
                    Some(v)
                } else {
                    None
                }
            },
            None => None,
        }
    }

    /// Records `value` under `key`, evicting whatever held its slot.
    pub fn record(&mut self, key: &[u64; 9], value: V)
        requires
            old(self).wf(),
        ensures
            final(self).wf(),
            final(self).held() == after_record(old(self).held(), key@, value),
    {
        let s = slot(key);
        self.entries.set(s, Some((*key, value)));
        proof {
            assert forall|k: Seq<u64>|
                #![trigger final(self).held().contains_key(k)]
                #![trigger after_record(old(self).held(), key@, value).contains_key(k)]
                final(self).held().contains_key(k) == after_record(old(self).held(), key@, value).contains_key(k) by {
                if k.len() == 9 {
                    lemma_slot_in_range(k);
                }
            }
            assert forall|k: Seq<u64>| #[trigger] final(self).held().contains_key(k) implies final(self).held()[k]
                == after_record(old(self).held(), key@, value)[k] by {
                lemma_slot_in_range(k);
                if k != key@ {
                    assert(slot_of(k) != s);
                }
            }
            assert(final(self).held() =~= after_record(old(self).held(), key@, value));
        }
    }

    /// The value for `key`: from the table when it holds it, otherwise from
    /// `evaluate`, recorded for next time.
    pub fn aligned_integral<F: FnOnce() -> V>(&mut self, key: &[u64; 9], evaluate: F) -> (r: V)
        requires
            old(self).wf(),
            call_requires(evaluate, ()),
        ensures
            final(self).wf(),
            old(self).held().contains_key(key@) ==> r == old(self).held()[key@] && final(self).held() == old(
                self,
            ).held(),
            !old(self).held().contains_key(key@) ==> call_ensures(evaluate, (), r) && final(self).held()
                == after_record(old(self).held(), key@, r),
    {
        match self.lookup(key) {
            Some(v) => v,
            None => {
                let v = evaluate();
                self.record(key, v);
                v
            },
        }
    }
}

/// Whether two keys have the same bits.
fn same_key(a: &[u64; 9], b: &[u64; 9]) -> (r: bool)
    ensures
        r == (a@ == b@),
{
    let mut i: usize = 0;
    while i < 9
        invariant
            i <= 9,
            a@.len() == 9,
            b@.len() == 9,
            forall|j: int| 0 <= j < i ==> a@[j] == b@[j],
        decreases 9 - i,
    {
        if a[i] != b[i] {
            return false;
        }
        i = i + 1;
    }
    assert(a@ =~= b@);
    true
}

/// A hit returns the value recorded under the identical key: right after
/// recording `value` under `key`, a lookup of `key` answers `value`.
pub proof fn lemma_hit_after_record<V>(held: Map<Seq<u64>, V>, key: Seq<u64>, value: V)
    ensures
        answer(after_record(held, key, value), key) == Some(value),
{
}

/// Colliding keys never answer for each other: recording under `key`
/// leaves every other key's answer as it was, or evicts it, and never
/// makes it answer with the value just recorded for `key`.
pub proof fn lemma_record_spares_others<V>(held: Map<Seq<u64>, V>, key: Seq<u64>, value: V, other: Seq<u64>)
    requires
        other != key,
    ensures
        answer(after_record(held, key, value), other) == if slot_of(other) == slot_of(key) {
            None
        } else {
            answer(held, other)
        },
{
}

/// Memoization cannot move a value: when every value held is `f` of its
/// key and a miss records `f` of the key, every answer the table ever
/// gives is `f` of the key asked.
pub proof fn lemma_memo_is_faithful<V>(held: Map<Seq<u64>, V>, f: spec_fn(Seq<u64>) -> V, key: Seq<u64>)
    requires
        faithful(held, f),
    ensures
        faithful(after_record(held, key, f(key)), f),
        answer(held, key) is Some ==> answer(held, key) == Some(f(key)),
{
}

} // verus!
