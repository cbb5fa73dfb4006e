//! Byte layout of one MATLAB level-4 (MAT v4) matrix record.
//!
//! A record is five little-endian 32-bit header fields — `mopt` (`0`:
//! native order, IEEE doubles, full numeric matrix), the shape `m` and
//! `n`, `imagf` (`1` for a complex matrix) and `namlen` — then the name's
//! bytes, then the values as little-endian doubles, column-major: the real_bits
//! block, then for a complex matrix the imaginary_bits block. The values are
//! given by their bit patterns.

use vstd::prelude::*;

verus! {

/// The low `k` bytes of `x`, least significant first.
pub open spec fn le_bytes(x: nat, k: nat) -> Seq<u8>
    decreases k,
{
    if k == 0 {
        Seq::empty()
    } else {
        seq![(x % 256) as u8] + le_bytes(x / 256, (k - 1) as nat)
    }
}

/// The first `k` values of `words`, eight bytes each.
pub open spec fn doubles(words: Seq<u64>, k: int) -> Seq<u8>
    decreases k,
{
    if k <= 0 {
        Seq::empty()
    } else {
        doubles(words, k - 1) + le_bytes(words[k - 1] as nat, 8)
    }
}

/// A MAT v4 record of the `m × n` matrix `name`.
pub open spec fn record(name: Seq<u8>, m: nat, n: nat, complex: bool, real_bits: Seq<u64>, imaginary_bits: Seq<u64>) -> Seq<u8> {
    le_bytes(0, 4) + le_bytes(m, 4) + le_bytes(n, 4) + le_bytes(
        if complex {
            1
        } else {
            0
        },
        4,
    ) + le_bytes(name.len(), 4) + name + doubles(real_bits, real_bits.len() as int) + if complex {
        doubles(imaginary_bits, imaginary_bits.len() as int)
    } else {
        Seq::empty()
    }
}

/// Appends the low `k` bytes of `x`, least significant first.
fn push_le(out: &mut Vec<u8>, x: u64, k: usize)
    requires
        k <= 8,
    ensures
        final(out)@ == old(out)@ + le_bytes(x as nat, k as nat),
    decreases k,
{
    if k > 0 {
        let low = (x & 0xff) as u8;
        let rest = x >> 8u64;
        assert(low == (x % 256) as u8 && rest == x / 256) by (bit_vector)
            requires
                low == (x & 0xff) as u8,
                rest == x >> 8u64,
        ;
        let ghost before = out@;
        out.push(low);
        push_le(out, rest, k - 1);
        assert(final(out)@ =~= before + le_bytes(x as nat, k as nat)) by {
            assert(le_bytes(x as nat, k as nat) == seq![(x as nat % 256) as u8] + le_bytes(x as nat / 256, (k - 1) as nat));
        }
    } else {
        assert(out@ + le_bytes(x as nat, 0) =~= out@);
    }
}

/// Appends `words`, eight bytes each.
fn push_doubles(out: &mut Vec<u8>, words: &[u64])
    ensures
        final(out)@ == old(out)@ + doubles(words@, words@.len() as int),
{
    let ghost start = out@;
    let mut k: usize = 0;
    while k < words.len()
        invariant
            k <= words@.len(),
            out@ == start + doubles(words@, k as int),
        decreases words@.len() - k,
    {
        push_le(out, words[k], 8);
        proof {
            assert(start + doubles(words@, k as int) + le_bytes(words@[k as int] as nat, 8) =~= start + doubles(
                words@,
                k + 1,
            ));
        }
        k = k + 1;
    }
}

/// The MAT v4 record of the `m × n` matrix `name`, with the bit patterns
/// of its values column-major in `real_bits` and, for a complex matrix,
/// `imaginary_bits`. The shape and name length are written as 32-bit fields:
/// their low 32 bits.
pub fn matrix_record(name: &[u8], m: usize, n: usize, complex: bool, real_bits: &[u64], imaginary_bits: &[u64]) -> (r: Vec<u8>)
    ensures
        r@ == record(name@, m as nat, n as nat, complex, real_bits@, imaginary_bits@),
{
    let mut out: Vec<u8> = Vec::new();
    push_le(&mut out, 0, 4);
    push_le(&mut out, m as u64, 4);
    push_le(&mut out, n as u64, 4);
    push_le(&mut out, if complex { 1 } else { 0 }, 4);
    push_le(&mut out, name.len() as u64, 4);
    let mut i: usize = 0;
    let ghost head = out@;
    while i < name.len()
        invariant
            i <= name@.len(),
            out@ == head + name@.take(i as int),
        decreases name@.len() - i,
    {
        out.push(name[i]);
        proof {
            assert(name@.take(i + 1) =~= name@.take(i as int).push(name@[i as int]));
        }
        i = i + 1;
    }
    proof {
        assert(name@.take(name@.len() as int) =~= name@);
    }
    push_doubles(&mut out, real_bits);
    if complex {
        push_doubles(&mut out, imaginary_bits);
    }
    proof {
        let lead = le_bytes(0, 4) + le_bytes(m as nat, 4) + le_bytes(n as nat, 4) + le_bytes(
            if complex {
                1
            } else {
                0
            },
            4,
        ) + le_bytes(name@.len(), 4);
        if complex {
            assert(out@ =~= lead + name@ + doubles(real_bits@, real_bits@.len() as int) + doubles(imaginary_bits@, imaginary_bits@.len() as int));
        } else {
            assert(out@ =~= lead + name@ + doubles(real_bits@, real_bits@.len() as int) + Seq::<u8>::empty());
        }
    }
    out
}

} // verus!
