//! Grid sizes on which the convolution FFTs are fast.

use vstd::prelude::*;

verus! {

/// `m` is a product of twos, threes and fives (`1` included).
pub open spec fn smooth(m: int) -> bool
    decreases m,
{
    if m <= 0 {
        false
    } else if m == 1 {
        true
    } else {
        ||| (m % 2 == 0 && smooth(m / 2))
        ||| (m % 3 == 0 && smooth(m / 3))
        ||| (m % 5 == 0 && smooth(m / 5))
    }
}

/// Dividing out a factor of two, three or five keeps a number smooth or
/// not smooth.
proof fn lemma_smooth_divide(m: int, p: int)
    requires
        m >= 1,
        p == 2 || p == 3 || p == 5,
        m % p == 0,
    ensures
        smooth(m) == smooth(m / p),
    decreases m,
{
    if smooth(m) && m != 1 {
        // Smooth through some factor `q`; if `q` is not `p`, divide by `p`
        // first and by `q` after.
        let q: int = if m % 2 == 0 && smooth(m / 2) {
            2
        } else if m % 3 == 0 && smooth(m / 3) {
            3
        } else {
            5
        };
        if q != p {
            assert((m / q) % p == 0 && (m / p) % q == 0 && (m / q) / p == (m / p) / q && m / q >= 1 && m / p >= 1) by (nonlinear_arith)
                requires
                    m >= 1,
                    m % p == 0,
                    m % q == 0,
                    p == 2 || p == 3 || p == 5,
                    q == 2 || q == 3 || q == 5,
                    p != q,
            ;
            assert(m / q < m);
            lemma_smooth_divide(m / q, p);
        }
    }
}

/// A number of at least two with no factor two, three or five is not
/// smooth.
proof fn lemma_rough(m: int)
    requires
        m >= 2,
        m % 2 != 0,
        m % 3 != 0,
        m % 5 != 0,
    ensures
        !smooth(m),
{
}

/// Divides every factor `p` out of `r`.
fn strip(r: usize, p: usize) -> (s: usize)
    requires
        r >= 1,
        p == 2 || p == 3 || p == 5,
    ensures
        s >= 1,
        s % p != 0,
        smooth(s as int) == smooth(r as int),
        (r % 2 != 0 ==> s % 2 != 0),
        (r % 3 != 0 ==> s % 3 != 0),
        s <= r,
{
    let mut s = r;
    while s % p == 0
        invariant
            1 <= s <= r,
            p == 2 || p == 3 || p == 5,
            smooth(s as int) == smooth(r as int),
            r % 2 != 0 ==> s % 2 != 0,
            r % 3 != 0 ==> s % 3 != 0,
        decreases s,
    {
        proof {
            lemma_smooth_divide(s as int, p as int);
            assert((s / p) % 2 != 0 || s % 2 == 0) by (nonlinear_arith)
                requires
                    s % p == 0,
                    p == 2 || p == 3 || p == 5,
                    s >= 1,
            ;
            assert((s / p) % 3 != 0 || s % 3 == 0) by (nonlinear_arith)
                requires
                    s % p == 0,
                    p == 2 || p == 3 || p == 5,
                    s >= 1,
            ;
            assert(s / p >= 1 && s / p < s) by (nonlinear_arith)
                requires
                    s % p == 0,
                    p == 2 || p == 3 || p == 5,
                    s >= 1,
            ;
        }
        s = s / p;
    }
    s
}

/// Whether `m` is smooth.
fn is_smooth(m: usize) -> (r: bool)
    requires
        m >= 1,
    ensures
        r == smooth(m as int),
{
    let a = strip(m, 2);
    let b = strip(a, 3);
    let c = strip(b, 5);
    proof {
        if c != 1 {
            lemma_rough(c as int);
        }
    }
    c == 1
}

/// Half the range of `usize` plus one: a power of two, so smooth.
proof fn lemma_half_range_smooth()
    ensures
        smooth(usize::MAX / 2 + 1),
{
    assert(usize::MAX == 0xffff_ffff || usize::MAX == 0xffff_ffff_ffff_ffff);
    if usize::MAX == 0xffff_ffff {
        lemma_pow2_smooth(31);
        vstd::arithmetic::power2::lemma2_to64();
    } else {
        lemma_pow2_smooth(63);
        vstd::arithmetic::power2::lemma2_to64();
        vstd::arithmetic::power2::lemma2_to64_rest();
    }
}

/// Every power of two is smooth.
proof fn lemma_pow2_smooth(k: nat)
    ensures
        smooth(vstd::arithmetic::power2::pow2(k) as int),
    decreases k,
{
    vstd::arithmetic::power2::lemma_pow2_pos(k);
    if k > 0 {
        lemma_pow2_smooth((k - 1) as nat);
        vstd::arithmetic::power2::lemma_pow2_unfold(k);
        let m = vstd::arithmetic::power2::pow2(k) as int;
        vstd::arithmetic::power2::lemma_pow2_pos((k - 1) as nat);
        assert(m % 2 == 0 && m / 2 == vstd::arithmetic::power2::pow2((k - 1) as nat)) by {
            assert(m == 2 * vstd::arithmetic::power2::pow2((k - 1) as nat));
        }
        assert(m >= 2);
        assert(smooth(m / 2));
        assert(smooth(m));
    } else {
        vstd::arithmetic::power2::lemma2_to64();
    }
}

/// Smallest `2^a 3^b 5^c` at or above `n`: sizes on which FFTs are fast.
pub fn smooth_size(n: usize) -> (r: usize)
    requires
        n <= usize::MAX / 2 + 1,
    ensures
        r >= n,
        r >= 1,
        smooth(r as int),
        forall|m: int| (if n >= 1 { n as int } else { 1 }) <= m < r ==> !#[trigger] smooth(m),
{
    let mut m: usize = if n >= 1 {
        n
    } else {
        1
    };
    let ghost start = m as int;
    let ghost top = usize::MAX / 2 + 1;
    proof {
        lemma_half_range_smooth();
    }
    loop
        invariant
            start == (if n >= 1 { n as int } else { 1 }),
            start <= m <= top,
            top == usize::MAX / 2 + 1,
            smooth(top as int),
            forall|j: int| start <= j < m ==> !#[trigger] smooth(j),
        decreases top - m,
    {
        if is_smooth(m) {
            return m;
        }
        assert(m < top);
        m = m + 1;
    }
}

/// Padded size along one axis for aperiodic convolution on `n` points.
pub fn padded_size(n: usize) -> (r: usize)
    requires
        1 <= n,
        2 * n - 1 <= usize::MAX / 2 + 1,
    ensures
        r >= 2 * n - 1,
        smooth(r as int),
        forall|m: int| 2 * n - 1 <= m < r ==> !#[trigger] smooth(m),
{
    smooth_size(2 * n - 1)
}

} // verus!
