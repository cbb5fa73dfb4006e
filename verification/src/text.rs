//! Small string helpers with their contracts.

use vstd::prelude::*;
use vstd::std_specs::iter::IteratorSpec;

verus! {

/// Whether two string slices hold the same characters.
pub fn str_eq(a: &str, b: &str) -> (r: bool)
    ensures
        r == (a@ == b@),
{
    let x: String = a.to_owned();
    let y: String = b.to_owned();
    x == y
}

/// An owned copy of a string slice.
pub fn to_string(a: &str) -> (r: String)
    ensures
        r@ == a@,
{
    a.to_owned()
}


/// The characters of a string slice.
pub fn chars_of(s: &str) -> (v: Vec<char>)
    ensures
        v@ == s@,
{
    broadcast use vstd::string::axiom_spec_iter, vstd::string::next_postcondition;

    let mut v: Vec<char> = Vec::new();
    let mut iter = s.chars();
    loop
        invariant
            v@ + iter.remaining() == s@,
            iter.decrease() is Some,
        ensures
            v@ == s@,
        decreases iter.decrease()->0,
    {
        match iter.next() {
            Some(c) => {
                v.push(c);
            },
            None => {
                proof {
                    assert(v@ + iter.remaining() =~= v@);
                }
                break;
            },
        }
    }
    v
}


/// The ASCII lower case of a character; other characters are unchanged.
pub open spec fn ascii_lower(c: char) -> char {
    if 'A' <= c && c <= 'Z' {
        ((c as u32) + 32) as char
    } else {
        c
    }
}

/// ASCII lower case of one character.
pub fn lower_char(c: char) -> (r: char)
    ensures
        r == ascii_lower(c),
{
    if 'A' <= c && c <= 'Z' {
        let code: u8 = (c as u8) + 32;
        code as char
    } else {
        c
    }
}


/// A string of the given characters, in order.
///
/// Calls std's `FromIterator<char>` for `String`, which appends every
/// character of the iterator in turn; the contract claims exactly that.
#[verifier::external_body]
pub(crate) fn string_of(chars: &[char]) -> (s: String)
    ensures
        s@ == chars@,
{
    chars.iter().collect()
}

/// Unicode `White_Space`, the property `char::is_whitespace` tests.
pub open spec fn white_space(c: char) -> bool {
    ||| ('\u{9}' <= c && c <= '\u{d}')
    ||| c == ' '
    ||| c == '\u{85}'
    ||| c == '\u{a0}'
    ||| c == '\u{1680}'
    ||| ('\u{2000}' <= c && c <= '\u{200a}')
    ||| c == '\u{2028}'
    ||| c == '\u{2029}'
    ||| c == '\u{202f}'
    ||| c == '\u{205f}'
    ||| c == '\u{3000}'
}

/// Whether `c` is white space: the Unicode `White_Space` property, which
/// `char::is_whitespace` tests.
pub(crate) fn is_white_space(c: char) -> (r: bool)
    ensures
        r == white_space(c),
{
    ('\u{9}' <= c && c <= '\u{d}') || c == ' ' || c == '\u{85}' || c == '\u{a0}' || c == '\u{1680}' || ('\u{2000}'
        <= c && c <= '\u{200a}') || c == '\u{2028}' || c == '\u{2029}' || c == '\u{202f}' || c == '\u{205f}' || c
        == '\u{3000}'
}

/// `a`, then `b`, then `c`, as one string.
pub fn joined3(a: &str, b: &[char], c: &str) -> (r: String)
    ensures
        r@ == a@ + b@ + c@,
{
    let mut v = chars_of(a);
    let mut i: usize = 0;
    let ghost v0 = v@;
    while i < b.len()
        invariant
            i <= b@.len(),
            v@ == v0 + b@.take(i as int),
        decreases b@.len() - i,
    {
        v.push(b[i]);
        i = i + 1;
        proof {
            assert(b@.take(i as int) =~= b@.take(i as int - 1).push(b@[i as int - 1]));
        }
    }
    let cs = chars_of(c);
    let mut j: usize = 0;
    let ghost v1 = v@;
    while j < cs.len()
        invariant
            j <= cs@.len(),
            v@ == v1 + cs@.take(j as int),
        decreases cs@.len() - j,
    {
        v.push(cs[j]);
        j = j + 1;
        proof {
            assert(cs@.take(j as int) =~= cs@.take(j as int - 1).push(cs@[j as int - 1]));
        }
    }
    proof {
        assert(b@.take(b@.len() as int) =~= b@);
        assert(cs@.take(cs@.len() as int) =~= cs@);
    }
    string_of(v.as_slice())
}

/// The ASCII lower case of a string.
pub fn lower(t: &[char]) -> (r: Vec<char>)
    ensures
        r@ == t@.map_values(|c: char| ascii_lower(c)),
{
    let mut v: Vec<char> = Vec::new();
    let mut i: usize = 0;
    while i < t.len()
        invariant
            i <= t@.len(),
            v@ == t@.take(i as int).map_values(|c: char| ascii_lower(c)),
        decreases t@.len() - i,
    {
        let c = lower_char(t[i]);
        v.push(c);
        i = i + 1;
        proof {
            assert(t@.take(i as int).map_values(|c: char| ascii_lower(c)) =~= t@.take(i as int - 1).map_values(|c: char| ascii_lower(c)).push(ascii_lower(t@[i as int - 1])));
        }
    }
    proof {
        assert(t@.take(t@.len() as int) =~= t@);
    }
    v
}

/// Whether a character list spells the string `lit`.
pub fn spells(t: &[char], lit: &str) -> (r: bool)
    ensures
        r == (t@ == lit@),
{
    let l = chars_of(lit);
    if t.len() != l.len() {
        return false;
    }
    let mut i: usize = 0;
    while i < t.len()
        invariant
            i <= t@.len(),
            t@.len() == l@.len(),
            l@ == lit@,
            forall|k: int| 0 <= k < i ==> t@[k] == l@[k],
        decreases t@.len() - i,
    {
        if t[i] != l[i] {
            return false;
        }
        i = i + 1;
    }
    proof {
        assert(t@ =~= l@);
    }
    true
}


/// The characters `from .. to` of `t`.
pub fn segment(t: &[char], from: usize, to: usize) -> (r: Vec<char>)
    requires
        from <= to <= t@.len(),
    ensures
        r@ == t@.subrange(from as int, to as int),
{
    let mut v: Vec<char> = Vec::new();
    let mut i: usize = from;
    while i < to
        invariant
            from <= i <= to,
            to <= t@.len(),
            v@ == t@.subrange(from as int, i as int),
        decreases to - i,
    {
        v.push(t[i]);
        i = i + 1;
        proof {
            assert(t@.subrange(from as int, i as int) =~= t@.subrange(from as int, i as int - 1).push(t@[i as int - 1]));
        }
    }
    v
}


/// Whether two character lists are equal.
pub fn spells_chars(t: &[char], u: &[char]) -> (r: bool)
    ensures
        r == (t@ == u@),
{
    if t.len() != u.len() {
        return false;
    }
    let mut i: usize = 0;
    while i < t.len()
        invariant
            i <= t@.len(),
            t@.len() == u@.len(),
            forall|k: int| 0 <= k < i ==> t@[k] == u@[k],
        decreases t@.len() - i,
    {
        if t[i] != u[i] {
            return false;
        }
        i = i + 1;
    }
    proof {
        assert(t@ =~= u@);
    }
    true
}

} // verus!
