//! The version string of the command-line front end.

use vstd::prelude::*;

use crate::text::{chars_of, string_of};

verus! {

/// The `--version` text: the crate version, then the source revision it was
/// built from (`unknown` without one), as `<version> (git: <revision>)`.
pub open spec fn version_text(package: Seq<char>, describe: Option<Seq<char>>) -> Seq<char> {
    package + " (git: "@ + match describe {
        Some(d) => d,
        None => "unknown"@,
    } + ")"@
}

/// Appends the characters of `s` to `v`.
fn push_all(v: &mut Vec<char>, s: &str)
    ensures
        final(v)@ == old(v)@ + s@,
{
    let cs = chars_of(s);
    let ghost v0 = v@;
    let mut i: usize = 0;
    while i < cs.len()
        invariant
            i <= cs@.len(),
            v@ == v0 + cs@.take(i as int),
        decreases cs@.len() - i,
    {
        v.push(cs[i]);
        i = i + 1;
        proof {
            assert(cs@.take(i as int) =~= cs@.take(i as int - 1).push(cs@[i as int - 1]));
        }
    }
    proof {
        assert(cs@.take(cs@.len() as int) =~= cs@);
    }
}

/// The version string for crate version `package` and source revision
/// `describe`.
pub fn version(package: &str, describe: Option<&str>) -> (r: String)
    ensures
        r@ == version_text(package@, match describe {
            Some(d) => Some(d@),
            None => None,
        }),
{
    let mut v: Vec<char> = Vec::new();
    push_all(&mut v, package);
    push_all(&mut v, " (git: ");
    match describe {
        Some(d) => push_all(&mut v, d),
        None => push_all(&mut v, "unknown"),
    }
    push_all(&mut v, ")");
    proof {
        assert(v@ =~= version_text(package@, match describe {
            Some(d) => Some(d@),
            None => None,
        }));
    }
    string_of(v.as_slice())
}

} // verus!
