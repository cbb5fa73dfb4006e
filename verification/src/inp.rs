//! Reader for the FastHenry `.inp` deck format, restricted to the M0 subset.
//!
//! | Line | Meaning |
//! |------|---------|
//! | `.units um\|mm\|cm\|m\|mil` | Length unit for every coordinate and dimension |
//! | `.default <field>=<v> …` | Defaults for later lines: `x`, `y`, `z`, `w`, `h`, `nwinc`, `nhinc`, `sigma` |
//! | `N<name> [x]=<v> [y]=<v> [z]=<v>` | Node; each coordinate falls back to its `.default` |
//! | `E<name> N<a> N<b> [field]=<v> …` | Segment between two nodes |
//! | `.external N<+> N<-> [name]` | A port: current in at `N<+>`, out at `N<->` |
//! | `.freq fmin=<v> fmax=<v> ndec=<n>` | Frequency sweep in hertz |
//! | `.equiv N<a> N<b>` | Electrically join two nodes into one |
//! | `.end` | End of deck (required) |
//!
//! Lines beginning with `*` are comments; a line beginning with `+`
//! continues the previous line. Directives are case-insensitive; node and
//! element names are case-sensitive.
//!
//! The reader works on the text of the deck: every decimal number is kept as
//! the text it was written with, and each place where a number (or a
//! frequency sweep) must be checked is recorded, in order, as a [`Check`].
//! The caller evaluates the numbers; the first check that fails is the
//! deck's error, ahead of any error this reader reports after it.

pub mod deck;
pub mod lines;
pub mod reader;

pub use deck::{Check, DeckOutline, LengthUnit, NodeText, SegmentText, SweepText};
pub use reader::outline;

use vstd::prelude::*;

use crate::text::{ascii_lower, chars_of, joined3, lower, segment, string_of};

verus! {

/// A parse error as a value: the line and the message.
pub struct Fault {
    pub line: int,
    pub message: Seq<char>,
}

/// The fault on `line` with `message`.
pub open spec fn fault(line: int, message: Seq<char>) -> Fault {
    Fault { line, message }
}

/// A parse error: what went wrong, and on which line (`0` = deck-level).
#[derive(Clone, Debug, PartialEq, Eq)]
pub struct ParseError {
    /// The 1-based line number the error was detected on, or 0 for
    /// deck-level problems.
    pub line: usize,
    /// What went wrong.
    pub message: String,
}

impl View for ParseError {
    type V = Fault;

    open spec fn view(&self) -> Fault {
        Fault { line: self.line as int, message: self.message@ }
    }
}

/// The error on `line` with `message`.
pub fn err(line: usize, message: &str) -> (e: ParseError)
    ensures
        e@ == fault(line as int, message@),
{
    ParseError { line, message: string_of(chars_of(message).as_slice()) }
}

/// The error on `line` whose message is `a`, `b`, `c` in turn.
fn err3(line: usize, a: &str, b: &[char], c: &str) -> (e: ParseError)
    ensures
        e@ == fault(line as int, a@ + b@ + c@),
{
    ParseError { line, message: joined3(a, b, c) }
}

/// A decimal digit.
pub open spec fn is_digit(c: char) -> bool {
    '0' <= c && c <= '9'
}

/// The value of a string of decimal digits.
pub open spec fn digits_value(t: Seq<char>) -> int
    decreases t.len(),
{
    if t.len() == 0 {
        0
    } else {
        digits_value(t.drop_last()) * 10 + (t.last() as int - '0' as int)
    }
}

/// The digits of an unsigned literal: an optional `+`, then the rest.
pub open spec fn unsigned_digits(t: Seq<char>) -> Seq<char> {
    if t.len() > 0 && t[0] == '+' {
        t.drop_first()
    } else {
        t
    }
}

/// A `usize` written in decimal, as `str::parse::<usize>` reads it: an
/// optional `+` and at least one digit, of a value that fits.
pub open spec fn count_literal(t: Seq<char>) -> Option<usize> {
    let d = unsigned_digits(t);
    if d.len() > 0 && (forall|i: int| 0 <= i < d.len() ==> is_digit(#[trigger] d[i])) && digits_value(d)
        <= usize::MAX {
        Some(digits_value(d) as usize)
    } else {
        None
    }
}

/// Reads an unsigned decimal literal.
fn parse_usize(t: &[char]) -> (r: Option<usize>)
    ensures
        r == count_literal(t@),
{
    let start: usize = if t.len() > 0 && t[0] == '+' {
        1
    } else {
        0
    };
    let ghost d = unsigned_digits(t@);
    proof {
        assert(d =~= t@.subrange(start as int, t@.len() as int));
    }
    if start >= t.len() {
        return None;
    }
    let mut value: usize = 0;
    let mut i: usize = start;
    while i < t.len()
        invariant
            start <= i <= t@.len(),
            d == unsigned_digits(t@),
            d == t@.subrange(start as int, t@.len() as int),
            forall|k: int| 0 <= k < i - start ==> is_digit(#[trigger] d[k]),
            value == digits_value(d.take(i - start)),
        decreases t@.len() - i,
    {
        let c = t[i];
        if !('0' <= c && c <= '9') {
            proof {
                assert(d[i - start] == t@[i as int]);
                assert(!is_digit(d[i - start]));
                assert(!(forall|k: int| 0 <= k < d.len() ==> is_digit(#[trigger] d[k])));
            }
            return None;
        }
        let digit: usize = ((c as u32) - ('0' as u32)) as usize;
        proof {
            assert(d.take(i - start + 1).drop_last() =~= d.take(i - start));
            assert(d.take(i - start + 1).last() == c);
        }
        let next = match value.checked_mul(10) {
            Some(tens) => tens.checked_add(digit),
            None => None,
        };
        match next {
            Some(v) => {
                value = v;
            },
            None => {
                proof {
                    if forall|k: int| 0 <= k < d.len() ==> is_digit(#[trigger] d[k]) {
                        lemma_digits_prefix_bound(d, i - start + 1);
                    }
                }
                return None;
            },
        }
        i = i + 1;
    }
    proof {
        assert(d.take(i - start) =~= d);
    }
    Some(value)
}

/// A prefix of a digit string is worth no more than the whole.
proof fn lemma_digits_prefix_bound(d: Seq<char>, k: int)
    requires
        0 <= k <= d.len(),
        forall|i: int| 0 <= i < d.len() ==> is_digit(#[trigger] d[i]),
    ensures
        digits_value(d.take(k)) <= digits_value(d),
        0 <= digits_value(d.take(k)),
    decreases d.len() - k,
{
    lemma_digits_nonneg(d.take(k));
    if k < d.len() {
        lemma_digits_prefix_bound(d, k + 1);
        assert(d.take(k + 1).drop_last() =~= d.take(k));
        assert(d.take(k + 1).last() == d[k]);
    } else {
        assert(d.take(k) =~= d);
    }
}

proof fn lemma_digits_nonneg(d: Seq<char>)
    requires
        forall|i: int| 0 <= i < d.len() ==> is_digit(#[trigger] d[i]),
    ensures
        0 <= digits_value(d),
    decreases d.len(),
{
    if d.len() > 0 {
        let e = d.drop_last();
        assert forall|i: int| 0 <= i < e.len() implies is_digit(#[trigger] e[i]) by {
            assert(e[i] == d[i]);
        }
        lemma_digits_nonneg(e);
        assert(is_digit(d[d.len() - 1]));
    }
}

/// The outcome of reading `text` as a count of `what`: a whole number of at
/// least one.
pub open spec fn count_outcome(text: Seq<char>, what: Seq<char>, line: int) -> Result<usize, Fault> {
    match count_literal(text) {
        None => Err(
            fault(line, "'"@ + text + "' is not a valid "@ + what + " (a whole number ≥ 1)"@),
        ),
        Some(v) => if v < 1 {
            Err(fault(line, what + " must be ≥ 1, got 0"@))
        } else {
            Ok(v)
        },
    }
}

/// Reads a count of `what` (a whole number of at least one).
pub fn parse_count(text: &str, what: &str, line: usize) -> (r: Result<usize, ParseError>)
    ensures
        match r {
            Ok(v) => count_outcome(text@, what@, line as int) == Ok::<usize, Fault>(v),
            Err(e) => count_outcome(text@, what@, line as int) == Err::<usize, Fault>(e@),
        },
{
    let t = chars_of(text);
    let w = chars_of(what);
    match parse_usize(t.as_slice()) {
        None => {
            let mut mid = t.clone();
            let tail = chars_of("' is not a valid ");
            let mut k: usize = 0;
            let ghost m0 = mid@;
            while k < tail.len()
                invariant
                    k <= tail@.len(),
                    mid@ == m0 + tail@.take(k as int),
                decreases tail@.len() - k,
            {
                mid.push(tail[k]);
                k = k + 1;
                proof {
                    assert(tail@.take(k as int) =~= tail@.take(k as int - 1).push(tail@[k as int - 1]));
                }
            }
            let mut j: usize = 0;
            let ghost m1 = mid@;
            while j < w.len()
                invariant
                    j <= w@.len(),
                    mid@ == m1 + w@.take(j as int),
                decreases w@.len() - j,
            {
                mid.push(w[j]);
                j = j + 1;
                proof {
                    assert(w@.take(j as int) =~= w@.take(j as int - 1).push(w@[j as int - 1]));
                }
            }
            proof {
                assert(tail@.take(tail@.len() as int) =~= tail@);
                assert(w@.take(w@.len() as int) =~= w@);
                assert(mid@ =~= text@ + "' is not a valid "@ + what@);
            }
            let e = err3(line, "'", mid.as_slice(), " (a whole number ≥ 1)");
            proof {
                assert(e@.message =~= "'"@ + text@ + "' is not a valid "@ + what@ + " (a whole number ≥ 1)"@);
            }
            Err(e)
        },
        Some(v) => {
            if v < 1 {
                proof {
                    reveal_strlit("");
                    assert(""@ + w@ =~= w@);
                }
                Err(err3(line, "", w.as_slice(), " must be ≥ 1, got 0"))
            } else {
                Ok(v)
            }
        },
    }
}


/// Position of the first `=` in `t`.
pub open spec fn first_eq(t: Seq<char>) -> Option<int>
    decreases t.len(),
{
    if t.len() == 0 {
        None
    } else {
        match first_eq(t.drop_last()) {
            Some(i) => Some(i),
            None => if t.last() == '=' {
                Some(t.len() - 1)
            } else {
                None
            },
        }
    }
}

/// A `=` found in a prefix is the first of the whole.
proof fn lemma_first_eq_extends(t: Seq<char>, k: int)
    requires
        0 <= k <= t.len(),
        first_eq(t.take(k)) is Some,
    ensures
        first_eq(t) == first_eq(t.take(k)),
    decreases t.len() - k,
{
    if k < t.len() {
        assert(t.take(k + 1).drop_last() =~= t.take(k));
        lemma_first_eq_extends(t, k + 1);
    } else {
        assert(t.take(k) =~= t);
    }
}

/// The outcome of reading a `<field>=<value>` token: the key in ASCII lower
/// case and the value, split at the first `=`.
pub open spec fn field_outcome(t: Seq<char>, line: int) -> Result<(Seq<char>, Seq<char>), Fault> {
    match first_eq(t) {
        None => Err(
            fault(
                line,
                "expected <field>=<value>, got '"@ + t
                    + "' (supported: x, y, z, w, h, nwinc, nhinc, sigma)"@,
            ),
        ),
        Some(i) => if i == 0 || i == t.len() - 1 {
            Err(fault(line, "empty side of '"@ + t + "'"@))
        } else {
            Ok((t.take(i).map_values(|c: char| ascii_lower(c)), t.skip(i + 1)))
        },
    }
}

/// A `<field>=<value>` token, key lowercased.
pub fn parse_field(token: &str, line: usize) -> (r: Result<(String, String), ParseError>)
    ensures
        match r {
            Ok((k, v)) => field_outcome(token@, line as int) == Ok::<(Seq<char>, Seq<char>), Fault>((k@, v@)),
            Err(e) => field_outcome(token@, line as int) == Err::<(Seq<char>, Seq<char>), Fault>(e@),
        },
{
    let t = chars_of(token);
    let mut i: usize = 0;
    while i < t.len()
        invariant
            i <= t@.len(),
            first_eq(t@.take(i as int)) is None,
        ensures
            i <= t@.len(),
            first_eq(t@.take(i as int)) is None,
            i < t@.len() ==> t@[i as int] == '=',
        decreases t@.len() - i,
    {
        proof {
            assert(t@.take(i as int + 1).drop_last() =~= t@.take(i as int));
        }
        if t[i] == '=' {
            break;
        }
        i = i + 1;
    }
    if i == t.len() {
        proof {
            assert(t@.take(i as int) =~= t@);
        }
        return Err(
            err3(line, "expected <field>=<value>, got '", t.as_slice(), "' (supported: x, y, z, w, h, nwinc, nhinc, sigma)"),
        );
    }
    proof {
        assert(t@.take(i as int + 1).drop_last() =~= t@.take(i as int));
        assert(first_eq(t@.take(i as int + 1)) == Some(i as int));
        lemma_first_eq_extends(t@, i as int + 1);
    }
    if i == 0 || i == t.len() - 1 {
        return Err(err3(line, "empty side of '", t.as_slice(), "'"));
    }
    let key = lower(segment(t.as_slice(), 0, i).as_slice());
    let value = segment(t.as_slice(), i + 1, t.len());
    proof {
        assert(t@.subrange(0, i as int) =~= t@.take(i as int));
        assert(t@.subrange(i as int + 1, t@.len() as int) =~= t@.skip(i as int + 1));
    }
    Ok((string_of(key.as_slice()), string_of(value.as_slice())))
}


/// The slot defined under `name`, the first definition if several.
pub open spec fn id_of(ids: Seq<(Seq<char>, usize)>, name: Seq<char>) -> Option<usize>
    decreases ids.len(),
{
    if ids.len() == 0 {
        None
    } else {
        match id_of(ids.drop_last(), name) {
            Some(id) => Some(id),
            None => if ids.last().0 == name {
                Some(ids.last().1)
            } else {
                None
            },
        }
    }
}

/// The slot that `slot` was made an alias of, if any.
pub open spec fn alias_of(aliases: Seq<(usize, usize)>, slot: usize) -> Option<usize>
    decreases aliases.len(),
{
    if aliases.len() == 0 {
        None
    } else {
        match alias_of(aliases.drop_last(), slot) {
            Some(t) => Some(t),
            None => if aliases.last().0 == slot {
                Some(aliases.last().1)
            } else {
                None
            },
        }
    }
}

/// The node a slot stands for: its alias target, or itself.
pub open spec fn resolve(aliases: Seq<(usize, usize)>, slot: usize) -> usize {
    match alias_of(aliases, slot) {
        Some(t) => t,
        None => slot,
    }
}

/// Slots before `slot` that are not aliased away.
pub open spec fn live_before(aliases: Seq<(usize, usize)>, slot: int) -> nat
    decreases slot,
{
    if slot <= 0 {
        0
    } else {
        live_before(aliases, slot - 1) + if alias_of(aliases, (slot - 1) as usize) is None {
            1nat
        } else {
            0nat
        }
    }
}

/// The final index of a slot: `None` when aliased away, else the number of
/// live slots before it.
pub open spec fn compacted(aliases: Seq<(usize, usize)>, slot: int) -> Option<usize> {
    if alias_of(aliases, slot as usize) is Some {
        None
    } else {
        Some(live_before(aliases, slot) as usize)
    }
}

/// The alias list after making `from` an alias of `to`: entries aimed at
/// `from` are aimed at `to`, and `from` gets an entry of its own.
pub open spec fn with_alias(aliases: Seq<(usize, usize)>, from: usize, to: usize) -> Seq<(usize, usize)> {
    aliases.map_values(|e: (usize, usize)| (e.0, if e.1 == from {
        to
    } else {
        e.1
    })).push((from, to))
}

/// Abstract content of [`Names`]: definitions in order, and alias entries
/// `(slot, target)`.
pub struct NamesView {
    pub ids: Seq<(Seq<char>, usize)>,
    pub aliases: Seq<(usize, usize)>,
}

/// Node names to node slots, with `.equiv` aliases resolved at lookup and
/// aliased-away slots compacted out of the final geometry.
///
/// Both tables are kept as vectors rather than hash maps. The names are
/// `String` keys, and vstd's `HashMap` specification says nothing useful
/// about lookups under such keys. The alias table is kept flat (every entry
/// aimed at a slot that is not itself an alias), so one step resolves any
/// slot and the resolution needs no chain-following loop whose termination
/// rests on acyclicity; keeping it flat means retargeting every entry aimed
/// at a new alias, a walk over all entries that vstd specifies for a `Vec`
/// but not for the values of a `HashMap`. Lookups are linear in the number
/// of names, which a deck keeps small.
pub struct Names {
    ids: Vec<(String, usize)>,
    aliases: Vec<(usize, usize)>,
}

impl View for Names {
    type V = NamesView;

    closed spec fn view(&self) -> NamesView {
        NamesView {
            ids: self.ids@.map_values(|e: (String, usize)| (e.0@, e.1)),
            aliases: self.aliases@,
        }
    }
}

/// Alias targets are never aliases themselves, so one step resolves any
/// slot.
pub open spec fn aliases_flat(aliases: Seq<(usize, usize)>) -> bool {
    forall|k: int| 0 <= k < aliases.len() ==> alias_of(aliases, (#[trigger] aliases[k]).1) is None
}

/// An entry found by position is what `alias_of` reports for its slot, or
/// an earlier entry for the same slot is.
proof fn lemma_alias_of_entry(aliases: Seq<(usize, usize)>, k: int)
    requires
        0 <= k < aliases.len(),
    ensures
        alias_of(aliases, aliases[k].0) is Some,
    decreases aliases.len(),
{
    if k < aliases.len() - 1 {
        lemma_alias_of_entry(aliases.drop_last(), k);
        assert(aliases.drop_last()[k] == aliases[k]);
    }
}

/// `alias_of` reports an entry of the list.
pub(crate) proof fn lemma_alias_of_found(aliases: Seq<(usize, usize)>, slot: usize)
    requires
        alias_of(aliases, slot) is Some,
    ensures
        exists|k: int| 0 <= k < aliases.len() && (#[trigger] aliases[k]).0 == slot && aliases[k].1 == alias_of(aliases, slot).unwrap(),
    decreases aliases.len(),
{
    if alias_of(aliases.drop_last(), slot) is Some {
        lemma_alias_of_found(aliases.drop_last(), slot);
        let k = choose|k: int| 0 <= k < aliases.drop_last().len() && (#[trigger] aliases.drop_last()[k]).0 == slot && aliases.drop_last()[k].1 == alias_of(aliases.drop_last(), slot).unwrap();
        assert(aliases[k] == aliases.drop_last()[k]);
    } else {
        assert(aliases[aliases.len() - 1] == aliases.last());
    }
}

/// A resolved slot is not an alias.
pub(crate) proof fn lemma_resolve_is_root(aliases: Seq<(usize, usize)>, slot: usize)
    requires
        aliases_flat(aliases),
    ensures
        alias_of(aliases, resolve(aliases, slot)) is None,
{
    if alias_of(aliases, slot) is Some {
        lemma_alias_of_found(aliases, slot);
        let k = choose|k: int| 0 <= k < aliases.len() && (#[trigger] aliases[k]).0 == slot && aliases[k].1 == alias_of(aliases, slot).unwrap();
        assert(alias_of(aliases, aliases[k].1) is None);
    }
}

impl Names {
    /// No names and no aliases.
    pub fn new() -> (r: Self)
        ensures
            r@.ids.len() == 0,
            r@.aliases.len() == 0,
    {
        let r = Names { ids: Vec::new(), aliases: Vec::new() };
        proof {
            assert(r@.ids =~= Seq::<(Seq<char>, usize)>::empty());
        }
        r
    }

    /// Position of `name` among the definitions, if defined.
    fn find(&self, name: &[char]) -> (r: Option<usize>)
        ensures
            match r {
                Some(k) => k < self@.ids.len() && id_of(self@.ids, name@) == Some(self@.ids[k as int].1),
                None => id_of(self@.ids, name@) is None,
            },
    {
        let ghost ids = self@.ids;
        let mut k: usize = 0;
        while k < self.ids.len()
            invariant
                k <= ids.len(),
                ids == self@.ids,
                ids.len() == self.ids@.len(),
                id_of(ids.take(k as int), name@) is None,
            decreases ids.len() - k,
        {
            let entry = chars_of(self.ids[k].0.as_str());
            proof {
                assert(ids[k as int] == (self.ids@[k as int].0@, self.ids@[k as int].1));
                assert(ids.take(k as int + 1).drop_last() =~= ids.take(k as int));
            }
            if crate::text::spells_chars(entry.as_slice(), name) {
                proof {
                    assert(id_of(ids.take(k as int + 1), name@) == Some(ids[k as int].1));
                    lemma_id_of_extends(ids, name@, k as int + 1);
                }
                return Some(k);
            }
            k = k + 1;
        }
        proof {
            assert(ids.take(k as int) =~= ids);
        }
        None
    }

    /// The alias target of `slot`, if it has one.
    fn target(&self, slot: usize) -> (r: Option<usize>)
        ensures
            r == alias_of(self@.aliases, slot),
    {
        let ghost al = self@.aliases;
        let mut k: usize = 0;
        while k < self.aliases.len()
            invariant
                k <= al.len(),
                al == self@.aliases,
                al == self.aliases@,
                alias_of(al.take(k as int), slot) is None,
            decreases al.len() - k,
        {
            proof {
                assert(al.take(k as int + 1).drop_last() =~= al.take(k as int));
            }
            if self.aliases[k].0 == slot {
                proof {
                    lemma_alias_of_extends(al, slot, k as int + 1);
                }
                return Some(self.aliases[k].1);
            }
            k = k + 1;
        }
        proof {
            assert(al.take(k as int) =~= al);
        }
        None
    }

    /// Defines `name` as slot `id`; a name can be defined once.
    pub fn define(&mut self, name: &str, id: usize, line: usize) -> (r: Result<(), ParseError>)
        ensures
            match r {
                Ok(()) => id_of(old(self)@.ids, name@) is None && final(self)@.ids == old(self)@.ids.push((name@, id))
                    && final(self)@.aliases == old(self)@.aliases,
                Err(e) => id_of(old(self)@.ids, name@) is Some && e@ == fault(
                    line as int,
                    "duplicate node name '"@ + name@ + "'"@,
                ) && final(self)@ == old(self)@,
            },
    {
        let n = chars_of(name);
        match self.find(n.as_slice()) {
            Some(_) => Err(err3(line, "duplicate node name '", n.as_slice(), "'")),
            None => {
                let ghost before = self@.ids;
                self.ids.push((string_of(n.as_slice()), id));
                proof {
                    assert(self@.ids =~= before.push((name@, id)));
                }
                Ok(())
            },
        }
    }

    /// The node `name` stands for, its `.equiv` alias resolved.
    pub fn lookup(&self, name: &str, line: usize) -> (r: Result<usize, ParseError>)
        ensures
            match r {
                Ok(v) => id_of(self@.ids, name@) is Some && v == resolve(
                    self@.aliases,
                    id_of(self@.ids, name@).unwrap(),
                ),
                Err(e) => id_of(self@.ids, name@) is None && e@ == fault(
                    line as int,
                    "unknown node '"@ + name@ + "'"@,
                ),
            },
    {
        let n = chars_of(name);
        match self.find(n.as_slice()) {
            None => Err(err3(line, "unknown node '", n.as_slice(), "'")),
            Some(k) => {
                let id = self.ids[k].1;
                match self.target(id) {
                    Some(t) => Ok(t),
                    None => Ok(id),
                }
            },
        }
    }

    /// Makes `from` an alias of `to`: every slot that stood for `from`
    /// stands for `to` from now on.
    pub fn alias(&mut self, from: usize, to: usize)
        requires
            aliases_flat(old(self)@.aliases),
            from != to,
            alias_of(old(self)@.aliases, from) is None,
            alias_of(old(self)@.aliases, to) is None,
        ensures
            final(self)@.aliases == with_alias(old(self)@.aliases, from, to),
            aliases_flat(final(self)@.aliases),
            final(self)@.ids == old(self)@.ids,
            forall|s: usize| #[trigger] resolve(final(self)@.aliases, s) == if resolve(old(self)@.aliases, s) == from {
                to
            } else {
                resolve(old(self)@.aliases, s)
            },
            forall|s: usize| #[trigger] alias_of(final(self)@.aliases, s) is Some <==> (alias_of(old(self)@.aliases, s) is Some || s == from),
    {
        let ghost a0 = self.aliases@;
        let mut updated: Vec<(usize, usize)> = Vec::new();
        let mut k: usize = 0;
        while k < self.aliases.len()
            invariant
                k <= a0.len(),
                a0 == self.aliases@,
                aliases_flat(a0),
                alias_of(a0, from) is None,
                alias_of(a0, to) is None,
                updated@.len() == k,
                forall|j: int| 0 <= j < k ==> #[trigger] updated@[j] == (a0[j].0, if a0[j].1 == from {
                    to
                } else {
                    a0[j].1
                }),
            decreases a0.len() - k,
        {
            let (slot, target) = self.aliases[k];
            if target == from {
                updated.push((slot, to));
            } else {
                updated.push((slot, target));
            }
            k = k + 1;
        }
        let ghost a1 = updated@;
        proof {
            lemma_retarget(a0, a1, from, to);
        }
        updated.push((from, to));
        self.aliases = updated;
        proof {
            let a2 = self.aliases@;
            assert(a2 =~= with_alias(a0, from, to));
            assert(a2.drop_last() =~= a1);
            assert forall|s: usize| #[trigger] alias_of(a2, s) == if s == from {
                Some(to)
            } else {
                alias_of(a1, s)
            } by {
                if s == from {
                    assert(alias_of(a1, from) is None);
                }
            }
            assert(alias_of(a2, to) is None);
            assert forall|j: int| 0 <= j < a2.len() implies alias_of(a2, (#[trigger] a2[j]).1) is None by {
                if j < a1.len() {
                    assert(a2[j] == a1[j]);
                }
            }
        }
    }

    /// The final index of every slot below `slot_count`: aliased-away slots
    /// are dropped and the rest compacted in order.
    pub fn compaction(&self, slot_count: usize) -> (r: Vec<Option<usize>>)
        ensures
            r@.len() == slot_count,
            forall|s: int| 0 <= s < slot_count ==> #[trigger] r@[s] == compacted(self@.aliases, s),
    {
        let mut r: Vec<Option<usize>> = Vec::new();
        let mut live: usize = 0;
        let mut s: usize = 0;
        while s < slot_count
            invariant
                s <= slot_count,
                r@.len() == s,
                live == live_before(self@.aliases, s as int),
                live <= s,
                forall|t: int| 0 <= t < s ==> #[trigger] r@[t] == compacted(self@.aliases, t),
            decreases slot_count - s,
        {
            match self.target(s) {
                Some(_) => {
                    r.push(None);
                },
                None => {
                    r.push(Some(live));
                    live = live + 1;
                },
            }
            s = s + 1;
        }
        r
    }
}

/// `id_of` reports an entry of the list.
pub(crate) proof fn lemma_id_of_found(ids: Seq<(Seq<char>, usize)>, name: Seq<char>)
    requires
        id_of(ids, name) is Some,
    ensures
        exists|k: int| 0 <= k < ids.len() && (#[trigger] ids[k]).0 == name && ids[k].1 == id_of(ids, name).unwrap(),
    decreases ids.len(),
{
    if id_of(ids.drop_last(), name) is Some {
        lemma_id_of_found(ids.drop_last(), name);
        let k = choose|k: int| 0 <= k < ids.drop_last().len() && (#[trigger] ids.drop_last()[k]).0 == name && ids.drop_last()[k].1 == id_of(ids.drop_last(), name).unwrap();
        assert(ids[k] == ids.drop_last()[k]);
    } else {
        assert(ids[ids.len() - 1] == ids.last());
    }
}

/// A definition found in a prefix is the first of the whole list.
proof fn lemma_id_of_extends(ids: Seq<(Seq<char>, usize)>, name: Seq<char>, k: int)
    requires
        0 <= k <= ids.len(),
        id_of(ids.take(k), name) is Some,
    ensures
        id_of(ids, name) == id_of(ids.take(k), name),
    decreases ids.len() - k,
{
    if k < ids.len() {
        assert(ids.take(k + 1).drop_last() =~= ids.take(k));
        lemma_id_of_extends(ids, name, k + 1);
    } else {
        assert(ids.take(k) =~= ids);
    }
}

/// An alias found in a prefix is the first of the whole list.
proof fn lemma_alias_of_extends(aliases: Seq<(usize, usize)>, slot: usize, k: int)
    requires
        0 <= k <= aliases.len(),
        aliases.take(k).drop_last() == aliases.take(k - 1),
        k >= 1,
        alias_of(aliases.take(k - 1), slot) is None,
        aliases[k - 1].0 == slot,
    ensures
        alias_of(aliases, slot) == Some(aliases[k - 1].1),
    decreases aliases.len() - k,
{
    assert(alias_of(aliases.take(k), slot) == Some(aliases[k - 1].1));
    lemma_alias_some_extends(aliases, slot, k);
}

proof fn lemma_alias_some_extends(aliases: Seq<(usize, usize)>, slot: usize, k: int)
    requires
        0 <= k <= aliases.len(),
        alias_of(aliases.take(k), slot) is Some,
    ensures
        alias_of(aliases, slot) == alias_of(aliases.take(k), slot),
    decreases aliases.len() - k,
{
    if k < aliases.len() {
        assert(aliases.take(k + 1).drop_last() =~= aliases.take(k));
        lemma_alias_some_extends(aliases, slot, k + 1);
    } else {
        assert(aliases.take(k) =~= aliases);
    }
}

/// Retargeting every entry aimed at `from` to `to` keeps the slots that
/// have an alias, and aims each at its resolution after the change.
pub(crate) proof fn lemma_retarget(a0: Seq<(usize, usize)>, a1: Seq<(usize, usize)>, from: usize, to: usize)
    requires
        a1.len() == a0.len(),
        forall|j: int| 0 <= j < a0.len() ==> #[trigger] a1[j] == (a0[j].0, if a0[j].1 == from {
            to
        } else {
            a0[j].1
        }),
    ensures
        forall|s: usize| #[trigger] alias_of(a1, s) == match alias_of(a0, s) {
            Some(t) => Some(if t == from {
                to
            } else {
                t
            }),
            None => None,
        },
    decreases a0.len(),
{
    if a0.len() > 0 {
        let b0 = a0.drop_last();
        let b1 = a1.drop_last();
        assert forall|j: int| 0 <= j < b0.len() implies #[trigger] b1[j] == (b0[j].0, if b0[j].1 == from {
            to
        } else {
            b0[j].1
        }) by {
            assert(b1[j] == a1[j]);
            assert(b0[j] == a0[j]);
        }
        lemma_retarget(b0, b1, from, to);
        assert(a1.last() == a1[a1.len() - 1]);
        assert(a0.last() == a0[a0.len() - 1]);
        assert(a0.drop_last() == b0);
        assert(a1.drop_last() == b1);
        assert forall|s: usize| #[trigger] alias_of(a1, s) == match alias_of(a0, s) {
            Some(t) => Some(if t == from {
                to
            } else {
                t
            }),
            None => None,
        } by {
            assert(alias_of(b1, s) == match alias_of(b0, s) {
                Some(t) => Some(if t == from {
                    to
                } else {
                    t
                }),
                None => None,
            });
        }
    } else {
        assert forall|s: usize| #[trigger] alias_of(a1, s) == match alias_of(a0, s) {
            Some(t) => Some(if t == from {
                to
            } else {
                t
            }),
            None => None,
        } by {
        }
    }
}

} // verus!
