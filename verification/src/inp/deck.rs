//! The meaning of a deck's logical lines, as a state machine.
//!
//! Each logical line updates the deck read so far or stops the reading with
//! an error. Numbers stay text; every place where a number, or a frequency
//! sweep, must be checked is recorded in order as a [`Check`].

use vstd::prelude::*;

use crate::geometry::NodeId;
use crate::inp::lines::{begins_with, LineView};
use crate::inp::{
    aliases_flat, alias_of, compacted, count_outcome, fault, field_outcome, lemma_resolve_is_root, lemma_retarget,
    live_before, resolve, with_alias, Fault, NamesView,
};
use crate::Subdivision;

verus! {

/// The length unit of a deck.
#[derive(Clone, Copy, Debug, PartialEq, Eq)]
pub enum LengthUnit {
    /// `um`
    Micrometre,
    /// `mm`
    Millimetre,
    /// `cm`
    Centimetre,
    /// `m`
    Metre,
    /// `mil`, a thousandth of an inch
    Mil,
}

/// The unit a `.units` argument names (case-sensitive).
pub open spec fn unit_named(t: Seq<char>) -> Option<LengthUnit> {
    if t == "um"@ {
        Some(LengthUnit::Micrometre)
    } else if t == "mm"@ {
        Some(LengthUnit::Millimetre)
    } else if t == "cm"@ {
        Some(LengthUnit::Centimetre)
    } else if t == "m"@ {
        Some(LengthUnit::Metre)
    } else if t == "mil"@ {
        Some(LengthUnit::Mil)
    } else {
        None
    }
}

/// A check the caller makes on the numbers of a deck, in deck order.
pub enum CheckView {
    /// `text` must read as a finite decimal number.
    Number { line: int, text: Seq<char> },
    /// `fmin`, `fmax`, `ndec` must make a valid frequency sweep.
    Sweep { line: int, fmin: Seq<char>, fmax: Seq<char>, ndec: usize },
}

/// The value side of a `<field>=<value>` pair: the text of a number (a
/// length or a conductivity), or a count.
pub enum FieldValue {
    Text(Seq<char>),
    Count(usize),
}

/// The text of a number value.
pub open spec fn text_of(v: FieldValue) -> Seq<char> {
    match v {
        FieldValue::Text(t) => t,
        FieldValue::Count(_) => Seq::empty(),
    }
}

/// The count of a count value.
pub open spec fn count_of(v: FieldValue) -> usize {
    match v {
        FieldValue::Text(_) => 0,
        FieldValue::Count(c) => c,
    }
}

/// Whether `key` names a count field.
pub open spec fn is_count_key(key: Seq<char>) -> bool {
    key == "nwinc"@ || key == "nhinc"@
}

/// Reading the value of `key`: a count for `nwinc` and `nhinc`, else a
/// number, whose check is recorded.
pub open spec fn value_outcome(key: Seq<char>, raw: Seq<char>, line: int) -> (Seq<CheckView>, Result<FieldValue, Fault>) {
    if is_count_key(key) {
        (
            Seq::empty(),
            match count_outcome(raw, key, line) {
                Ok(c) => Ok(FieldValue::Count(c)),
                Err(f) => Err(f),
            },
        )
    } else {
        (seq![CheckView::Number { line, text: raw }], Ok(FieldValue::Text(raw)))
    }
}

/// The answer to a `rho=` field.
pub open spec fn rho_message() -> Seq<char> {
    "'rho' (resistivity) is not accepted; this engine takes conductivity: sigma = 1/rho (per deck unit)"@
}

/// Field defaults set by `.default`, as written.
pub struct DefaultsView {
    pub x: Option<Seq<char>>,
    pub y: Option<Seq<char>>,
    pub z: Option<Seq<char>>,
    pub w: Option<Seq<char>>,
    pub h: Option<Seq<char>>,
    pub sigma: Option<Seq<char>>,
    pub nwinc: Option<usize>,
    pub nhinc: Option<usize>,
}

/// No defaults.
pub open spec fn no_defaults() -> DefaultsView {
    DefaultsView { x: None, y: None, z: None, w: None, h: None, sigma: None, nwinc: None, nhinc: None }
}

/// Sets one default field, rejecting unknown keys with the field list.
pub open spec fn set_default(d: DefaultsView, key: Seq<char>, v: FieldValue, line: int) -> Result<DefaultsView, Fault> {
    if key == "x"@ {
        Ok(DefaultsView { x: Some(text_of(v)), ..d })
    } else if key == "y"@ {
        Ok(DefaultsView { y: Some(text_of(v)), ..d })
    } else if key == "z"@ {
        Ok(DefaultsView { z: Some(text_of(v)), ..d })
    } else if key == "w"@ {
        Ok(DefaultsView { w: Some(text_of(v)), ..d })
    } else if key == "h"@ {
        Ok(DefaultsView { h: Some(text_of(v)), ..d })
    } else if key == "nwinc"@ {
        Ok(DefaultsView { nwinc: Some(count_of(v)), ..d })
    } else if key == "nhinc"@ {
        Ok(DefaultsView { nhinc: Some(count_of(v)), ..d })
    } else if key == "sigma"@ {
        Ok(DefaultsView { sigma: Some(text_of(v)), ..d })
    } else if key == "rho"@ {
        Err(fault(line, rho_message()))
    } else {
        Err(fault(line, "unknown field '"@ + key + "' (supported: x, y, z, w, h, nwinc, nhinc, sigma)"@))
    }
}

/// The fields of a `.default` line, left to right, up to the first error.
pub open spec fn default_fields(d: DefaultsView, toks: Seq<Seq<char>>, line: int) -> (Seq<CheckView>, Result<DefaultsView, Fault>)
    decreases toks.len(),
{
    if toks.len() == 0 {
        (Seq::empty(), Ok(d))
    } else {
        match field_outcome(toks[0], line) {
            Err(f) => (Seq::empty(), Err(f)),
            Ok((key, raw)) => {
                let (c1, v) = value_outcome(key, raw, line);
                match v {
                    Err(f) => (c1, Err(f)),
                    Ok(v) => match set_default(d, key, v, line) {
                        Err(f) => (c1, Err(f)),
                        Ok(d2) => {
                            let (c2, r) = default_fields(d2, toks.drop_first(), line);
                            (c1 + c2, r)
                        },
                    },
                }
            },
        }
    }
}

/// Coordinates of a node, as written.
pub type CoordsView = (Option<Seq<char>>, Option<Seq<char>>, Option<Seq<char>>);

/// Sets one coordinate of a node.
pub open spec fn set_coord(c: CoordsView, key: Seq<char>, v: FieldValue, line: int) -> Result<CoordsView, Fault> {
    if key == "x"@ {
        Ok((Some(text_of(v)), c.1, c.2))
    } else if key == "y"@ {
        Ok((c.0, Some(text_of(v)), c.2))
    } else if key == "z"@ {
        Ok((c.0, c.1, Some(text_of(v))))
    } else {
        Err(fault(line, "unknown node field '"@ + key + "' (supported: x, y, z)"@))
    }
}

/// The fields of a node line.
pub open spec fn node_fields(c: CoordsView, toks: Seq<Seq<char>>, line: int) -> (Seq<CheckView>, Result<CoordsView, Fault>)
    decreases toks.len(),
{
    if toks.len() == 0 {
        (Seq::empty(), Ok(c))
    } else {
        match field_outcome(toks[0], line) {
            Err(f) => (Seq::empty(), Err(f)),
            Ok((key, raw)) => {
                let (c1, v) = value_outcome(key, raw, line);
                match v {
                    Err(f) => (c1, Err(f)),
                    Ok(v) => match set_coord(c, key, v, line) {
                        Err(f) => (c1, Err(f)),
                        Ok(c2) => {
                            let (c3, r) = node_fields(c2, toks.drop_first(), line);
                            (c1 + c3, r)
                        },
                    },
                }
            },
        }
    }
}

/// Fields of a segment, as written.
pub struct SegFieldsView {
    pub w: Option<Seq<char>>,
    pub h: Option<Seq<char>>,
    pub sigma: Option<Seq<char>>,
    pub nwinc: Option<usize>,
    pub nhinc: Option<usize>,
}

/// Sets one field of a segment.
pub open spec fn set_seg_field(f: SegFieldsView, key: Seq<char>, v: FieldValue, line: int) -> Result<SegFieldsView, Fault> {
    if key == "w"@ {
        Ok(SegFieldsView { w: Some(text_of(v)), ..f })
    } else if key == "h"@ {
        Ok(SegFieldsView { h: Some(text_of(v)), ..f })
    } else if key == "nwinc"@ {
        Ok(SegFieldsView { nwinc: Some(count_of(v)), ..f })
    } else if key == "nhinc"@ {
        Ok(SegFieldsView { nhinc: Some(count_of(v)), ..f })
    } else if key == "sigma"@ {
        Ok(SegFieldsView { sigma: Some(text_of(v)), ..f })
    } else if key == "x"@ || key == "y"@ || key == "z"@ {
        Err(fault(line, "'"@ + key + "' is a node field, not a segment field"@))
    } else if key == "rho"@ {
        Err(fault(line, rho_message()))
    } else {
        Err(fault(line, "unknown field '"@ + key + "' (supported: w, h, nwinc, nhinc, sigma)"@))
    }
}

/// The fields of an element line.
pub open spec fn seg_fields(f: SegFieldsView, toks: Seq<Seq<char>>, line: int) -> (Seq<CheckView>, Result<SegFieldsView, Fault>)
    decreases toks.len(),
{
    if toks.len() == 0 {
        (Seq::empty(), Ok(f))
    } else {
        match field_outcome(toks[0], line) {
            Err(e) => (Seq::empty(), Err(e)),
            Ok((key, raw)) => {
                let (c1, v) = value_outcome(key, raw, line);
                match v {
                    Err(e) => (c1, Err(e)),
                    Ok(v) => match set_seg_field(f, key, v, line) {
                        Err(e) => (c1, Err(e)),
                        Ok(f2) => {
                            let (c2, r) = seg_fields(f2, toks.drop_first(), line);
                            (c1 + c2, r)
                        },
                    },
                }
            },
        }
    }
}

/// Fields of a `.freq` line, as written.
pub type FreqView = (Option<Seq<char>>, Option<Seq<char>>, Option<usize>);

/// The fields of a `.freq` line.
pub open spec fn freq_fields(q: FreqView, toks: Seq<Seq<char>>, line: int) -> (Seq<CheckView>, Result<FreqView, Fault>)
    decreases toks.len(),
{
    if toks.len() == 0 {
        (Seq::empty(), Ok(q))
    } else {
        match field_outcome(toks[0], line) {
            Err(e) => (Seq::empty(), Err(e)),
            Ok((key, raw)) => {
                if key == "fmin"@ {
                    let (c2, r) = freq_fields((Some(raw), q.1, q.2), toks.drop_first(), line);
                    (seq![CheckView::Number { line, text: raw }] + c2, r)
                } else if key == "fmax"@ {
                    let (c2, r) = freq_fields((q.0, Some(raw), q.2), toks.drop_first(), line);
                    (seq![CheckView::Number { line, text: raw }] + c2, r)
                } else if key == "ndec"@ {
                    match count_outcome(raw, "ndec"@, line) {
                        Err(e) => (Seq::empty(), Err(e)),
                        Ok(n) => freq_fields((q.0, q.1, Some(n)), toks.drop_first(), line),
                    }
                } else {
                    (
                        Seq::empty(),
                        Err(fault(line, "unknown .freq field '"@ + key + "' (supported: fmin, fmax, ndec)"@)),
                    )
                }
            },
        }
    }
}

/// A segment as read: the nodes as looked up when read, the dimensions and
/// conductivity as written, and its subdivision.
pub struct SegRec {
    pub a: usize,
    pub b: usize,
    pub w: Seq<char>,
    pub h: Seq<char>,
    pub sigma: Seq<char>,
    pub sub: Subdivision,
}

/// A port as read: its nodes as looked up when read, and its name.
pub struct PortRec {
    pub positive: usize,
    pub negative: usize,
    pub name: Seq<char>,
}

/// A frequency sweep as written.
pub struct SweepView {
    pub line: int,
    pub fmin: Seq<char>,
    pub fmax: Seq<char>,
    pub ndec: usize,
}

/// The deck read so far.
pub struct DeckState {
    pub title: Option<Seq<char>>,
    pub unit: Option<LengthUnit>,
    pub defaults: DefaultsView,
    pub names: NamesView,
    pub positions: Seq<(Seq<char>, Seq<char>, Seq<char>)>,
    pub segments: Seq<SegRec>,
    pub ports: Seq<PortRec>,
    pub sweep: Option<SweepView>,
    pub ended: bool,
    pub checks: Seq<CheckView>,
}

/// Nothing read yet.
pub open spec fn initial_state() -> DeckState {
    DeckState {
        title: None,
        unit: None,
        defaults: no_defaults(),
        names: NamesView { ids: Seq::empty(), aliases: Seq::empty() },
        positions: Seq::empty(),
        segments: Seq::empty(),
        ports: Seq::empty(),
        sweep: None,
        ended: false,
        checks: Seq::empty(),
    }
}

/// Words joined with single spaces.
pub open spec fn joined(ws: Seq<Seq<char>>) -> Seq<char>
    decreases ws.len(),
{
    if ws.len() == 0 {
        Seq::empty()
    } else if ws.len() == 1 {
        ws[0]
    } else {
        joined(ws.drop_last()) + " "@ + ws.last()
    }
}

/// The node a name stands for, or the error of an unknown name.
pub open spec fn lookup_outcome(names: NamesView, name: Seq<char>, line: int) -> Result<usize, Fault> {
    match crate::inp::id_of(names.ids, name) {
        Some(id) => Ok(resolve(names.aliases, id)),
        None => Err(fault(line, "unknown node '"@ + name + "'"@)),
    }
}

/// A transition: the new state, and the error that stops the reading, if
/// any (the state then keeps the checks recorded before it).
pub type Outcome = (DeckState, Option<Fault>);

/// `.title`: the rest of the line.
pub open spec fn on_title(s: DeckState, toks: Seq<Seq<char>>) -> Outcome {
    (DeckState { title: Some(joined(toks.drop_first())), ..s }, None)
}

/// `.units <unit>`: once per deck.
pub open spec fn on_units(s: DeckState, toks: Seq<Seq<char>>, line: int) -> Outcome {
    if toks.len() != 2 {
        (s, Some(fault(line, "expected .units <unit>"@)))
    } else if s.unit is Some {
        (s, Some(fault(line, "duplicate .units directive"@)))
    } else {
        match unit_named(toks[1]) {
            Some(u) => (DeckState { unit: Some(u), ..s }, None),
            None => (
                s,
                Some(fault(line, "unknown length unit '"@ + toks[1] + "' (supported: um, mm, cm, m, mil)"@)),
            ),
        }
    }
}

/// `.default <field>=<v> …`: after `.units`.
pub open spec fn on_default(s: DeckState, toks: Seq<Seq<char>>, line: int) -> Outcome {
    if s.unit is None {
        (s, Some(fault(line, ".default before .units (lengths need a unit)"@)))
    } else {
        let (c, r) = default_fields(s.defaults, toks.drop_first(), line);
        match r {
            Err(f) => (DeckState { checks: s.checks + c, ..s }, Some(f)),
            Ok(d) => (DeckState { checks: s.checks + c, defaults: d, ..s }, None),
        }
    }
}

/// `.external N<+> N<-> [name]`: a port, named `<+>/<->` by default.
pub open spec fn on_external(s: DeckState, toks: Seq<Seq<char>>, line: int) -> Outcome {
    if toks.len() != 3 && toks.len() != 4 {
        (s, Some(fault(line, "expected .external N<+> N<-> [name]"@)))
    } else {
        match lookup_outcome(s.names, toks[1], line) {
            Err(f) => (s, Some(f)),
            Ok(positive) => match lookup_outcome(s.names, toks[2], line) {
                Err(f) => (s, Some(f)),
                Ok(negative) => {
                    let name = if toks.len() == 4 {
                        toks[3]
                    } else {
                        toks[1] + "/"@ + toks[2]
                    };
                    (DeckState { ports: s.ports.push(PortRec { positive, negative, name }), ..s }, None)
                },
            },
        }
    }
}

/// `.freq fmin=<v> fmax=<v> ndec=<n>`: the sweep, whose check is recorded.
pub open spec fn on_freq(s: DeckState, toks: Seq<Seq<char>>, line: int) -> Outcome {
    if toks.len() != 4 {
        (s, Some(fault(line, "expected .freq fmin=<v> fmax=<v> ndec=<n>"@)))
    } else {
        let (c, r) = freq_fields((None, None, None), toks.drop_first(), line);
        match r {
            Err(f) => (DeckState { checks: s.checks + c, ..s }, Some(f)),
            Ok(q) => match q {
                (Some(fmin), Some(fmax), Some(ndec)) => {
                    let sweep = SweepView { line, fmin, fmax, ndec };
                    (
                        DeckState {
                            checks: s.checks + c + seq![CheckView::Sweep { line, fmin, fmax, ndec }],
                            sweep: Some(sweep),
                            ..s
                        },
                        None,
                    )
                },
                _ => (
                    DeckState { checks: s.checks + c, ..s },
                    Some(fault(line, ".freq needs fmin=, fmax= and ndec="@)),
                ),
            },
        }
    }
}

/// `.equiv N<a> N<b>`: `b` becomes an alias of `a`.
pub open spec fn on_equiv(s: DeckState, toks: Seq<Seq<char>>, line: int) -> Outcome {
    if toks.len() != 3 {
        (s, Some(fault(line, "expected .equiv N<a> N<b>"@)))
    } else {
        match lookup_outcome(s.names, toks[1], line) {
            Err(f) => (s, Some(f)),
            Ok(a) => match lookup_outcome(s.names, toks[2], line) {
                Err(f) => (s, Some(f)),
                Ok(b) => if a == b {
                    (s, Some(fault(line, ".equiv of node '"@ + toks[1] + "' with itself"@)))
                } else {
                    (
                        DeckState {
                            names: NamesView { ids: s.names.ids, aliases: with_alias(s.names.aliases, b, a) },
                            ..s
                        },
                        None,
                    )
                },
            },
        }
    }
}

/// `.end`: the deck ends; nothing may follow.
pub open spec fn on_end(s: DeckState, toks: Seq<Seq<char>>, line: int) -> Outcome {
    if toks.len() != 1 {
        (s, Some(fault(line, "expected .end (no arguments)"@)))
    } else {
        (DeckState { ended: true, ..s }, None)
    }
}

/// `N<name> [x]=<v> [y]=<v> [z]=<v>`: a node, in the next slot.
pub open spec fn on_node(s: DeckState, toks: Seq<Seq<char>>, line: int) -> Outcome {
    if s.unit is None {
        (s, Some(fault(line, "node before .units (lengths need a unit)"@)))
    } else {
        let (c, r) = node_fields((s.defaults.x, s.defaults.y, s.defaults.z), toks.drop_first(), line);
        let s1 = DeckState { checks: s.checks + c, ..s };
        match r {
            Err(f) => (s1, Some(f)),
            Ok(coords) => match coords {
                (Some(x), Some(y), Some(z)) => {
                    if crate::inp::id_of(s.names.ids, toks[0]) is Some {
                        (s1, Some(fault(line, "duplicate node name '"@ + toks[0] + "'"@)))
                    } else {
                        (
                            DeckState {
                                positions: s.positions.push((x, y, z)),
                                names: NamesView {
                                    ids: s.names.ids.push((toks[0], s.positions.len() as usize)),
                                    aliases: s.names.aliases,
                                },
                                ..s1
                            },
                            None,
                        )
                    }
                },
                _ => (
                    s1,
                    Some(
                        fault(
                            line,
                            "node '"@ + toks[0]
                                + "': a coordinate is unset and no .default covers it (set it, or .default x=… y=… z=…)"@,
                        ),
                    ),
                ),
            },
        }
    }
}

/// `E<name> N<a> N<b> [field]=<v> …`: a segment.
pub open spec fn on_element(s: DeckState, toks: Seq<Seq<char>>, line: int) -> Outcome {
    if s.unit is None {
        (s, Some(fault(line, "element before .units (lengths need a unit)"@)))
    } else if toks.len() < 3 {
        (s, Some(fault(line, "expected E<name> N<a> N<b> [field]=<value> …"@)))
    } else {
        match lookup_outcome(s.names, toks[1], line) {
            Err(f) => (s, Some(f)),
            Ok(a) => match lookup_outcome(s.names, toks[2], line) {
                Err(f) => (s, Some(f)),
                Ok(b) => {
                    let d = s.defaults;
                    let init = SegFieldsView { w: d.w, h: d.h, sigma: d.sigma, nwinc: d.nwinc, nhinc: d.nhinc };
                    let (c, r) = seg_fields(init, toks.skip(3), line);
                    let s1 = DeckState { checks: s.checks + c, ..s };
                    match r {
                        Err(f) => (s1, Some(f)),
                        Ok(f) => if f.w is None {
                            (s1, Some(fault(line, "segment '"@ + toks[0] + "' has no width: set w= here or in .default"@)))
                        } else if f.h is None {
                            (s1, Some(fault(line, "segment '"@ + toks[0] + "' has no height: set h= here or in .default"@)))
                        } else if f.sigma is None {
                            (
                                s1,
                                Some(
                                    fault(
                                        line,
                                        "segment '"@ + toks[0] + "' has no conductivity: set sigma= here or in .default"@,
                                    ),
                                ),
                            )
                        } else {
                            let rec = SegRec {
                                a,
                                b,
                                w: f.w.unwrap(),
                                h: f.h.unwrap(),
                                sigma: f.sigma.unwrap(),
                                sub: Subdivision {
                                    nw: match f.nwinc {
                                        Some(v) => v,
                                        None => 1,
                                    },
                                    nh: match f.nhinc {
                                        Some(v) => v,
                                        None => 1,
                                    },
                                },
                            };
                            (DeckState { segments: s.segments.push(rec), ..s1 }, None)
                        },
                    }
                },
            },
        }
    }
}

/// One logical line.
pub open spec fn step(s: DeckState, l: LineView) -> Outcome {
    let (line, toks) = l;
    let head = toks[0];
    let keyword = head.map_values(|c: char| crate::text::ascii_lower(c));
    if s.ended {
        (s, Some(fault(line, "content after .end"@)))
    } else if begins_with(keyword, '.') {
        let directive = keyword.drop_first();
        if directive == "title"@ {
            on_title(s, toks)
        } else if directive == "units"@ {
            on_units(s, toks, line)
        } else if directive == "default"@ {
            on_default(s, toks, line)
        } else if directive == "external"@ {
            on_external(s, toks, line)
        } else if directive == "freq"@ {
            on_freq(s, toks, line)
        } else if directive == "equiv"@ {
            on_equiv(s, toks, line)
        } else if directive == "end"@ {
            on_end(s, toks, line)
        } else {
            (
                s,
                Some(
                    fault(
                        line,
                        "'."@ + directive
                            + "' is not in the M0 subset (ground planes ('G') and the rest of FastHenry are M1)"@,
                    ),
                ),
            )
        }
    } else if begins_with(keyword, 'n') {
        on_node(s, toks, line)
    } else if begins_with(keyword, 'e') {
        on_element(s, toks, line)
    } else if begins_with(keyword, 'g') {
        (s, Some(fault(line, "ground planes ('G' lines) are not supported in M0 (M1 feature)"@)))
    } else {
        (s, Some(fault(line, "unrecognized line '"@ + head + "' (expected N…, E…, or a .directive)"@)))
    }
}

/// The logical lines in order, up to the first error.
pub open spec fn run(s: DeckState, ls: Seq<LineView>) -> Outcome
    decreases ls.len(),
{
    if ls.len() == 0 {
        (s, None)
    } else {
        let (s1, e) = step(s, ls[0]);
        if e is Some {
            (s1, e)
        } else {
            run(s1, ls.drop_first())
        }
    }
}


/// A segment of a read deck: its end nodes by final index.
pub struct SegmentOutlineView {
    pub a: int,
    pub b: int,
    pub w: Seq<char>,
    pub h: Seq<char>,
    pub sigma: Seq<char>,
    pub sub: Subdivision,
}

/// A read deck: nodes and their references compacted past `.equiv`
/// aliases, numbers as written.
pub struct OutlineView {
    pub title: Option<Seq<char>>,
    pub unit: LengthUnit,
    pub nodes: Seq<(Seq<char>, Seq<char>, Seq<char>)>,
    pub segments: Seq<SegmentOutlineView>,
    pub ports: Seq<(int, int, Option<Seq<char>>)>,
    pub sweep: SweepView,
}

/// Final index of the node that slot `slot` stands for.
pub open spec fn final_index(aliases: Seq<(usize, usize)>, slot: usize) -> int {
    live_before(aliases, resolve(aliases, slot) as int) as int
}

/// The positions of the first `k` slots that are not aliased away.
pub open spec fn live_positions(
    ps: Seq<(Seq<char>, Seq<char>, Seq<char>)>,
    aliases: Seq<(usize, usize)>,
    k: int,
) -> Seq<(Seq<char>, Seq<char>, Seq<char>)>
    decreases k,
{
    if k <= 0 {
        Seq::empty()
    } else {
        let p = live_positions(ps, aliases, k - 1);
        if crate::inp::alias_of(aliases, (k - 1) as usize) is None {
            p.push(ps[k - 1])
        } else {
            p
        }
    }
}

/// The deck once every line is read: `.end`, `.units`, a port and a sweep
/// are required. A missing `.end` is reported on the last line; the rest
/// belong to no single line and report line 0.
pub open spec fn finish(s: DeckState, last_line: int) -> Result<OutlineView, Fault> {
    if !s.ended {
        Err(fault(last_line, "deck has no .end directive"@))
    } else if s.unit is None {
        Err(fault(0, "deck has no .units directive (units are mandatory: .units um|mm|cm|m|mil)"@))
    } else if s.ports.len() == 0 {
        Err(fault(0, "deck has no .external port"@))
    } else if s.sweep is None {
        Err(fault(0, "deck has no .freq sweep"@))
    } else {
        let al = s.names.aliases;
        Ok(
            OutlineView {
                title: s.title,
                unit: s.unit.unwrap(),
                nodes: live_positions(s.positions, al, s.positions.len() as int),
                segments: s.segments.map_values(|r: SegRec| SegmentOutlineView {
                    a: final_index(al, r.a),
                    b: final_index(al, r.b),
                    w: r.w,
                    h: r.h,
                    sigma: r.sigma,
                    sub: r.sub,
                }),
                ports: s.ports.map_values(|p: PortRec| (final_index(al, p.positive), final_index(al, p.negative), Some(p.name))),
                sweep: s.sweep.unwrap(),
            },
        )
    }
}

/// What reading `text` gives: the checks, in order, and the deck or the
/// first error.
pub open spec fn outline_of(text: Seq<char>) -> (Seq<CheckView>, Result<OutlineView, Fault>) {
    let ls = crate::inp::lines::lines_of(text);
    match crate::inp::lines::fold(ls) {
        Err(f) => (Seq::empty(), Err(f)),
        Ok(lines) => {
            let (s, e) = run(initial_state(), lines);
            match e {
                Some(f) => (s.checks, Err(f)),
                None => (s.checks, finish(s, ls.len() as int)),
            }
        },
    }
}

// ---------------------------------------------------------------------------
// The reader.
// ---------------------------------------------------------------------------

/// A check the caller makes on the numbers of a deck, in deck order.
#[derive(Clone, Debug, PartialEq, Eq)]
pub enum Check {
    /// `text`, on line `line`, must read as a finite decimal number.
    Number { line: usize, text: String },
    /// The sweep of the `.freq` line `line` must be valid.
    Sweep { line: usize, fmin: String, fmax: String, ndec: usize },
}

impl View for Check {
    type V = CheckView;

    open spec fn view(&self) -> CheckView {
        match self {
            Check::Number { line, text } => CheckView::Number { line: *line as int, text: text@ },
            Check::Sweep { line, fmin, fmax, ndec } => CheckView::Sweep {
                line: *line as int,
                fmin: fmin@,
                fmax: fmax@,
                ndec: *ndec,
            },
        }
    }
}

/// The checks of a list.
pub open spec fn checks_view(cs: Seq<Check>) -> Seq<CheckView> {
    cs.map_values(|c: Check| c@)
}

/// A node of a read deck: its coordinates as written.
#[derive(Clone, Debug, PartialEq, Eq)]
pub struct NodeText {
    pub x: String,
    pub y: String,
    pub z: String,
}

/// A segment of a read deck.
#[derive(Clone, Debug, PartialEq, Eq)]
pub struct SegmentText {
    /// First end node.
    pub a: NodeId,
    /// Second end node.
    pub b: NodeId,
    /// Width as written.
    pub w: String,
    /// Height as written.
    pub h: String,
    /// Conductivity as written, per deck unit.
    pub sigma: String,
    /// Filaments across width and height.
    pub subdivision: Subdivision,
}

/// The frequency sweep of a read deck.
#[derive(Clone, Debug, PartialEq, Eq)]
pub struct SweepText {
    /// The `.freq` line.
    pub line: usize,
    /// Lowest frequency as written.
    pub fmin: String,
    /// Highest frequency as written.
    pub fmax: String,
    /// Points per decade.
    pub ndec: usize,
}

/// A read deck: the title, unit, nodes, segments, ports and sweep, with node
/// references resolved past `.equiv` aliases and numbers as written.
#[derive(Clone, Debug, PartialEq, Eq)]
pub struct DeckOutline {
    /// The `.title` line, if any.
    pub title: Option<String>,
    /// The `.units` unit.
    pub unit: LengthUnit,
    /// The nodes, aliased-away ones left out.
    pub nodes: Vec<NodeText>,
    /// The segments, in deck order.
    pub segments: Vec<SegmentText>,
    /// The ports from `.external`, in deck order.
    pub ports: Vec<crate::mesh::Port>,
    /// The last `.freq` sweep.
    pub sweep: SweepText,
}

/// The content of a read segment.
pub open spec fn segment_view(t: SegmentText) -> SegmentOutlineView {
    SegmentOutlineView { a: t.a.0 as int, b: t.b.0 as int, w: t.w@, h: t.h@, sigma: t.sigma@, sub: t.subdivision }
}

/// The content of a port of a read deck.
pub open spec fn port_view(p: crate::mesh::Port) -> (int, int, Option<Seq<char>>) {
    (
        p.positive.0 as int,
        p.negative.0 as int,
        match p.name {
            Some(n) => Some(n@),
            None => None,
        },
    )
}

impl View for DeckOutline {
    type V = OutlineView;

    open spec fn view(&self) -> OutlineView {
        OutlineView {
            title: match self.title {
                Some(t) => Some(t@),
                None => None,
            },
            unit: self.unit,
            nodes: self.nodes@.map_values(|n: NodeText| (n.x@, n.y@, n.z@)),
            segments: self.segments@.map_values(|t: SegmentText| segment_view(t)),
            ports: self.ports@.map_values(|p: crate::mesh::Port| port_view(p)),
            sweep: SweepView {
                line: self.sweep.line as int,
                fmin: self.sweep.fmin@,
                fmax: self.sweep.fmax@,
                ndec: self.sweep.ndec,
            },
        }
    }
}


/// Directives are case-insensitive: a directive line reads the same
/// whatever the case of its first word.
pub proof fn lemma_directive_case(s: DeckState, line: int, toks: Seq<Seq<char>>, head: Seq<char>)
    requires
        toks.len() >= 1,
        head.map_values(|c: char| crate::text::ascii_lower(c)) == toks[0].map_values(|c: char| crate::text::ascii_lower(c)),
        begins_with(toks[0].map_values(|c: char| crate::text::ascii_lower(c)), '.'),
    ensures
        step(s, (line, toks.update(0, head))) == step(s, (line, toks)),
{
    let t2 = toks.update(0, head);
    assert(t2.drop_first() =~= toks.drop_first());
    assert(t2.len() == toks.len());
    if toks.len() > 1 {
        assert(t2[1] == toks[1]);
    }
    if toks.len() > 2 {
        assert(t2[2] == toks[2]);
    }
    if toks.len() > 3 {
        assert(t2[3] == toks[3]);
    }
}

/// A port read from `.external A B [name]` has its positive node where `A`
/// resolves and its negative node where `B` resolves: current enters at the
/// first node named. The port is appended after the ports read before, and
/// is named by the fourth word or else `A/B`.
pub proof fn lemma_external_polarity(s: DeckState, toks: Seq<Seq<char>>, line: int)
    requires
        on_external(s, toks, line).1 is None,
    ensures
        ({
            let ports = on_external(s, toks, line).0.ports;
            let ids = s.names.ids;
            let al = s.names.aliases;
            &&& crate::inp::id_of(ids, toks[1]) is Some
            &&& crate::inp::id_of(ids, toks[2]) is Some
            &&& ports.len() == s.ports.len() + 1
            &&& ports.take(s.ports.len() as int) == s.ports
            &&& ports.last().positive == resolve(al, crate::inp::id_of(ids, toks[1]).unwrap())
            &&& ports.last().negative == resolve(al, crate::inp::id_of(ids, toks[2]).unwrap())
            &&& ports.last().name == if toks.len() == 4 {
                toks[3]
            } else {
                toks[1] + "/"@ + toks[2]
            }
        }),
{
    let ports = on_external(s, toks, line).0.ports;
    assert(ports.take(s.ports.len() as int) =~= s.ports);
}

/// `.units u` sets the unit that `u` spells: `um`, `mm`, `cm`, `m` and
/// `mil` each give their own unit, and nothing else is accepted.
pub proof fn lemma_units_spelled(s: DeckState, toks: Seq<Seq<char>>, line: int)
    requires
        on_units(s, toks, line).1 is None,
    ensures
        ({
            let u = on_units(s, toks, line).0.unit;
            let t = toks[1];
            &&& s.unit is None
            &&& u is Some
            &&& (u == Some(LengthUnit::Micrometre) <==> t == "um"@)
            &&& (u == Some(LengthUnit::Millimetre) <==> t == "mm"@)
            &&& (u == Some(LengthUnit::Centimetre) <==> t == "cm"@)
            &&& (u == Some(LengthUnit::Metre) <==> t == "m"@)
            &&& (u == Some(LengthUnit::Mil) <==> t == "mil"@)
        }),
{
    reveal_strlit("um");
    reveal_strlit("mm");
    reveal_strlit("cm");
    reveal_strlit("m");
    reveal_strlit("mil");
    let t = toks[1];
    // The five spellings differ in length or in their first letter.
    assert("um"@[0] == 'u' && "mm"@[0] == 'm' && "cm"@[0] == 'c' && "m"@.len() == 1 && "mil"@.len() == 3);
    if t == "um"@ {
        assert(t != "mm"@ && t != "cm"@ && t != "m"@ && t != "mil"@);
    } else if t == "mm"@ {
        assert(t != "cm"@ && t != "m"@ && t != "mil"@);
    } else if t == "cm"@ {
        assert(t != "m"@ && t != "mil"@);
    } else if t == "m"@ {
        assert(t != "mil"@);
    }
}

/// Words joined with single spaces, read from the front: the first word,
/// a space, and the rest joined.
proof fn lemma_joined_front(ws: Seq<Seq<char>>)
    requires
        ws.len() >= 2,
    ensures
        joined(ws) == ws[0] + " "@ + joined(ws.drop_first()),
    decreases ws.len(),
{
    let init = ws.drop_last();
    let rest = ws.drop_first();
    assert(joined(ws) == joined(init) + " "@ + ws.last());
    if ws.len() == 2 {
        assert(init.len() == 1 && init[0] == ws[0]);
        assert(joined(init) == ws[0]);
        assert(rest.len() == 1 && rest[0] == ws[1]);
        assert(joined(rest) == ws[1]);
        assert(ws.last() == ws[1]);
        assert(joined(ws) =~= ws[0] + " "@ + joined(rest));
    } else {
        lemma_joined_front(init);
        assert(init.drop_first() =~= rest.drop_last());
        assert(rest.last() == ws.last());
        assert(init[0] == ws[0]);
        assert(joined(rest) == joined(rest.drop_last()) + " "@ + rest.last());
        assert(joined(ws) =~= ws[0] + " "@ + joined(rest));
    }
}

/// The title of `.title w` is `w`, and the title of `.title w1 w2 … wk` is
/// `w1`, one space, and the title that `.title w2 … wk` would give: the
/// words in order, separated by single spaces.
pub proof fn lemma_title_words(s: DeckState, toks: Seq<Seq<char>>)
    requires
        toks.len() >= 2,
    ensures
        on_title(s, toks).0.title is Some,
        toks.len() == 2 ==> on_title(s, toks).0.title == Some(toks[1]),
        toks.len() >= 3 ==> on_title(s, toks).0.title.unwrap() == toks[1] + " "@ + on_title(
            s,
            toks.remove(1),
        ).0.title.unwrap(),
{
    let ws = toks.drop_first();
    if toks.len() == 2 {
        assert(ws.len() == 1);
    } else {
        lemma_joined_front(ws);
        assert(toks.remove(1).drop_first() =~= ws.drop_first());
    }
}

/// The value written for `key` among `<field>=<value>` words: that of the
/// last word with that key, if any (a later word overrides an earlier one).
pub open spec fn written(toks: Seq<Seq<char>>, key: Seq<char>, line: int) -> Option<Seq<char>>
    decreases toks.len(),
{
    if toks.len() == 0 {
        None
    } else {
        match written(toks.drop_first(), key, line) {
            Some(r) => Some(r),
            None => match field_outcome(toks[0], line) {
                Ok((k, raw)) => if k == key {
                    Some(raw)
                } else {
                    None
                },
                Err(_) => None,
            },
        }
    }
}

/// The number a count field's text spells.
pub open spec fn count_written(raw: Seq<char>) -> usize {
    match crate::inp::count_literal(raw) {
        Some(v) => v,
        None => 0,
    }
}

/// The segment field names are five different words.
proof fn lemma_seg_keys_distinct()
    ensures
        "w"@ != "h"@,
        "w"@ != "sigma"@,
        "w"@ != "nwinc"@,
        "w"@ != "nhinc"@,
        "h"@ != "sigma"@,
        "h"@ != "nwinc"@,
        "h"@ != "nhinc"@,
        "sigma"@ != "nwinc"@,
        "sigma"@ != "nhinc"@,
        "nwinc"@ != "nhinc"@,
{
    reveal_strlit("w");
    reveal_strlit("h");
    reveal_strlit("sigma");
    reveal_strlit("nwinc");
    reveal_strlit("nhinc");
    assert("w"@[0] != "h"@[0]);
    assert("sigma"@[0] != "nwinc"@[0]);
    assert("sigma"@[0] != "nhinc"@[0]);
    assert("nwinc"@[1] != "nhinc"@[1]);
}

/// Reading the fields of an element line leaves each field at the value
/// last written for it on the line, or where it started.
proof fn lemma_seg_fields_written(f: SegFieldsView, toks: Seq<Seq<char>>, line: int)
    requires
        seg_fields(f, toks, line).1 is Ok,
    ensures
        ({
            let g = seg_fields(f, toks, line).1->Ok_0;
            &&& g.w == match written(toks, "w"@, line) {
                Some(r) => Some(r),
                None => f.w,
            }
            &&& g.h == match written(toks, "h"@, line) {
                Some(r) => Some(r),
                None => f.h,
            }
            &&& g.sigma == match written(toks, "sigma"@, line) {
                Some(r) => Some(r),
                None => f.sigma,
            }
            &&& g.nwinc == match written(toks, "nwinc"@, line) {
                Some(r) => Some(count_written(r)),
                None => f.nwinc,
            }
            &&& g.nhinc == match written(toks, "nhinc"@, line) {
                Some(r) => Some(count_written(r)),
                None => f.nhinc,
            }
        }),
    decreases toks.len(),
{
    lemma_seg_keys_distinct();
    if toks.len() > 0 {
        let (key, raw) = field_outcome(toks[0], line)->Ok_0;
        let v = value_outcome(key, raw, line).1->Ok_0;
        let f2 = set_seg_field(f, key, v, line)->Ok_0;
        lemma_seg_fields_written(f2, toks.drop_first(), line);
        if is_count_key(key) {
            assert(v == FieldValue::Count(count_outcome(raw, key, line)->Ok_0));
        } else {
            assert(v == FieldValue::Text(raw));
        }
    }
}

/// A segment read from `E<name> A B <field>=<value> …` joins where `A` and
/// `B` resolve; its width, height and conductivity are each the value last
/// written for that field on the line, else its `.default`; its subdivision
/// is `nwinc` across the width and `nhinc` across the height, each as last
/// written on the line, else its `.default`, else 1. The segment is
/// appended after those read before.
pub proof fn lemma_element_fields(s: DeckState, toks: Seq<Seq<char>>, line: int)
    requires
        on_element(s, toks, line).1 is None,
    ensures
        ({
            let segs = on_element(s, toks, line).0.segments;
            let fs = toks.skip(3);
            let d = s.defaults;
            let ids = s.names.ids;
            let al = s.names.aliases;
            let seg = segs.last();
            &&& segs.len() == s.segments.len() + 1
            &&& segs.take(s.segments.len() as int) == s.segments
            &&& seg.a == resolve(al, crate::inp::id_of(ids, toks[1]).unwrap())
            &&& seg.b == resolve(al, crate::inp::id_of(ids, toks[2]).unwrap())
            &&& seg.w == match written(fs, "w"@, line) {
                Some(r) => r,
                None => d.w.unwrap(),
            }
            &&& seg.h == match written(fs, "h"@, line) {
                Some(r) => r,
                None => d.h.unwrap(),
            }
            &&& seg.sigma == match written(fs, "sigma"@, line) {
                Some(r) => r,
                None => d.sigma.unwrap(),
            }
            &&& seg.sub.nw == match written(fs, "nwinc"@, line) {
                Some(r) => count_written(r),
                None => match d.nwinc {
                    Some(v) => v,
                    None => 1,
                },
            }
            &&& seg.sub.nh == match written(fs, "nhinc"@, line) {
                Some(r) => count_written(r),
                None => match d.nhinc {
                    Some(v) => v,
                    None => 1,
                },
            }
        }),
{
    let d = s.defaults;
    let init = SegFieldsView { w: d.w, h: d.h, sigma: d.sigma, nwinc: d.nwinc, nhinc: d.nhinc };
    lemma_seg_fields_written(init, toks.skip(3), line);
    let segs = on_element(s, toks, line).0.segments;
    assert(segs.take(s.segments.len() as int) =~= s.segments);
}

/// The field names of `.default`, node, `.freq` and element lines are
/// different words.
proof fn lemma_field_keys_distinct()
    ensures
        "x"@ != "y"@,
        "x"@ != "z"@,
        "y"@ != "z"@,
        forall|k: Seq<char>| (k == "x"@ || k == "y"@ || k == "z"@ || k == "w"@ || k == "h"@ || k == "sigma"@) ==> !is_count_key(k),
        "x"@ != "w"@ && "x"@ != "h"@ && "x"@ != "sigma"@ && "x"@ != "nwinc"@ && "x"@ != "nhinc"@,
        "y"@ != "w"@ && "y"@ != "h"@ && "y"@ != "sigma"@ && "y"@ != "nwinc"@ && "y"@ != "nhinc"@,
        "z"@ != "w"@ && "z"@ != "h"@ && "z"@ != "sigma"@ && "z"@ != "nwinc"@ && "z"@ != "nhinc"@,
        "fmin"@ != "fmax"@,
        "fmin"@ != "ndec"@,
        "fmax"@ != "ndec"@,
{
    lemma_seg_keys_distinct();
    reveal_strlit("x");
    reveal_strlit("y");
    reveal_strlit("z");
    reveal_strlit("w");
    reveal_strlit("h");
    reveal_strlit("sigma");
    reveal_strlit("nwinc");
    reveal_strlit("nhinc");
    reveal_strlit("fmin");
    reveal_strlit("fmax");
    reveal_strlit("ndec");
    assert("x"@[0] != "y"@[0] && "x"@[0] != "z"@[0] && "y"@[0] != "z"@[0]);
    assert("x"@[0] != "w"@[0] && "x"@[0] != "h"@[0]);
    assert("y"@[0] != "w"@[0] && "y"@[0] != "h"@[0]);
    assert("z"@[0] != "w"@[0] && "z"@[0] != "h"@[0]);
    assert("fmin"@[2] != "fmax"@[2]);
    assert("fmin"@[0] != "ndec"@[0] && "fmax"@[0] != "ndec"@[0]);
}

/// Reading the fields of a `.default` line leaves each default at the
/// value last written for it on the line, or where it was.
proof fn lemma_default_fields_written(d: DefaultsView, toks: Seq<Seq<char>>, line: int)
    requires
        default_fields(d, toks, line).1 is Ok,
    ensures
        ({
            let g = default_fields(d, toks, line).1->Ok_0;
            &&& g.x == match written(toks, "x"@, line) { Some(r) => Some(r), None => d.x }
            &&& g.y == match written(toks, "y"@, line) { Some(r) => Some(r), None => d.y }
            &&& g.z == match written(toks, "z"@, line) { Some(r) => Some(r), None => d.z }
            &&& g.w == match written(toks, "w"@, line) { Some(r) => Some(r), None => d.w }
            &&& g.h == match written(toks, "h"@, line) { Some(r) => Some(r), None => d.h }
            &&& g.sigma == match written(toks, "sigma"@, line) { Some(r) => Some(r), None => d.sigma }
            &&& g.nwinc == match written(toks, "nwinc"@, line) {
                Some(r) => Some(count_written(r)),
                None => d.nwinc,
            }
            &&& g.nhinc == match written(toks, "nhinc"@, line) {
                Some(r) => Some(count_written(r)),
                None => d.nhinc,
            }
        }),
    decreases toks.len(),
{
    lemma_field_keys_distinct();
    lemma_seg_keys_distinct();
    if toks.len() > 0 {
        let (key, raw) = field_outcome(toks[0], line)->Ok_0;
        let v = value_outcome(key, raw, line).1->Ok_0;
        let d2 = set_default(d, key, v, line)->Ok_0;
        lemma_default_fields_written(d2, toks.drop_first(), line);
        if is_count_key(key) {
            assert(v == FieldValue::Count(count_outcome(raw, key, line)->Ok_0));
        } else {
            assert(v == FieldValue::Text(raw));
        }
    }
}

/// `.default <field>=<value> …` sets each field named on the line to the
/// value last written for it there, and leaves the others as they were.
pub proof fn lemma_default_sets(s: DeckState, toks: Seq<Seq<char>>, line: int)
    requires
        on_default(s, toks, line).1 is None,
    ensures
        ({
            let d = s.defaults;
            let g = on_default(s, toks, line).0.defaults;
            let fs = toks.drop_first();
            &&& g.x == match written(fs, "x"@, line) { Some(r) => Some(r), None => d.x }
            &&& g.y == match written(fs, "y"@, line) { Some(r) => Some(r), None => d.y }
            &&& g.z == match written(fs, "z"@, line) { Some(r) => Some(r), None => d.z }
            &&& g.w == match written(fs, "w"@, line) { Some(r) => Some(r), None => d.w }
            &&& g.h == match written(fs, "h"@, line) { Some(r) => Some(r), None => d.h }
            &&& g.sigma == match written(fs, "sigma"@, line) { Some(r) => Some(r), None => d.sigma }
            &&& g.nwinc == match written(fs, "nwinc"@, line) {
                Some(r) => Some(count_written(r)),
                None => d.nwinc,
            }
            &&& g.nhinc == match written(fs, "nhinc"@, line) {
                Some(r) => Some(count_written(r)),
                None => d.nhinc,
            }
        }),
{
    lemma_default_fields_written(s.defaults, toks.drop_first(), line);
}

/// Reading the fields of a node line leaves each coordinate at the value
/// last written for it on the line, or where it started.
proof fn lemma_node_fields_written(c: CoordsView, toks: Seq<Seq<char>>, line: int)
    requires
        node_fields(c, toks, line).1 is Ok,
    ensures
        ({
            let g = node_fields(c, toks, line).1->Ok_0;
            &&& g.0 == match written(toks, "x"@, line) { Some(r) => Some(r), None => c.0 }
            &&& g.1 == match written(toks, "y"@, line) { Some(r) => Some(r), None => c.1 }
            &&& g.2 == match written(toks, "z"@, line) { Some(r) => Some(r), None => c.2 }
        }),
    decreases toks.len(),
{
    lemma_field_keys_distinct();
    if toks.len() > 0 {
        let (key, raw) = field_outcome(toks[0], line)->Ok_0;
        let v = value_outcome(key, raw, line).1->Ok_0;
        let c2 = set_coord(c, key, v, line)->Ok_0;
        lemma_node_fields_written(c2, toks.drop_first(), line);
        assert(v == FieldValue::Text(raw));
    }
}

/// A node line `N<name> <field>=<value> …` defines a new name, for the
/// next slot, at the coordinates last written for `x`, `y` and `z` on the
/// line, each else its `.default`.
pub proof fn lemma_node_coordinates(s: DeckState, toks: Seq<Seq<char>>, line: int)
    requires
        on_node(s, toks, line).1 is None,
    ensures
        ({
            let s2 = on_node(s, toks, line).0;
            let fs = toks.drop_first();
            let d = s.defaults;
            &&& crate::inp::id_of(s.names.ids, toks[0]) is None
            &&& s2.names.ids == s.names.ids.push((toks[0], s.positions.len() as usize))
            &&& s2.names.aliases == s.names.aliases
            &&& s2.positions.len() == s.positions.len() + 1
            &&& s2.positions.take(s.positions.len() as int) == s.positions
            &&& s2.positions.last().0 == match written(fs, "x"@, line) { Some(r) => r, None => d.x.unwrap() }
            &&& s2.positions.last().1 == match written(fs, "y"@, line) { Some(r) => r, None => d.y.unwrap() }
            &&& s2.positions.last().2 == match written(fs, "z"@, line) { Some(r) => r, None => d.z.unwrap() }
        }),
{
    lemma_node_fields_written((s.defaults.x, s.defaults.y, s.defaults.z), toks.drop_first(), line);
    let s2 = on_node(s, toks, line).0;
    assert(s2.positions.take(s.positions.len() as int) =~= s.positions);
}

/// Reading the fields of a `.freq` line leaves each at the value last
/// written for it on the line, or where it started.
proof fn lemma_freq_fields_written(q: FreqView, toks: Seq<Seq<char>>, line: int)
    requires
        freq_fields(q, toks, line).1 is Ok,
    ensures
        ({
            let g = freq_fields(q, toks, line).1->Ok_0;
            &&& g.0 == match written(toks, "fmin"@, line) { Some(r) => Some(r), None => q.0 }
            &&& g.1 == match written(toks, "fmax"@, line) { Some(r) => Some(r), None => q.1 }
            &&& g.2 == match written(toks, "ndec"@, line) {
                Some(r) => Some(count_written(r)),
                None => q.2,
            }
        }),
    decreases toks.len(),
{
    lemma_field_keys_distinct();
    if toks.len() > 0 {
        let (key, raw) = field_outcome(toks[0], line)->Ok_0;
        if key == "fmin"@ {
            lemma_freq_fields_written((Some(raw), q.1, q.2), toks.drop_first(), line);
        } else if key == "fmax"@ {
            lemma_freq_fields_written((q.0, Some(raw), q.2), toks.drop_first(), line);
        } else {
            let n = count_outcome(raw, "ndec"@, line)->Ok_0;
            lemma_freq_fields_written((q.0, q.1, Some(n)), toks.drop_first(), line);
        }
    }
}

/// `.freq fmin=<a> fmax=<b> ndec=<n>` records the sweep from `a` to `b`
/// with `n` points per decade, as last written on the line.
pub proof fn lemma_freq_sweep(s: DeckState, toks: Seq<Seq<char>>, line: int)
    requires
        on_freq(s, toks, line).1 is None,
    ensures
        ({
            let fs = toks.drop_first();
            &&& written(fs, "fmin"@, line) is Some
            &&& written(fs, "fmax"@, line) is Some
            &&& written(fs, "ndec"@, line) is Some
            &&& on_freq(s, toks, line).0.sweep == Some(
                SweepView {
                    line,
                    fmin: written(fs, "fmin"@, line).unwrap(),
                    fmax: written(fs, "fmax"@, line).unwrap(),
                    ndec: count_written(written(fs, "ndec"@, line).unwrap()),
                },
            )
        }),
{
    lemma_freq_fields_written((None, None, None), toks.drop_first(), line);
}

/// `.equiv A B` joins the node `B` stands for into the node `A` stands
/// for: every slot that stood for `B`'s node now stands for `A`'s, and
/// every other slot stands for what it did.
pub proof fn lemma_equiv_joins(s: DeckState, toks: Seq<Seq<char>>, line: int)
    requires
        aliases_flat(s.names.aliases),
        on_equiv(s, toks, line).1 is None,
    ensures
        ({
            let ids = s.names.ids;
            let al = s.names.aliases;
            let a = resolve(al, crate::inp::id_of(ids, toks[1]).unwrap());
            let b = resolve(al, crate::inp::id_of(ids, toks[2]).unwrap());
            let s2 = on_equiv(s, toks, line).0;
            &&& a != b
            &&& s2.names.ids == ids
            &&& forall|t: usize| #[trigger] resolve(s2.names.aliases, t) == if resolve(al, t) == b {
                a
            } else {
                resolve(al, t)
            }
        }),
{
    let ids = s.names.ids;
    let al = s.names.aliases;
    let a = resolve(al, crate::inp::id_of(ids, toks[1]).unwrap());
    let b = resolve(al, crate::inp::id_of(ids, toks[2]).unwrap());
    let retargeted = al.map_values(|e: (usize, usize)| (e.0, if e.1 == b { a } else { e.1 }));
    lemma_retarget(al, retargeted, b, a);
    lemma_resolve_is_root(al, crate::inp::id_of(ids, toks[2]).unwrap());
    let al2 = with_alias(al, b, a);
    assert(al2 == retargeted.push((b, a)));
    assert(al2.drop_last() =~= retargeted);
    assert forall|t: usize| #[trigger] resolve(al2, t) == if resolve(al, t) == b { a } else { resolve(al, t) } by {
        assert(alias_of(al2, t) == match alias_of(retargeted, t) {
            Some(x) => Some(x),
            None => if t == b { Some(a) } else { None },
        });
    }
}

/// A finished deck keeps what was read, in order: its title, unit and
/// sweep; each segment between the live nodes its ends stand for, with its
/// dimensions, conductivity and subdivision as read; each port from the
/// live node its positive slot stands for to the one its negative slot
/// stands for, under its name. A live node's index counts the live slots
/// before it.
pub proof fn lemma_finish_keeps(s: DeckState, last_line: int)
    requires
        finish(s, last_line) is Ok,
    ensures
        ({
            let o = finish(s, last_line)->Ok_0;
            let al = s.names.aliases;
            &&& s.ended
            &&& o.title == s.title
            &&& Some(o.unit) == s.unit
            &&& Some(o.sweep) == s.sweep
            &&& o.segments.len() == s.segments.len()
            &&& forall|i: int|
                0 <= i < s.segments.len() ==> {
                    let r = #[trigger] s.segments[i];
                    &&& o.segments[i].a == live_before(al, resolve(al, r.a) as int)
                    &&& o.segments[i].b == live_before(al, resolve(al, r.b) as int)
                    &&& o.segments[i].w == r.w
                    &&& o.segments[i].h == r.h
                    &&& o.segments[i].sigma == r.sigma
                    &&& o.segments[i].sub == r.sub
                }
            &&& o.ports.len() == s.ports.len()
            &&& forall|i: int|
                0 <= i < s.ports.len() ==> {
                    let p = #[trigger] s.ports[i];
                    o.ports[i] == (
                        live_before(al, resolve(al, p.positive) as int) as int,
                        live_before(al, resolve(al, p.negative) as int) as int,
                        Some(p.name),
                    )
                }
        }),
{
}

} // verus!
