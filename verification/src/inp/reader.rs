//! The reader that carries out the state machine of [`super::deck`].

use vstd::prelude::*;

use crate::inp::deck::{
    checks_view, count_of, default_fields, freq_fields, joined, lookup_outcome, node_fields,
    on_default, on_element, on_end, on_equiv, on_external, on_freq, on_node, on_title, on_units,
    seg_fields, set_coord, set_default, set_seg_field, text_of, unit_named, value_outcome, Check,
    CheckView, CoordsView, DeckOutline, DeckState, DefaultsView, FieldValue, FreqView, LengthUnit,
    NodeText, Outcome, PortRec, SegFieldsView, SegRec, SegmentText, SweepText, SweepView,
    final_index, initial_state, live_positions, outline_of, run, OutlineView,
};
use crate::geometry::NodeId;
use crate::mesh::Port;
use crate::inp::lines::{lines_view, logical_lines, words_view, Line, LineView};
use crate::inp::{
    alias_of, aliases_flat, count_outcome, err, fault, field_outcome, id_of, live_before,
    parse_count, parse_field, resolve, Fault, Names, NamesView, ParseError,
};
use crate::text::{chars_of, lower, segment, spells, string_of};
use crate::Subdivision;

verus! {

/// Field defaults, as written.
struct Defaults {
    x: Option<Vec<char>>,
    y: Option<Vec<char>>,
    z: Option<Vec<char>>,
    w: Option<Vec<char>>,
    h: Option<Vec<char>>,
    sigma: Option<Vec<char>>,
    nwinc: Option<usize>,
    nhinc: Option<usize>,
}

/// The text of an optional text.
pub open spec fn text_opt(o: Option<Vec<char>>) -> Option<Seq<char>> {
    match o {
        Some(v) => Some(v@),
        None => None,
    }
}

spec fn defaults_view(d: Defaults) -> DefaultsView {
    DefaultsView {
        x: text_opt(d.x),
        y: text_opt(d.y),
        z: text_opt(d.z),
        w: text_opt(d.w),
        h: text_opt(d.h),
        sigma: text_opt(d.sigma),
        nwinc: d.nwinc,
        nhinc: d.nhinc,
    }
}

/// A value as read.
enum Value {
    Text(Vec<char>),
    Count(usize),
}

spec fn value_view(v: Value) -> FieldValue {
    match v {
        Value::Text(t) => FieldValue::Text(t@),
        Value::Count(c) => FieldValue::Count(c),
    }
}

/// An optional clone of a text.
fn clone_opt(o: &Option<Vec<char>>) -> (r: Option<Vec<char>>)
    ensures
        text_opt(r) == text_opt(*o),
{
    match o {
        Some(v) => Some(v.clone()),
        None => None,
    }
}

/// A copy of a text.
fn copy_text(v: &Vec<char>) -> (r: Vec<char>)
    ensures
        r@ == v@,
{
    let r = v.clone();
    proof {
        assert(r@ =~= v@);
    }
    r
}

/// Splits a `<field>=<value>` token.
fn read_field(token: &Vec<char>, line: usize) -> (r: Result<(Vec<char>, Vec<char>), ParseError>)
    ensures
        match r {
            Ok((k, v)) => field_outcome(token@, line as int) == Ok::<(Seq<char>, Seq<char>), Fault>((k@, v@)),
            Err(e) => field_outcome(token@, line as int) == Err::<(Seq<char>, Seq<char>), Fault>(e@),
        },
{
    let s = string_of(token.as_slice());
    match parse_field(s.as_str(), line) {
        Ok((k, v)) => Ok((chars_of(k.as_str()), chars_of(v.as_str()))),
        Err(e) => Err(e),
    }
}

/// Reads a count of `what`.
fn read_count(raw: &Vec<char>, what: &Vec<char>, line: usize) -> (r: Result<usize, ParseError>)
    ensures
        match r {
            Ok(v) => count_outcome(raw@, what@, line as int) == Ok::<usize, Fault>(v),
            Err(e) => count_outcome(raw@, what@, line as int) == Err::<usize, Fault>(e@),
        },
{
    let t = string_of(raw.as_slice());
    let w = string_of(what.as_slice());
    parse_count(t.as_str(), w.as_str(), line)
}

/// Records the check of a number.
fn push_number(checks: &mut Vec<Check>, raw: &Vec<char>, line: usize)
    ensures
        checks_view(final(checks)@) == checks_view(old(checks)@) + seq![CheckView::Number { line: line as int, text: raw@ }],
{
    let ghost before = checks@;
    checks.push(Check::Number { line, text: string_of(raw.as_slice()) });
    proof {
        assert(checks_view(checks@) =~= checks_view(before) + seq![CheckView::Number { line: line as int, text: raw@ }]);
    }
}

/// Reads the value of `key`, recording the check of a number.
fn read_value(key: &Vec<char>, raw: &Vec<char>, line: usize, checks: &mut Vec<Check>) -> (r: Result<Value, ParseError>)
    ensures
        checks_view(final(checks)@) == checks_view(old(checks)@) + value_outcome(key@, raw@, line as int).0,
        match r {
            Ok(v) => value_outcome(key@, raw@, line as int).1 == Ok::<FieldValue, Fault>(value_view(v)),
            Err(e) => value_outcome(key@, raw@, line as int).1 == Err::<FieldValue, Fault>(e@),
        },
{
    if spells(key.as_slice(), "nwinc") || spells(key.as_slice(), "nhinc") {
        proof {
            assert(checks_view(checks@) + Seq::<CheckView>::empty() =~= checks_view(checks@));
        }
        match read_count(raw, key, line) {
            Ok(c) => Ok(Value::Count(c)),
            Err(e) => Err(e),
        }
    } else {
        push_number(checks, raw, line);
        Ok(Value::Text(copy_text(raw)))
    }
}

/// The error on `line` with `message`, as a fault.
fn fail(line: usize, message: &str) -> (e: ParseError)
    ensures
        e@ == fault(line as int, message@),
{
    err(line, message)
}

/// The error whose message is `a`, the word `b`, then `c`.
fn fail3(line: usize, a: &str, b: &Vec<char>, c: &str) -> (e: ParseError)
    ensures
        e@ == fault(line as int, a@ + b@ + c@),
{
    ParseError { line, message: crate::text::joined3(a, b.as_slice(), c) }
}

/// Sets one default field.
fn set_default_exec(d: &mut Defaults, key: &Vec<char>, v: Value, line: usize) -> (r: Result<(), ParseError>)
    ensures
        match r {
            Ok(()) => set_default(defaults_view(*old(d)), key@, value_view(v), line as int) == Ok::<DefaultsView, Fault>(defaults_view(*final(d))),
            Err(e) => set_default(defaults_view(*old(d)), key@, value_view(v), line as int) == Err::<DefaultsView, Fault>(e@),
        },
{
    let k = key.as_slice();
    if spells(k, "x") {
        d.x = Some(text_value(v));
    } else if spells(k, "y") {
        d.y = Some(text_value(v));
    } else if spells(k, "z") {
        d.z = Some(text_value(v));
    } else if spells(k, "w") {
        d.w = Some(text_value(v));
    } else if spells(k, "h") {
        d.h = Some(text_value(v));
    } else if spells(k, "nwinc") {
        d.nwinc = Some(count_value(v));
    } else if spells(k, "nhinc") {
        d.nhinc = Some(count_value(v));
    } else if spells(k, "sigma") {
        d.sigma = Some(text_value(v));
    } else if spells(k, "rho") {
        return Err(fail(line, "'rho' (resistivity) is not accepted; this engine takes conductivity: sigma = 1/rho (per deck unit)"));
    } else {
        return Err(fail3(line, "unknown field '", key, "' (supported: x, y, z, w, h, nwinc, nhinc, sigma)"));
    }
    Ok(())
}

/// The text of a number value.
fn text_value(v: Value) -> (r: Vec<char>)
    ensures
        r@ == text_of(value_view(v)),
{
    match v {
        Value::Text(t) => t,
        Value::Count(_) => Vec::new(),
    }
}

/// The count of a count value.
fn count_value(v: Value) -> (r: usize)
    ensures
        r == count_of(value_view(v)),
{
    match v {
        Value::Text(_) => 0,
        Value::Count(c) => c,
    }
}

/// The fields of a `.default` line, from token `from` on.
fn default_fields_exec(
    d: &mut Defaults,
    toks: &Vec<Vec<char>>,
    from: usize,
    line: usize,
    checks: &mut Vec<Check>,
) -> (r: Option<ParseError>)
    requires
        from <= toks@.len(),
    ensures
        checks_view(final(checks)@) == checks_view(old(checks)@) + default_fields(
            defaults_view(*old(d)),
            words_view(toks@).skip(from as int),
            line as int,
        ).0,
        match r {
            None => default_fields(defaults_view(*old(d)), words_view(toks@).skip(from as int), line as int).1
                == Ok::<DefaultsView, Fault>(defaults_view(*final(d))),
            Some(e) => default_fields(defaults_view(*old(d)), words_view(toks@).skip(from as int), line as int).1
                == Err::<DefaultsView, Fault>(e@),
        },
{
    let ghost wv = words_view(toks@);
    let ghost total = default_fields(defaults_view(*d), wv.skip(from as int), line as int);
    let ghost c0 = checks_view(checks@);
    let mut i = from;
    while i < toks.len()
        invariant
            from <= i <= toks@.len(),
            wv == words_view(toks@),
            total == default_fields(defaults_view(*old(d)), wv.skip(from as int), line as int),
            c0 == checks_view(old(checks)@),
            total.0 == checks_view(checks@).skip(c0.len() as int) + default_fields(defaults_view(*d), wv.skip(i as int), line as int).0,
            total.1 == default_fields(defaults_view(*d), wv.skip(i as int), line as int).1,
            checks_view(checks@).len() >= c0.len(),
            checks_view(checks@).take(c0.len() as int) == c0,
        decreases toks@.len() - i,
    {
        let ghost rest = wv.skip(i as int);
        let ghost dv = defaults_view(*d);
        let ghost cb = checks_view(checks@);
        proof {
            assert(rest[0] == toks@[i as int]@);
            assert(rest.drop_first() =~= wv.skip(i as int + 1));
        }
        let (key, raw) = match read_field(&toks[i], line) {
            Ok(kv) => kv,
            Err(e) => {
                proof {
                    assert(field_outcome(rest[0], line as int) == Err::<(Seq<char>, Seq<char>), Fault>(e@));
                    assert(default_fields(dv, rest, line as int) == (Seq::<CheckView>::empty(), Err::<DefaultsView, Fault>(e@)));
                    assert(checks_view(checks@).skip(c0.len() as int) + Seq::<CheckView>::empty() =~= checks_view(checks@).skip(c0.len() as int));
                    assert(checks_view(checks@) =~= c0 + checks_view(checks@).skip(c0.len() as int));
                }
                return Some(e);
            },
        };
        let v = match read_value(&key, &raw, line, checks) {
            Ok(v) => v,
            Err(e) => {
                proof {
                    assert(checks_view(checks@) =~= c0 + total.0);
                }
                return Some(e);
            },
        };
        match set_default_exec(d, &key, v, line) {
            Ok(()) => {},
            Err(e) => {
                proof {
                    assert(checks_view(checks@) =~= c0 + total.0);
                }
                return Some(e);
            },
        }
        proof {
            let c1 = value_outcome(key@, raw@, line as int).0;
            assert(checks_view(checks@) =~= cb + c1);
            assert(checks_view(checks@).skip(c0.len() as int) =~= cb.skip(c0.len() as int) + c1);
        }
        i = i + 1;
    }
    proof {
        assert(wv.skip(i as int) =~= Seq::<Seq<char>>::empty());
        assert(checks_view(checks@) =~= c0 + total.0);
    }
    None
}


/// Coordinates of a node, as written.
type Coords = (Option<Vec<char>>, Option<Vec<char>>, Option<Vec<char>>);

spec fn coords_view(c: Coords) -> CoordsView {
    (text_opt(c.0), text_opt(c.1), text_opt(c.2))
}

/// Sets one coordinate.
fn set_coord_exec(c: &mut Coords, key: &Vec<char>, v: Value, line: usize) -> (r: Result<(), ParseError>)
    ensures
        match r {
            Ok(()) => set_coord(coords_view(*old(c)), key@, value_view(v), line as int) == Ok::<CoordsView, Fault>(coords_view(*final(c))),
            Err(e) => set_coord(coords_view(*old(c)), key@, value_view(v), line as int) == Err::<CoordsView, Fault>(e@),
        },
{
    let k = key.as_slice();
    if spells(k, "x") {
        c.0 = Some(text_value(v));
    } else if spells(k, "y") {
        c.1 = Some(text_value(v));
    } else if spells(k, "z") {
        c.2 = Some(text_value(v));
    } else {
        return Err(fail3(line, "unknown node field '", key, "' (supported: x, y, z)"));
    }
    Ok(())
}

/// The fields of a node line, from token `from` on.
fn node_fields_exec(
    c: &mut Coords,
    toks: &Vec<Vec<char>>,
    from: usize,
    line: usize,
    checks: &mut Vec<Check>,
) -> (r: Option<ParseError>)
    requires
        from <= toks@.len(),
    ensures
        checks_view(final(checks)@) == checks_view(old(checks)@) + node_fields(
            coords_view(*old(c)),
            words_view(toks@).skip(from as int),
            line as int,
        ).0,
        match r {
            None => node_fields(coords_view(*old(c)), words_view(toks@).skip(from as int), line as int).1
                == Ok::<CoordsView, Fault>(coords_view(*final(c))),
            Some(e) => node_fields(coords_view(*old(c)), words_view(toks@).skip(from as int), line as int).1
                == Err::<CoordsView, Fault>(e@),
        },
{
    let ghost wv = words_view(toks@);
    let ghost total = node_fields(coords_view(*c), wv.skip(from as int), line as int);
    let ghost c0 = checks_view(checks@);
    let mut i = from;
    while i < toks.len()
        invariant
            from <= i <= toks@.len(),
            wv == words_view(toks@),
            total == node_fields(coords_view(*old(c)), wv.skip(from as int), line as int),
            c0 == checks_view(old(checks)@),
            total.0 == checks_view(checks@).skip(c0.len() as int) + node_fields(coords_view(*c), wv.skip(i as int), line as int).0,
            total.1 == node_fields(coords_view(*c), wv.skip(i as int), line as int).1,
            checks_view(checks@).len() >= c0.len(),
            checks_view(checks@).take(c0.len() as int) == c0,
        decreases toks@.len() - i,
    {
        let ghost rest = wv.skip(i as int);
        let ghost cv = coords_view(*c);
        let ghost cb = checks_view(checks@);
        proof {
            assert(rest[0] == toks@[i as int]@);
            assert(rest.drop_first() =~= wv.skip(i as int + 1));
        }
        let (key, raw) = match read_field(&toks[i], line) {
            Ok(kv) => kv,
            Err(e) => {
                proof {
                    assert(node_fields(cv, rest, line as int) == (Seq::<CheckView>::empty(), Err::<CoordsView, Fault>(e@)));
                    assert(checks_view(checks@) =~= c0 + total.0);
                }
                return Some(e);
            },
        };
        let v = match read_value(&key, &raw, line, checks) {
            Ok(v) => v,
            Err(e) => {
                proof {
                    assert(checks_view(checks@) =~= c0 + total.0);
                }
                return Some(e);
            },
        };
        match set_coord_exec(c, &key, v, line) {
            Ok(()) => {},
            Err(e) => {
                proof {
                    assert(checks_view(checks@) =~= c0 + total.0);
                }
                return Some(e);
            },
        }
        proof {
            let c1 = value_outcome(key@, raw@, line as int).0;
            assert(checks_view(checks@) =~= cb + c1);
            assert(checks_view(checks@).skip(c0.len() as int) =~= cb.skip(c0.len() as int) + c1);
        }
        i = i + 1;
    }
    proof {
        assert(wv.skip(i as int) =~= Seq::<Seq<char>>::empty());
        assert(checks_view(checks@) =~= c0 + total.0);
    }
    None
}

/// Fields of a segment, as written.
struct SegFields {
    w: Option<Vec<char>>,
    h: Option<Vec<char>>,
    sigma: Option<Vec<char>>,
    nwinc: Option<usize>,
    nhinc: Option<usize>,
}

spec fn seg_view(f: SegFields) -> SegFieldsView {
    SegFieldsView { w: text_opt(f.w), h: text_opt(f.h), sigma: text_opt(f.sigma), nwinc: f.nwinc, nhinc: f.nhinc }
}

/// Sets one field of a segment.
fn set_seg_exec(f: &mut SegFields, key: &Vec<char>, v: Value, line: usize) -> (r: Result<(), ParseError>)
    ensures
        match r {
            Ok(()) => set_seg_field(seg_view(*old(f)), key@, value_view(v), line as int) == Ok::<SegFieldsView, Fault>(seg_view(*final(f))),
            Err(e) => set_seg_field(seg_view(*old(f)), key@, value_view(v), line as int) == Err::<SegFieldsView, Fault>(e@),
        },
{
    let k = key.as_slice();
    if spells(k, "w") {
        f.w = Some(text_value(v));
    } else if spells(k, "h") {
        f.h = Some(text_value(v));
    } else if spells(k, "nwinc") {
        f.nwinc = Some(count_value(v));
    } else if spells(k, "nhinc") {
        f.nhinc = Some(count_value(v));
    } else if spells(k, "sigma") {
        f.sigma = Some(text_value(v));
    } else if spells(k, "x") || spells(k, "y") || spells(k, "z") {
        return Err(fail3(line, "'", key, "' is a node field, not a segment field"));
    } else if spells(k, "rho") {
        return Err(fail(line, "'rho' (resistivity) is not accepted; this engine takes conductivity: sigma = 1/rho (per deck unit)"));
    } else {
        return Err(fail3(line, "unknown field '", key, "' (supported: w, h, nwinc, nhinc, sigma)"));
    }
    Ok(())
}

/// The fields of an element line, from token `from` on.
fn seg_fields_exec(
    f: &mut SegFields,
    toks: &Vec<Vec<char>>,
    from: usize,
    line: usize,
    checks: &mut Vec<Check>,
) -> (r: Option<ParseError>)
    requires
        from <= toks@.len(),
    ensures
        checks_view(final(checks)@) == checks_view(old(checks)@) + seg_fields(
            seg_view(*old(f)),
            words_view(toks@).skip(from as int),
            line as int,
        ).0,
        match r {
            None => seg_fields(seg_view(*old(f)), words_view(toks@).skip(from as int), line as int).1
                == Ok::<SegFieldsView, Fault>(seg_view(*final(f))),
            Some(e) => seg_fields(seg_view(*old(f)), words_view(toks@).skip(from as int), line as int).1
                == Err::<SegFieldsView, Fault>(e@),
        },
{
    let ghost wv = words_view(toks@);
    let ghost total = seg_fields(seg_view(*f), wv.skip(from as int), line as int);
    let ghost c0 = checks_view(checks@);
    let mut i = from;
    while i < toks.len()
        invariant
            from <= i <= toks@.len(),
            wv == words_view(toks@),
            total == seg_fields(seg_view(*old(f)), wv.skip(from as int), line as int),
            c0 == checks_view(old(checks)@),
            total.0 == checks_view(checks@).skip(c0.len() as int) + seg_fields(seg_view(*f), wv.skip(i as int), line as int).0,
            total.1 == seg_fields(seg_view(*f), wv.skip(i as int), line as int).1,
            checks_view(checks@).len() >= c0.len(),
            checks_view(checks@).take(c0.len() as int) == c0,
        decreases toks@.len() - i,
    {
        let ghost rest = wv.skip(i as int);
        let ghost fv = seg_view(*f);
        let ghost cb = checks_view(checks@);
        proof {
            assert(rest[0] == toks@[i as int]@);
            assert(rest.drop_first() =~= wv.skip(i as int + 1));
        }
        let (key, raw) = match read_field(&toks[i], line) {
            Ok(kv) => kv,
            Err(e) => {
                proof {
                    assert(seg_fields(fv, rest, line as int) == (Seq::<CheckView>::empty(), Err::<SegFieldsView, Fault>(e@)));
                    assert(checks_view(checks@) =~= c0 + total.0);
                }
                return Some(e);
            },
        };
        let v = match read_value(&key, &raw, line, checks) {
            Ok(v) => v,
            Err(e) => {
                proof {
                    assert(checks_view(checks@) =~= c0 + total.0);
                }
                return Some(e);
            },
        };
        match set_seg_exec(f, &key, v, line) {
            Ok(()) => {},
            Err(e) => {
                proof {
                    assert(checks_view(checks@) =~= c0 + total.0);
                }
                return Some(e);
            },
        }
        proof {
            let c1 = value_outcome(key@, raw@, line as int).0;
            assert(checks_view(checks@) =~= cb + c1);
            assert(checks_view(checks@).skip(c0.len() as int) =~= cb.skip(c0.len() as int) + c1);
        }
        i = i + 1;
    }
    proof {
        assert(wv.skip(i as int) =~= Seq::<Seq<char>>::empty());
        assert(checks_view(checks@) =~= c0 + total.0);
    }
    None
}

/// Fields of a `.freq` line, as written.
type Freq = (Option<Vec<char>>, Option<Vec<char>>, Option<usize>);

spec fn freq_view(q: Freq) -> FreqView {
    (text_opt(q.0), text_opt(q.1), q.2)
}

/// The fields of a `.freq` line, from token `from` on.
fn freq_fields_exec(
    q: &mut Freq,
    toks: &Vec<Vec<char>>,
    from: usize,
    line: usize,
    checks: &mut Vec<Check>,
) -> (r: Option<ParseError>)
    requires
        from <= toks@.len(),
    ensures
        checks_view(final(checks)@) == checks_view(old(checks)@) + freq_fields(
            freq_view(*old(q)),
            words_view(toks@).skip(from as int),
            line as int,
        ).0,
        match r {
            None => freq_fields(freq_view(*old(q)), words_view(toks@).skip(from as int), line as int).1
                == Ok::<FreqView, Fault>(freq_view(*final(q))),
            Some(e) => freq_fields(freq_view(*old(q)), words_view(toks@).skip(from as int), line as int).1
                == Err::<FreqView, Fault>(e@),
        },
{
    let ghost wv = words_view(toks@);
    let ghost total = freq_fields(freq_view(*q), wv.skip(from as int), line as int);
    let ghost c0 = checks_view(checks@);
    let mut i = from;
    while i < toks.len()
        invariant
            from <= i <= toks@.len(),
            wv == words_view(toks@),
            total == freq_fields(freq_view(*old(q)), wv.skip(from as int), line as int),
            c0 == checks_view(old(checks)@),
            total.0 == checks_view(checks@).skip(c0.len() as int) + freq_fields(freq_view(*q), wv.skip(i as int), line as int).0,
            total.1 == freq_fields(freq_view(*q), wv.skip(i as int), line as int).1,
            checks_view(checks@).len() >= c0.len(),
            checks_view(checks@).take(c0.len() as int) == c0,
        decreases toks@.len() - i,
    {
        let ghost rest = wv.skip(i as int);
        let ghost qv = freq_view(*q);
        let ghost cb = checks_view(checks@);
        proof {
            assert(rest[0] == toks@[i as int]@);
            assert(rest.drop_first() =~= wv.skip(i as int + 1));
        }
        let (key, raw) = match read_field(&toks[i], line) {
            Ok(kv) => kv,
            Err(e) => {
                proof {
                    assert(freq_fields(qv, rest, line as int) == (Seq::<CheckView>::empty(), Err::<FreqView, Fault>(e@)));
                    assert(checks_view(checks@) =~= c0 + total.0);
                }
                return Some(e);
            },
        };
        let k = key.as_slice();
        if spells(k, "fmin") {
            push_number(checks, &raw, line);
            q.0 = Some(copy_text(&raw));
            proof {
                let c1 = seq![CheckView::Number { line: line as int, text: raw@ }];
                assert(checks_view(checks@).skip(c0.len() as int) =~= cb.skip(c0.len() as int) + c1);
            }
        } else if spells(k, "fmax") {
            push_number(checks, &raw, line);
            q.1 = Some(copy_text(&raw));
            proof {
                let c1 = seq![CheckView::Number { line: line as int, text: raw@ }];
                assert(checks_view(checks@).skip(c0.len() as int) =~= cb.skip(c0.len() as int) + c1);
            }
        } else if spells(k, "ndec") {
            let what = chars_of("ndec");
            match read_count(&raw, &what, line) {
                Ok(n) => {
                    q.2 = Some(n);
                },
                Err(e) => {
                    proof {
                        assert(checks_view(checks@).skip(c0.len() as int) + Seq::<CheckView>::empty() =~= checks_view(checks@).skip(c0.len() as int));
                        assert(checks_view(checks@) =~= c0 + total.0);
                    }
                    return Some(e);
                },
            }
            proof {
                assert(checks_view(checks@).skip(c0.len() as int) + freq_fields(freq_view(*q), wv.skip(i as int + 1), line as int).0 =~= total.0);
            }
        } else {
            let e = fail3(line, "unknown .freq field '", &key, "' (supported: fmin, fmax, ndec)");
            proof {
                assert(checks_view(checks@).skip(c0.len() as int) + Seq::<CheckView>::empty() =~= checks_view(checks@).skip(c0.len() as int));
                assert(checks_view(checks@) =~= c0 + total.0);
            }
            return Some(e);
        }
        i = i + 1;
    }
    proof {
        assert(wv.skip(i as int) =~= Seq::<Seq<char>>::empty());
        assert(checks_view(checks@) =~= c0 + total.0);
    }
    None
}


/// A segment as read.
struct SegExec {
    a: usize,
    b: usize,
    w: Vec<char>,
    h: Vec<char>,
    sigma: Vec<char>,
    sub: Subdivision,
}

/// A port as read.
struct PortExec {
    positive: usize,
    negative: usize,
    name: Vec<char>,
}

/// A sweep as read.
struct SweepExec {
    line: usize,
    fmin: Vec<char>,
    fmax: Vec<char>,
    ndec: usize,
}

/// The deck read so far.
struct Builder {
    title: Option<Vec<char>>,
    unit: Option<LengthUnit>,
    defaults: Defaults,
    names: Names,
    positions: Vec<(Vec<char>, Vec<char>, Vec<char>)>,
    segments: Vec<SegExec>,
    ports: Vec<PortExec>,
    sweep: Option<SweepExec>,
    ended: bool,
    checks: Vec<Check>,
}

spec fn positions_view(ps: Seq<(Vec<char>, Vec<char>, Vec<char>)>) -> Seq<(Seq<char>, Seq<char>, Seq<char>)> {
    ps.map_values(|p: (Vec<char>, Vec<char>, Vec<char>)| (p.0@, p.1@, p.2@))
}

spec fn segments_view(ss: Seq<SegExec>) -> Seq<SegRec> {
    ss.map_values(|r: SegExec| SegRec { a: r.a, b: r.b, w: r.w@, h: r.h@, sigma: r.sigma@, sub: r.sub })
}

spec fn ports_view(ps: Seq<PortExec>) -> Seq<PortRec> {
    ps.map_values(|p: PortExec| PortRec { positive: p.positive, negative: p.negative, name: p.name@ })
}

spec fn sweep_view(w: Option<SweepExec>) -> Option<SweepView> {
    match w {
        Some(w) => Some(SweepView { line: w.line as int, fmin: w.fmin@, fmax: w.fmax@, ndec: w.ndec }),
        None => None,
    }
}

/// The deck state a builder holds.
spec fn state(b: Builder) -> DeckState {
    DeckState {
        title: text_opt(b.title),
        unit: b.unit,
        defaults: defaults_view(b.defaults),
        names: b.names@,
        positions: positions_view(b.positions@),
        segments: segments_view(b.segments@),
        ports: ports_view(b.ports@),
        sweep: sweep_view(b.sweep),
        ended: b.ended,
        checks: checks_view(b.checks@),
    }
}

/// Every slot a name, an alias, a segment or a port refers to exists, and
/// aliases resolve in one step.
pub open spec fn slots_ok(s: DeckState) -> bool {
    let n = s.positions.len();
    &&& aliases_flat(s.names.aliases)
    &&& forall|k: int| 0 <= k < s.names.ids.len() ==> ((#[trigger] s.names.ids[k]).1 as int) < n
    &&& forall|k: int|
        0 <= k < s.names.aliases.len() ==> ((#[trigger] s.names.aliases[k]).0 as int) < n
            && (s.names.aliases[k].1 as int) < n
    &&& forall|k: int| 0 <= k < s.segments.len() ==> ((#[trigger] s.segments[k]).a as int) < n && (s.segments[k].b as int) < n
    &&& forall|k: int|
        0 <= k < s.ports.len() ==> ((#[trigger] s.ports[k]).positive as int) < n && (s.ports[k].negative as int) < n
}

/// Slot bookkeeping depends on names, positions, segments and ports only.
proof fn lemma_slots_same(a: DeckState, b: DeckState)
    requires
        slots_ok(a),
        a.names == b.names,
        a.positions.len() == b.positions.len(),
        a.segments == b.segments,
        a.ports == b.ports,
    ensures
        slots_ok(b),
{
}

/// What a handler returns, as a fault.
spec fn fault_of(r: Option<ParseError>) -> Option<Fault> {
    match r {
        Some(e) => Some(e@),
        None => None,
    }
}

/// A handler carried out transition `o`: on success the state is the new
/// one; on an error, the checks are those recorded before it.
spec fn follows(o: Outcome, after: DeckState, r: Option<Fault>) -> bool {
    match r {
        None => o.1 is None && after == o.0,
        Some(f) => o.1 == Some(f) && after.checks == o.0.checks,
    }
}

/// A looked-up node is a slot of the deck.
proof fn lemma_lookup_in_range(s: DeckState, name: Seq<char>, line: int)
    requires
        slots_ok(s),
        lookup_outcome(s.names, name, line) is Ok,
    ensures
        lookup_outcome(s.names, name, line) matches Ok(v) && (v as int) < s.positions.len() && alias_of(s.names.aliases, v) is None,
{
    let id = id_of(s.names.ids, name).unwrap();
    crate::inp::lemma_id_of_found(s.names.ids, name);
    crate::inp::lemma_resolve_is_root(s.names.aliases, id);
    if alias_of(s.names.aliases, id) is Some {
        crate::inp::lemma_alias_of_found(s.names.aliases, id);
    }
}

impl Builder {
    fn new() -> (b: Self)
        ensures
            state(b) == crate::inp::deck::initial_state(),
            slots_ok(state(b)),
    {
        let b = Builder {
            title: None,
            unit: None,
            defaults: Defaults { x: None, y: None, z: None, w: None, h: None, sigma: None, nwinc: None, nhinc: None },
            names: Names::new(),
            positions: Vec::new(),
            segments: Vec::new(),
            ports: Vec::new(),
            sweep: None,
            ended: false,
            checks: Vec::new(),
        };
        proof {
            assert(state(b).names.ids =~= Seq::<(Seq<char>, usize)>::empty());
            assert(state(b).names.aliases =~= Seq::<(usize, usize)>::empty());
            assert(state(b).positions =~= Seq::<(Seq<char>, Seq<char>, Seq<char>)>::empty());
            assert(state(b).segments =~= Seq::<SegRec>::empty());
            assert(state(b).ports =~= Seq::<PortRec>::empty());
            assert(state(b).checks =~= Seq::<CheckView>::empty());
        }
        b
    }

    /// `.title`.
    fn title(&mut self, toks: &Vec<Vec<char>>) -> (r: Option<ParseError>)
        requires
            slots_ok(state(*old(self))),
            toks@.len() >= 1,
        ensures
            slots_ok(state(*final(self))),
            follows(on_title(state(*old(self)), words_view(toks@)), state(*final(self)), fault_of(r)),
    {
        let ghost wv = words_view(toks@);
        let mut t: Vec<char> = Vec::new();
        let mut i: usize = 1;
        proof {
            assert(wv.drop_first().take(0) =~= Seq::<Seq<char>>::empty());
        }
        while i < toks.len()
            invariant
                1 <= i <= toks@.len(),
                wv == words_view(toks@),
                t@ == joined(wv.drop_first().take(i as int - 1)),
            decreases toks@.len() - i,
        {
            let ghost before = t@;
            let ghost ws = wv.drop_first().take(i as int);
            proof {
                assert(ws.drop_last() =~= wv.drop_first().take(i as int - 1));
                assert(ws.last() == toks@[i as int]@);
            }
            if i > 1 {
                t.push(' ');
                proof {
                    reveal_strlit(" ");
                }
            }
            let w = &toks[i];
            let mut j: usize = 0;
            let ghost mid = t@;
            while j < w.len()
                invariant
                    j <= w@.len(),
                    t@ == mid + w@.take(j as int),
                decreases w@.len() - j,
            {
                t.push(w[j]);
                j = j + 1;
                proof {
                    assert(w@.take(j as int) =~= w@.take(j as int - 1).push(w@[j as int - 1]));
                }
            }
            proof {
                assert(w@.take(w@.len() as int) =~= w@);
                if i > 1 {
                    assert(t@ =~= before + " "@ + w@);
                } else {
                    assert(t@ =~= w@);
                }
            }
            i = i + 1;
        }
        proof {
            assert(wv.drop_first().take(i as int - 1) =~= wv.drop_first());
        }
        let ghost before = state(*self);
        self.title = Some(t);
        proof {
            lemma_slots_same(before, state(*self));
        }
        None
    }

    /// `.units`.
    fn units(&mut self, toks: &Vec<Vec<char>>, line: usize) -> (r: Option<ParseError>)
        requires
            slots_ok(state(*old(self))),
            toks@.len() >= 1,
        ensures
            slots_ok(state(*final(self))),
            follows(on_units(state(*old(self)), words_view(toks@), line as int), state(*final(self)), fault_of(r)),
    {
        let ghost wv = words_view(toks@);
        if toks.len() != 2 {
            return Some(fail(line, "expected .units <unit>"));
        }
        if self.unit.is_some() {
            return Some(fail(line, "duplicate .units directive"));
        }
        let t = toks[1].as_slice();
        proof {
            assert(wv[1] == t@);
        }
        let u = if spells(t, "um") {
            LengthUnit::Micrometre
        } else if spells(t, "mm") {
            LengthUnit::Millimetre
        } else if spells(t, "cm") {
            LengthUnit::Centimetre
        } else if spells(t, "m") {
            LengthUnit::Metre
        } else if spells(t, "mil") {
            LengthUnit::Mil
        } else {
            return Some(fail3(line, "unknown length unit '", &toks[1], "' (supported: um, mm, cm, m, mil)"));
        };
        self.unit = Some(u);
        None
    }

    /// `.default`.
    fn default(&mut self, toks: &Vec<Vec<char>>, line: usize) -> (r: Option<ParseError>)
        requires
            slots_ok(state(*old(self))),
            toks@.len() >= 1,
        ensures
            slots_ok(state(*final(self))),
            follows(on_default(state(*old(self)), words_view(toks@), line as int), state(*final(self)), fault_of(r)),
    {
        if self.unit.is_none() {
            return Some(fail(line, ".default before .units (lengths need a unit)"));
        }
        proof {
            assert(words_view(toks@).skip(1) =~= words_view(toks@).drop_first());
        }
        let ghost before = state(*self);
        let r = default_fields_exec(&mut self.defaults, toks, 1, line, &mut self.checks);
        proof {
            lemma_slots_same(before, state(*self));
        }
        r
    }

    /// `.end`.
    fn end(&mut self, toks: &Vec<Vec<char>>, line: usize) -> (r: Option<ParseError>)
        requires
            slots_ok(state(*old(self))),
            toks@.len() >= 1,
        ensures
            slots_ok(state(*final(self))),
            follows(on_end(state(*old(self)), words_view(toks@), line as int), state(*final(self)), fault_of(r)),
    {
        if toks.len() != 1 {
            return Some(fail(line, "expected .end (no arguments)"));
        }
        let ghost before = state(*self);
        self.ended = true;
        proof {
            lemma_slots_same(before, state(*self));
        }
        None
    }
}


/// Looks a word up as a node name.
fn lookup_word(names: &Names, w: &Vec<char>, line: usize) -> (r: Result<usize, ParseError>)
    ensures
        match r {
            Ok(v) => lookup_outcome(names@, w@, line as int) == Ok::<usize, Fault>(v),
            Err(e) => lookup_outcome(names@, w@, line as int) == Err::<usize, Fault>(e@),
        },
{
    let s = string_of(w.as_slice());
    names.lookup(s.as_str(), line)
}

/// `a`, `/`, `b`.
fn slash_joined(a: &Vec<char>, b: &Vec<char>) -> (r: Vec<char>)
    ensures
        r@ == a@ + "/"@ + b@,
{
    let mut r = copy_text(a);
    r.push('/');
    let mut j: usize = 0;
    let ghost mid = r@;
    while j < b.len()
        invariant
            j <= b@.len(),
            r@ == mid + b@.take(j as int),
        decreases b@.len() - j,
    {
        r.push(b[j]);
        j = j + 1;
        proof {
            assert(b@.take(j as int) =~= b@.take(j as int - 1).push(b@[j as int - 1]));
        }
    }
    proof {
        reveal_strlit("/");
        assert(b@.take(b@.len() as int) =~= b@);
        assert(r@ =~= a@ + "/"@ + b@);
    }
    r
}

impl Builder {
    /// `.external`.
    fn external(&mut self, toks: &Vec<Vec<char>>, line: usize) -> (r: Option<ParseError>)
        requires
            slots_ok(state(*old(self))),
            toks@.len() >= 1,
        ensures
            slots_ok(state(*final(self))),
            follows(on_external(state(*old(self)), words_view(toks@), line as int), state(*final(self)), fault_of(r)),
    {
        let ghost wv = words_view(toks@);
        let ghost s0 = state(*self);
        if toks.len() != 3 && toks.len() != 4 {
            return Some(fail(line, "expected .external N<+> N<-> [name]"));
        }
        proof {
            assert(wv[1] == toks@[1]@);
            assert(wv[2] == toks@[2]@);
        }
        let positive = match lookup_word(&self.names, &toks[1], line) {
            Ok(v) => v,
            Err(e) => {
                return Some(e);
            },
        };
        let negative = match lookup_word(&self.names, &toks[2], line) {
            Ok(v) => v,
            Err(e) => {
                return Some(e);
            },
        };
        proof {
            lemma_lookup_in_range(s0, wv[1], line as int);
            lemma_lookup_in_range(s0, wv[2], line as int);
        }
        let name = if toks.len() == 4 {
            proof {
                assert(wv[3] == toks@[3]@);
            }
            copy_text(&toks[3])
        } else {
            slash_joined(&toks[1], &toks[2])
        };
        let ghost before = self.ports@;
        self.ports.push(PortExec { positive, negative, name });
        proof {
            assert(ports_view(self.ports@) =~= ports_view(before).push(PortRec { positive, negative, name: name@ }));
            let s1 = state(*self);
            assert forall|k: int| 0 <= k < s1.ports.len() implies ((#[trigger] s1.ports[k]).positive as int) < s1.positions.len()
                && (s1.ports[k].negative as int) < s1.positions.len() by {
                if k < s0.ports.len() {
                    assert(s1.ports[k] == s0.ports[k]);
                }
            }
        }
        None
    }

    /// `.freq`.
    fn freq(&mut self, toks: &Vec<Vec<char>>, line: usize) -> (r: Option<ParseError>)
        requires
            slots_ok(state(*old(self))),
            toks@.len() >= 1,
        ensures
            slots_ok(state(*final(self))),
            follows(on_freq(state(*old(self)), words_view(toks@), line as int), state(*final(self)), fault_of(r)),
    {
        let ghost s0 = state(*self);
        if toks.len() != 4 {
            return Some(fail(line, "expected .freq fmin=<v> fmax=<v> ndec=<n>"));
        }
        proof {
            assert(words_view(toks@).skip(1) =~= words_view(toks@).drop_first());
        }
        let mut q: Freq = (None, None, None);
        let found = freq_fields_exec(&mut q, toks, 1, line, &mut self.checks);
        proof {
            lemma_slots_same(s0, state(*self));
        }
        if let Some(e) = found {
            return Some(e);
        }
        match q {
            (Some(fmin), Some(fmax), Some(ndec)) => {
                let ghost cb = checks_view(self.checks@);
                self.checks.push(Check::Sweep { line, fmin: string_of(fmin.as_slice()), fmax: string_of(fmax.as_slice()), ndec });
                proof {
                    assert(checks_view(self.checks@) =~= cb + seq![CheckView::Sweep { line: line as int, fmin: fmin@, fmax: fmax@, ndec }]);
                }
                let ghost s1 = state(*self);
                self.sweep = Some(SweepExec { line, fmin, fmax, ndec });
                proof {
                    lemma_slots_same(s1, state(*self));
                }
                None
            },
            _ => Some(fail(line, ".freq needs fmin=, fmax= and ndec=")),
        }
    }

    /// `.equiv`.
    fn equiv(&mut self, toks: &Vec<Vec<char>>, line: usize) -> (r: Option<ParseError>)
        requires
            slots_ok(state(*old(self))),
            toks@.len() >= 1,
        ensures
            slots_ok(state(*final(self))),
            follows(on_equiv(state(*old(self)), words_view(toks@), line as int), state(*final(self)), fault_of(r)),
    {
        let ghost wv = words_view(toks@);
        let ghost s0 = state(*self);
        if toks.len() != 3 {
            return Some(fail(line, "expected .equiv N<a> N<b>"));
        }
        proof {
            assert(wv[1] == toks@[1]@);
            assert(wv[2] == toks@[2]@);
        }
        let a = match lookup_word(&self.names, &toks[1], line) {
            Ok(v) => v,
            Err(e) => {
                return Some(e);
            },
        };
        let b = match lookup_word(&self.names, &toks[2], line) {
            Ok(v) => v,
            Err(e) => {
                return Some(e);
            },
        };
        if a == b {
            return Some(fail3(line, ".equiv of node '", &toks[1], "' with itself"));
        }
        proof {
            lemma_lookup_in_range(s0, wv[1], line as int);
            lemma_lookup_in_range(s0, wv[2], line as int);
        }
        self.names.alias(b, a);
        proof {
            let s1 = state(*self);
            let al = s1.names.aliases;
            let a0 = s0.names.aliases;
            assert forall|k: int| 0 <= k < al.len() implies ((#[trigger] al[k]).0 as int) < s1.positions.len()
                && (al[k].1 as int) < s1.positions.len() by {
                if k < a0.len() {
                    assert(al[k].0 == a0[k].0);
                }
            }
        }
        None
    }
}


impl Builder {
    /// A node line.
    fn node(&mut self, toks: &Vec<Vec<char>>, line: usize) -> (r: Option<ParseError>)
        requires
            slots_ok(state(*old(self))),
            toks@.len() >= 1,
        ensures
            slots_ok(state(*final(self))),
            follows(on_node(state(*old(self)), words_view(toks@), line as int), state(*final(self)), fault_of(r)),
    {
        let ghost wv = words_view(toks@);
        let ghost s0 = state(*self);
        if self.unit.is_none() {
            return Some(fail(line, "node before .units (lengths need a unit)"));
        }
        proof {
            assert(words_view(toks@).skip(1) =~= words_view(toks@).drop_first());
            assert(wv[0] == toks@[0]@);
        }
        let mut c: Coords = (clone_opt(&self.defaults.x), clone_opt(&self.defaults.y), clone_opt(&self.defaults.z));
        let found = node_fields_exec(&mut c, toks, 1, line, &mut self.checks);
        proof {
            lemma_slots_same(s0, state(*self));
        }
        if let Some(e) = found {
            return Some(e);
        }
        match c {
            (Some(x), Some(y), Some(z)) => {
                let name = string_of(toks[0].as_slice());
                let slot = self.positions.len();
                let ghost s1 = state(*self);
                match self.names.define(name.as_str(), slot, line) {
                    Ok(()) => {},
                    Err(e) => {
                        return Some(e);
                    },
                }
                let ghost before = self.positions@;
                self.positions.push((x, y, z));
                proof {
                    let s2 = state(*self);
                    assert(s2.positions =~= s1.positions.push((x@, y@, z@)));
                    assert forall|k: int| 0 <= k < s2.names.ids.len() implies ((#[trigger] s2.names.ids[k]).1 as int) < s2.positions.len() by {
                        if k < s1.names.ids.len() {
                            assert(s2.names.ids[k] == s1.names.ids[k]);
                        }
                    }
                    assert(s2.segments == s1.segments);
                    assert(s2.ports == s1.ports);
                }
                None
            },
            _ => Some(
                fail3(
                    line,
                    "node '",
                    &toks[0],
                    "': a coordinate is unset and no .default covers it (set it, or .default x=… y=… z=…)",
                ),
            ),
        }
    }

    /// An element line.
    fn element(&mut self, toks: &Vec<Vec<char>>, line: usize) -> (r: Option<ParseError>)
        requires
            slots_ok(state(*old(self))),
            toks@.len() >= 1,
        ensures
            slots_ok(state(*final(self))),
            follows(on_element(state(*old(self)), words_view(toks@), line as int), state(*final(self)), fault_of(r)),
    {
        let ghost wv = words_view(toks@);
        let ghost s0 = state(*self);
        if self.unit.is_none() {
            return Some(fail(line, "element before .units (lengths need a unit)"));
        }
        if toks.len() < 3 {
            return Some(fail(line, "expected E<name> N<a> N<b> [field]=<value> …"));
        }
        proof {
            assert(wv[0] == toks@[0]@);
            assert(wv[1] == toks@[1]@);
            assert(wv[2] == toks@[2]@);
        }
        let a = match lookup_word(&self.names, &toks[1], line) {
            Ok(v) => v,
            Err(e) => {
                return Some(e);
            },
        };
        let b = match lookup_word(&self.names, &toks[2], line) {
            Ok(v) => v,
            Err(e) => {
                return Some(e);
            },
        };
        proof {
            lemma_lookup_in_range(s0, wv[1], line as int);
            lemma_lookup_in_range(s0, wv[2], line as int);
        }
        let mut f = SegFields {
            w: clone_opt(&self.defaults.w),
            h: clone_opt(&self.defaults.h),
            sigma: clone_opt(&self.defaults.sigma),
            nwinc: self.defaults.nwinc,
            nhinc: self.defaults.nhinc,
        };
        let found = seg_fields_exec(&mut f, toks, 3, line, &mut self.checks);
        proof {
            lemma_slots_same(s0, state(*self));
        }
        if let Some(e) = found {
            return Some(e);
        }
        let w = match f.w {
            Some(w) => w,
            None => {
                return Some(fail3(line, "segment '", &toks[0], "' has no width: set w= here or in .default"));
            },
        };
        let h = match f.h {
            Some(h) => h,
            None => {
                return Some(fail3(line, "segment '", &toks[0], "' has no height: set h= here or in .default"));
            },
        };
        let sigma = match f.sigma {
            Some(sigma) => sigma,
            None => {
                return Some(
                    fail3(line, "segment '", &toks[0], "' has no conductivity: set sigma= here or in .default"),
                );
            },
        };
        let nw = match f.nwinc {
            Some(v) => v,
            None => 1,
        };
        let nh = match f.nhinc {
            Some(v) => v,
            None => 1,
        };
        let ghost s1 = state(*self);
        let rec = SegExec { a, b, w, h, sigma, sub: Subdivision::new(nw, nh) };
        let ghost before = self.segments@;
        self.segments.push(rec);
        proof {
            let s2 = state(*self);
            assert(s2.segments =~= s1.segments.push(SegRec { a, b, w: rec.w@, h: rec.h@, sigma: rec.sigma@, sub: rec.sub }));
            assert forall|k: int| 0 <= k < s2.segments.len() implies ((#[trigger] s2.segments[k]).a as int) < s2.positions.len()
                && (s2.segments[k].b as int) < s2.positions.len() by {
                if k < s1.segments.len() {
                    assert(s2.segments[k] == s1.segments[k]);
                }
            }
        }
        None
    }
}


/// The node a slot stands for.
fn resolved(names: &Names, slot: usize) -> (r: usize)
    ensures
        r == resolve(names@.aliases, slot),
{
    match names.target(slot) {
        Some(t) => t,
        None => slot,
    }
}

/// Live slots before `s` are fewer than `s`.
proof fn lemma_live_before_bound(aliases: Seq<(usize, usize)>, s: int)
    ensures
        live_before(aliases, s) <= if s > 0 {
            s
        } else {
            0
        },
    decreases s,
{
    if s > 0 {
        lemma_live_before_bound(aliases, s - 1);
    }
}

/// The node a slot stands for is a live slot of the deck.
proof fn lemma_resolved_live(s: DeckState, slot: usize)
    requires
        slots_ok(s),
        (slot as int) < s.positions.len(),
    ensures
        (resolve(s.names.aliases, slot) as int) < s.positions.len(),
        alias_of(s.names.aliases, resolve(s.names.aliases, slot)) is None,
{
    crate::inp::lemma_resolve_is_root(s.names.aliases, slot);
    if alias_of(s.names.aliases, slot) is Some {
        crate::inp::lemma_alias_of_found(s.names.aliases, slot);
    }
}

impl Builder {
    /// One logical line.
    fn step(&mut self, l: &Line) -> (r: Option<ParseError>)
        requires
            slots_ok(state(*old(self))),
            l.tokens@.len() >= 1,
        ensures
            slots_ok(state(*final(self))),
            follows(crate::inp::deck::step(state(*old(self)), (l.number as int, words_view(l.tokens@))), state(*final(self)), fault_of(r)),
    {
        let line = l.number;
        let toks = &l.tokens;
        let ghost wv = words_view(toks@);
        if self.ended {
            return Some(fail(line, "content after .end"));
        }
        proof {
            assert(wv[0] == toks@[0]@);
        }
        let keyword = lower(toks[0].as_slice());
        if keyword.len() > 0 && keyword[0] == '.' {
            let directive = segment(keyword.as_slice(), 1, keyword.len());
            proof {
                assert(directive@ =~= keyword@.drop_first());
            }
            let d = directive.as_slice();
            if spells(d, "title") {
                self.title(toks)
            } else if spells(d, "units") {
                self.units(toks, line)
            } else if spells(d, "default") {
                self.default(toks, line)
            } else if spells(d, "external") {
                self.external(toks, line)
            } else if spells(d, "freq") {
                self.freq(toks, line)
            } else if spells(d, "equiv") {
                self.equiv(toks, line)
            } else if spells(d, "end") {
                self.end(toks, line)
            } else {
                Some(
                    fail3(
                        line,
                        "'.",
                        &directive,
                        "' is not in the M0 subset (ground planes ('G') and the rest of FastHenry are M1)",
                    ),
                )
            }
        } else if keyword.len() > 0 && keyword[0] == 'n' {
            self.node(toks, line)
        } else if keyword.len() > 0 && keyword[0] == 'e' {
            self.element(toks, line)
        } else if keyword.len() > 0 && keyword[0] == 'g' {
            Some(fail(line, "ground planes ('G' lines) are not supported in M0 (M1 feature)"))
        } else {
            Some(fail3(line, "unrecognized line '", &toks[0], "' (expected N…, E…, or a .directive)"))
        }
    }

    /// The deck once every line is read.
    fn finish(&self, last: usize) -> (r: Result<DeckOutline, ParseError>)
        requires
            slots_ok(state(*self)),
        ensures
            match r {
                Ok(d) => crate::inp::deck::finish(state(*self), last as int) == Ok::<OutlineView, Fault>(d@),
                Err(e) => crate::inp::deck::finish(state(*self), last as int) == Err::<OutlineView, Fault>(e@),
            },
    {
        let ghost s = state(*self);
        if !self.ended {
            return Err(fail(last, "deck has no .end directive"));
        }
        let unit = match self.unit {
            Some(u) => u,
            None => {
                return Err(fail(0, "deck has no .units directive (units are mandatory: .units um|mm|cm|m|mil)"));
            },
        };
        if self.ports.len() == 0 {
            return Err(fail(0, "deck has no .external port"));
        }
        let sweep = match &self.sweep {
            Some(w) => SweepText { line: w.line, fmin: string_of(w.fmin.as_slice()), fmax: string_of(w.fmax.as_slice()), ndec: w.ndec },
            None => {
                return Err(fail(0, "deck has no .freq sweep"));
            },
        };
        let ghost al = s.names.aliases;
        let n = self.positions.len();
        let comp = self.names.compaction(n);
        let mut nodes: Vec<NodeText> = Vec::new();
        let mut slot: usize = 0;
        while slot < n
            invariant
                slot <= n,
                n == self.positions@.len(),
                s == state(*self),
                al == s.names.aliases,
                comp@.len() == n,
                forall|t: int| 0 <= t < n ==> #[trigger] comp@[t] == crate::inp::compacted(al, t),
                nodes@.map_values(|p: NodeText| (p.x@, p.y@, p.z@)) == live_positions(s.positions, al, slot as int),
            decreases n - slot,
        {
            let ghost before = nodes@;
            if comp[slot].is_some() {
                let p = &self.positions[slot];
                nodes.push(NodeText { x: string_of(p.0.as_slice()), y: string_of(p.1.as_slice()), z: string_of(p.2.as_slice()) });
                proof {
                    assert(nodes@.map_values(|p: NodeText| (p.x@, p.y@, p.z@)) =~= before.map_values(|p: NodeText| (p.x@, p.y@, p.z@)).push(s.positions[slot as int]));
                }
            }
            slot = slot + 1;
        }
        let mut segments: Vec<SegmentText> = Vec::new();
        let mut k: usize = 0;
        while k < self.segments.len()
            invariant
                k <= self.segments@.len(),
                n == self.positions@.len(),
                s == state(*self),
                slots_ok(s),
                al == s.names.aliases,
                comp@.len() == n,
                forall|t: int| 0 <= t < n ==> #[trigger] comp@[t] == crate::inp::compacted(al, t),
                segments@.map_values(|t: SegmentText| crate::inp::deck::segment_view(t)) == s.segments.take(k as int).map_values(|r: SegRec| crate::inp::deck::SegmentOutlineView {
                    a: final_index(al, r.a),
                    b: final_index(al, r.b),
                    w: r.w,
                    h: r.h,
                    sigma: r.sigma,
                    sub: r.sub,
                }),
            decreases self.segments@.len() - k,
        {
            let r = &self.segments[k];
            proof {
                assert(s.segments[k as int].a == r.a);
                lemma_resolved_live(s, r.a);
                lemma_resolved_live(s, r.b);
                lemma_live_before_bound(al, resolve(al, r.a) as int);
                lemma_live_before_bound(al, resolve(al, r.b) as int);
            }
            let ra = resolved(&self.names, r.a);
            let rb = resolved(&self.names, r.b);
            let a = match comp[ra] {
                Some(v) => v,
                None => 0,
            };
            let b = match comp[rb] {
                Some(v) => v,
                None => 0,
            };
            let ghost before = segments@;
            let t = SegmentText {
                a: NodeId(a),
                b: NodeId(b),
                w: string_of(r.w.as_slice()),
                h: string_of(r.h.as_slice()),
                sigma: string_of(r.sigma.as_slice()),
                subdivision: r.sub,
            };
            segments.push(t);
            proof {
                assert(s.segments.take(k as int + 1) =~= s.segments.take(k as int).push(s.segments[k as int]));
                assert(segments@.map_values(|t: SegmentText| crate::inp::deck::segment_view(t)) =~= before.map_values(|t: SegmentText| crate::inp::deck::segment_view(t)).push(crate::inp::deck::segment_view(t)));
            }
            k = k + 1;
        }
        let mut ports: Vec<Port> = Vec::new();
        let mut k: usize = 0;
        while k < self.ports.len()
            invariant
                k <= self.ports@.len(),
                n == self.positions@.len(),
                s == state(*self),
                slots_ok(s),
                al == s.names.aliases,
                comp@.len() == n,
                forall|t: int| 0 <= t < n ==> #[trigger] comp@[t] == crate::inp::compacted(al, t),
                ports@.map_values(|p: Port| crate::inp::deck::port_view(p)) == s.ports.take(k as int).map_values(|p: PortRec| (final_index(al, p.positive), final_index(al, p.negative), Some(p.name))),
                forall|j: int| 0 <= j < ports@.len() ==> (#[trigger] ports@[j]).name is Some,
            decreases self.ports@.len() - k,
        {
            let p = &self.ports[k];
            proof {
                assert(s.ports[k as int].positive == p.positive);
                lemma_resolved_live(s, p.positive);
                lemma_resolved_live(s, p.negative);
                lemma_live_before_bound(al, resolve(al, p.positive) as int);
                lemma_live_before_bound(al, resolve(al, p.negative) as int);
            }
            let rp = resolved(&self.names, p.positive);
            let rn = resolved(&self.names, p.negative);
            let a = match comp[rp] {
                Some(v) => v,
                None => 0,
            };
            let b = match comp[rn] {
                Some(v) => v,
                None => 0,
            };
            let ghost before = ports@;
            let q = Port { positive: NodeId(a), negative: NodeId(b), name: Some(string_of(p.name.as_slice())) };
            ports.push(q);
            proof {
                assert(s.ports.take(k as int + 1) =~= s.ports.take(k as int).push(s.ports[k as int]));
                assert(ports@.map_values(|p: Port| crate::inp::deck::port_view(p)) =~= before.map_values(|p: Port| crate::inp::deck::port_view(p)).push(crate::inp::deck::port_view(q)));
            }
            k = k + 1;
        }
        let title = match &self.title {
            Some(t) => Some(string_of(t.as_slice())),
            None => None,
        };
        let d = DeckOutline { title, unit, nodes, segments, ports, sweep };
        proof {
            assert(s.segments.take(s.segments.len() as int) =~= s.segments);
            assert(s.ports.take(s.ports.len() as int) =~= s.ports);
        }
        Ok(d)
    }
}

/// Reads a deck: the checks its numbers need, in order, and the deck or
/// the first error it holds ahead of the checks' own.
///
/// A caller evaluates the checks in order; the first that fails is the
/// deck's error. Otherwise the result stands.
pub fn outline(text: &str) -> (r: (Vec<Check>, Result<DeckOutline, ParseError>))
    ensures
        checks_view(r.0@) == outline_of(text@).0,
        match r.1 {
            Ok(d) => outline_of(text@).1 == Ok::<OutlineView, Fault>(d@),
            Err(e) => outline_of(text@).1 == Err::<OutlineView, Fault>(e@),
        },
{
    let (last, folded) = logical_lines(text);
    let lines = match folded {
        Err(e) => {
            let none: Vec<Check> = Vec::new();
            proof {
                assert(checks_view(none@) =~= Seq::<CheckView>::empty());
            }
            return (none, Err(e));
        },
        Ok(v) => v,
    };
    let ghost lv = lines_view(lines@);
    let mut b = Builder::new();
    let mut i: usize = 0;
    proof {
        assert(lv.skip(0) =~= lv);
    }
    while i < lines.len()
        invariant
            i <= lines@.len(),
            lv == lines_view(lines@),
            crate::inp::lines::fold(crate::inp::lines::lines_of(text@)) == Ok::<Seq<LineView>, Fault>(lv),
            last == crate::inp::lines::lines_of(text@).len(),
            forall|j: int| 0 <= j < lines@.len() ==> (#[trigger] lines@[j]).tokens@.len() >= 1,
            slots_ok(state(b)),
            run(initial_state(), lv) == run(state(b), lv.skip(i as int)),
        decreases lines@.len() - i,
    {
        let ghost s = state(b);
        proof {
            assert(lv.skip(i as int)[0] == lv[i as int]);
            assert(lv.skip(i as int).drop_first() =~= lv.skip(i as int + 1));
        }
        match b.step(&lines[i]) {
            Some(e) => {
                return (b.checks, Err(e));
            },
            None => {},
        }
        i = i + 1;
    }
    proof {
        assert(lv.skip(i as int) =~= Seq::<LineView>::empty());
    }
    let result = b.finish(last);
    (b.checks, result)
}

} // verus!
