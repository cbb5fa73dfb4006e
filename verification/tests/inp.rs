use fasterhenry::inp::{
    err, outline, parse_count, parse_field, Check, DeckOutline, LengthUnit, Names, ParseError,
};
use fasterhenry::Subdivision;

/// Reads a deck that must have no error of its own, and whose numbers are
/// all finite.
fn outline_ok(text: &str) -> (Vec<Check>, DeckOutline) {
    let (checks, result) = outline(text);
    let deck = result.unwrap_or_else(|error| panic!("line {}: {}", error.line, error.message));
    for check in &checks {
        if let Check::Number { text, line } = check {
            let value: f64 = text.parse().unwrap_or_else(|_| panic!("line {line}: '{text}'"));
            assert!(value.is_finite());
        }
    }
    (checks, deck)
}

/// Reads a deck that must stop with an error of its own.
fn outline_err(text: &str) -> ParseError {
    match outline(text).1 {
        Ok(_) => panic!("the deck was accepted"),
        Err(error) => error,
    }
}

#[test]
fn minimal_deck_parses() {
    let (checks, deck) = outline_ok(
        "\
.title minimal
.units m
n1 x=0 y=0 z=0
n2 x=1e-3 y=0 z=0
e1 n1 n2 w=1e-3 h=1e-4 sigma=5.8e7
.external n1 n2
.freq fmin=1e3 fmax=1e6 ndec=10
.end
",
    );
    assert_eq!(deck.title.as_deref(), Some("minimal"));
    assert_eq!(deck.unit, LengthUnit::Metre);
    assert_eq!(deck.nodes.len(), 2);
    assert_eq!(deck.segments.len(), 1);
    assert_eq!(deck.ports.len(), 1);
    assert_eq!(deck.ports[0].name.as_deref(), Some("n1/n2"));
    assert_eq!(deck.sweep.fmin, "1e3");
    assert_eq!(deck.sweep.fmax, "1e6");
    assert_eq!(deck.sweep.ndec, 10);
    assert_eq!(deck.sweep.line, 7);
    assert_eq!(deck.segments[0].subdivision, Subdivision::new(1, 1));
    // Six coordinates, three segment numbers, two frequencies, one sweep.
    assert_eq!(checks.len(), 12);
    assert_eq!(
        checks[11],
        Check::Sweep {
            line: 7,
            fmin: "1e3".to_owned(),
            fmax: "1e6".to_owned(),
            ndec: 10
        }
    );
}

#[test]
fn units_scale_lengths_and_conductivity() {
    let (_, deck) = outline_ok(
        "\
.units um
n1 x=0 y=0 z=0
n2 x=1000 y=0 z=0
e1 n1 n2 w=100 h=10 sigma=1.0
.external n1 n2
.freq fmin=1 fmax=1 ndec=1
.end
",
    );
    assert_eq!(deck.unit, LengthUnit::Micrometre);
    assert_eq!(deck.nodes[1].x, "1000");
    assert_eq!(deck.segments[0].w, "100");
    assert_eq!(deck.segments[0].sigma, "1.0");
}

#[test]
fn copper_in_mm_units() {
    let (_, deck) = outline_ok(
        "\
.units mm
.default z=0 sigma=5.8e4
n1 x=0 y=0
n2 x=10 y=0
e1 n1 n2 w=0.2 h=0.035
.external n1 n2
.freq fmin=1e6 fmax=1e6 ndec=1
.end
",
    );
    assert_eq!(deck.unit, LengthUnit::Millimetre);
    assert_eq!(deck.segments[0].sigma, "5.8e4");
    assert_eq!(deck.nodes[0].z, "0");
}

#[test]
fn defaults_and_continuation_lines() {
    let (_, deck) = outline_ok(
        "\
.units mm
* comment line
.default z=0 w=0.1 h=0.01 sigma=5.8e4 nhinc=2
n1 x=0 y=0
n2 x=10 y=0
e1 n1 n2 nwinc=3
+ sigma=1.0
.external n1 n2
.freq fmin=1e6 fmax=1e6 ndec=1
.end
",
    );
    assert_eq!(deck.segments[0].w, "0.1");
    assert_eq!(deck.segments[0].sigma, "1.0");
    assert_eq!(deck.segments[0].subdivision, Subdivision::new(3, 2));
}

#[test]
fn equiv_compacts_the_aliased_node_away() {
    let (_, deck) = outline_ok(
        "\
.units m
n1 x=0 y=0 z=0
n1b x=5 y=5 z=5
n2 x=1e-3 y=0 z=0
e1 n1b n2 w=1e-3 h=1e-3 sigma=1.0
.equiv n1 n1b
e2 n1b n2 w=1e-3 h=1e-3 sigma=1.0
.external n1 n2
.freq fmin=1 fmax=1 ndec=1
.end
",
    );
    // The aliased node disappears; every reference, declared before or
    // after .equiv, resolves to the canonical node n1 at the origin.
    assert_eq!(deck.nodes.len(), 2);
    assert_eq!(deck.segments[0].a.0, 0);
    assert_eq!(deck.segments[1].a.0, 0);
    assert_eq!(deck.nodes[0].x, "0");
    assert_eq!(deck.segments[0].b.0, 1);
    assert_eq!(deck.nodes[1].x, "1e-3");
}

#[test]
fn external_accepts_a_port_name() {
    let (_, deck) = outline_ok(
        "\
.units m
n1 x=0 y=0 z=0
n2 x=1 y=0 z=0
e1 n1 n2 w=1 h=1 sigma=1.0
.external n1 n2 trace
.freq fmin=1 fmax=1 ndec=1
.end
",
    );
    assert_eq!(deck.ports[0].name.as_deref(), Some("trace"));
}

#[test]
fn dc_single_frequency() {
    let (_, deck) = outline_ok(
        "\
.units m
n1 x=0 y=0 z=0
n2 x=1 y=0 z=0
e1 n1 n2 w=1 h=1 sigma=1.0
.external n1 n2
.freq fmin=0 fmax=0 ndec=1
.end
",
    );
    assert_eq!(deck.sweep.fmin, "0");
    assert_eq!(deck.sweep.fmax, "0");
}

#[test]
fn g_ground_plane_rejected_with_line_number() {
    let error = outline_err(
        "\
.units m
n1 x=0 y=0 z=0
n2 x=1 y=0 z=0
e1 n1 n2 w=1 h=1 sigma=1.0
G1 x=0 y=0 z=0
.external n1 n2
.freq fmin=1 fmax=1 ndec=1
.end
",
    );
    assert_eq!(error.line, 5);
    assert!(error.message.contains("ground plane"));
}

#[test]
fn missing_units_missing_end_and_unknown_directive() {
    let error = outline_err("n1 x=0 y=0 z=0\n.end\n");
    assert!(error.message.contains(".units"));
    let valid_prefix = "\
.units m
n1 x=0 y=0 z=0
n2 x=1 y=0 z=0
e1 n1 n2 w=1 h=1 sigma=1
.external n1 n2
.freq fmin=1 fmax=1 ndec=1
";
    let error = outline_err(valid_prefix);
    assert!(error.message.contains(".end"));
    assert_eq!(error.line, 6);
    let error = outline_err(".units m\n.cparams tol=1e-3\n.end\n");
    assert_eq!(error.line, 2);
    assert!(error.message.contains("M0 subset"));
}

#[test]
fn rho_gets_a_conversion_hint() {
    let error = outline_err(
        "\
.units m
n1 x=0 y=0 z=0
n2 x=1 y=0 z=0
e1 n1 n2 w=1 h=1 rho=1.7e-8
.external n1 n2
.freq fmin=1 fmax=1 ndec=1
.end
",
    );
    assert_eq!(error.line, 4);
    assert!(error.message.contains("sigma = 1/rho"));
}

#[test]
fn line_numbers_count_comments_and_blanks() {
    let error = outline_err(
        "\
* leading comment

.units m
n1 x=0 y=0 z=0
n2 x=1 y=0 z=0
e1 n1 n9 w=1 h=1 sigma=1
.external n1 n2
.freq fmin=1 fmax=1 ndec=1
.end
",
    );
    assert_eq!(error.line, 6);
    assert!(error.message.contains("n9"));
}

#[test]
fn missing_field_names_the_segment_and_the_field() {
    let error = outline_err(
        "\
.units m
n1 x=0 y=0 z=0
n2 x=1 y=0 z=0
e1 n1 n2 h=1 sigma=1
.external n1 n2
.freq fmin=1 fmax=1 ndec=1
.end
",
    );
    assert_eq!(error.line, 4);
    assert!(error.message.contains("'e1'"));
    assert!(error.message.contains("width"));
}

#[test]
fn unset_node_coordinate_points_at_the_default() {
    let error = outline_err(
        "\
.units m
n1 x=0
n2 x=1 y=0 z=0
e1 n1 n2 w=1 h=1 sigma=1
.external n1 n2
.freq fmin=1 fmax=1 ndec=1
.end
",
    );
    assert_eq!(error.line, 2);
    assert!(error.message.contains(".default"));
}

#[test]
fn freq_validation() {
    let template = "\
.units m
n1 x=0 y=0 z=0
n2 x=1 y=0 z=0
e1 n1 n2 w=1 h=1 sigma=1
.external n1 n2
.freq {SWEEP}
.end
";
    // Sweeps whose numbers are checked by the caller: the check of line 6
    // is recorded.
    for sweep in [
        "fmin=1e6 fmax=1e3 ndec=10",
        "fmin=0 fmax=1e6 ndec=10",
        "fmin=-1 fmax=1e6 ndec=10",
    ] {
        let (checks, result) = outline(&template.replace("{SWEEP}", sweep));
        assert!(result.is_ok());
        assert!(checks
            .iter()
            .any(|check| matches!(check, Check::Sweep { line: 6, .. })));
    }
    let error = outline_err(&template.replace("{SWEEP}", "fmin=1 fmax=1e6"));
    assert_eq!(error.line, 6);
}

#[test]
fn external_needs_known_nodes() {
    let error = outline_err(
        "\
.units m
n1 x=0 y=0 z=0
n2 x=1 y=0 z=0
e1 n1 n2 w=1 h=1 sigma=1
.external n1 n7
.freq fmin=1 fmax=1 ndec=1
.end
",
    );
    assert_eq!(error.line, 5);
    assert!(error.message.contains("n7"));
}

#[test]
fn case_insensitive_directives_and_field_keys() {
    let (_, deck) = outline_ok(
        "\
.UNITS m
n1 X=0 Y=0 Z=0
n2 x=1 y=0 z=0
e1 n1 n2 W=1 H=1 SIGMA=1
.External n1 n2
.FREQ FMIN=1 FMAX=1 NDEC=1
.END
",
    );
    assert_eq!(deck.segments.len(), 1);
    assert_eq!(deck.ports.len(), 1);
}

#[test]
fn fields_split_at_the_first_equals_sign() {
    assert_eq!(
        parse_field("SIGMA=5.8e7", 3),
        Ok(("sigma".to_owned(), "5.8e7".to_owned()))
    );
    assert_eq!(parse_field("a=b=c", 1), Ok(("a".to_owned(), "b=c".to_owned())));
    assert_eq!(
        parse_field("w", 4),
        Err(err(
            4,
            "expected <field>=<value>, got 'w' (supported: x, y, z, w, h, nwinc, nhinc, sigma)"
        ))
    );
    assert_eq!(parse_field("=1", 2), Err(err(2, "empty side of '=1'")));
    assert_eq!(parse_field("w=", 2), Err(err(2, "empty side of 'w='")));
}

#[test]
fn counts_are_whole_numbers_of_at_least_one() {
    assert_eq!(parse_count("3", "nwinc", 1), Ok(3));
    assert_eq!(parse_count("+12", "ndec", 1), Ok(12));
    assert_eq!(
        parse_count("0", "nwinc", 7),
        Err(err(7, "nwinc must be ≥ 1, got 0"))
    );
    assert_eq!(
        parse_count("2.5", "nhinc", 2),
        Err(err(2, "'2.5' is not a valid nhinc (a whole number ≥ 1)"))
    );
    assert!(parse_count("-1", "ndec", 1).is_err());
    assert!(parse_count("", "ndec", 1).is_err());
    assert!(parse_count("+", "ndec", 1).is_err());
    assert!(parse_count("99999999999999999999999", "ndec", 1).is_err());
}

#[test]
fn names_resolve_aliases_and_compact_slots() {
    let mut names = Names::new();
    assert_eq!(names.define("n0", 0, 1), Ok(()));
    assert_eq!(names.define("n1", 1, 2), Ok(()));
    assert_eq!(names.define("n2", 2, 3), Ok(()));
    assert_eq!(
        names.define("n1", 3, 4),
        Err(err(4, "duplicate node name 'n1'"))
    );
    assert_eq!(names.lookup("n9", 5), Err(err(5, "unknown node 'n9'")));
    names.alias(2, 0);
    assert_eq!(names.lookup("n2", 6), Ok(0));
    names.alias(0, 1);
    // The alias of an alias follows to the end.
    assert_eq!(names.lookup("n2", 7), Ok(1));
    assert_eq!(names.lookup("n0", 7), Ok(1));
    assert_eq!(names.compaction(3), vec![None, Some(0), None]);
    assert_eq!(names.compaction(5), vec![None, Some(0), None, Some(1), Some(2)]);
}

#[test]
fn number_checks_come_in_deck_order_up_to_the_error() {
    let (checks, result) = outline(".units m\nn1 x=1 y=abc z=3 w=4\n.end\n");
    let error = result.unwrap_err();
    assert_eq!(error.line, 2);
    assert!(error.message.contains("unknown node field 'w'"));
    let texts: Vec<&str> = checks
        .iter()
        .map(|check| match check {
            Check::Number { text, .. } => text.as_str(),
            Check::Sweep { .. } => "sweep",
        })
        .collect();
    // The caller finds 'abc' before the field error.
    assert_eq!(texts, vec!["1", "abc", "3", "4"]);
}

#[test]
fn a_deck_cannot_start_with_a_continuation_or_follow_its_end() {
    let error = outline_err("+ x=1\n.units m\n");
    assert_eq!(error, err(1, "deck starts with a '+' continuation line"));
    let error = outline_err(".units m\n.end\nn1 x=0 y=0 z=0\n");
    assert_eq!(error, err(3, "content after .end"));
}

#[test]
fn deck_level_problems_report_line_zero() {
    let no_port = "\
.units m
n1 x=0 y=0 z=0
.freq fmin=1 fmax=1 ndec=1
.end
";
    assert_eq!(outline_err(no_port), err(0, "deck has no .external port"));
    let no_sweep = "\
.units m
n1 x=0 y=0 z=0
n2 x=1 y=0 z=0
.external n1 n2
.end
";
    assert_eq!(outline_err(no_sweep), err(0, "deck has no .freq sweep"));
    assert_eq!(
        outline_err("* deck without units\n.end\n"),
        err(0, "deck has no .units directive (units are mandatory: .units um|mm|cm|m|mil)")
    );
}

#[test]
fn equiv_of_a_node_with_itself_is_an_error() {
    let error = outline_err(".units m\nn1 x=0 y=0 z=0\nn2 x=1 y=0 z=0\n.equiv n1 n2\n.equiv n2 n1\n");
    assert_eq!(error, err(5, ".equiv of node 'n2' with itself"));
}

#[test]
fn unknown_units_and_duplicates_are_errors() {
    assert_eq!(
        outline_err(".units furlong\n"),
        err(1, "unknown length unit 'furlong' (supported: um, mm, cm, m, mil)")
    );
    assert_eq!(
        outline_err(".units m\n.units mm\n"),
        err(2, "duplicate .units directive")
    );
    assert_eq!(
        outline_err(".units MM\n"),
        err(1, "unknown length unit 'MM' (supported: um, mm, cm, m, mil)")
    );
}

#[test]
fn words_split_at_any_white_space() {
    let (_, deck) = outline_ok(
        ".units\tm\r\nn1\tx=0 \u{a0}y=0\u{2003}z=0\r\nn2 x=1 y=0 z=0\n\
         e1 n1 n2 w=1 h=1 sigma=1\n.external n1 n2\n.freq fmin=1 fmax=1 ndec=1\n.end",
    );
    assert_eq!(deck.nodes.len(), 2);
    assert_eq!(deck.nodes[0].y, "0");
    assert_eq!(deck.nodes[0].z, "0");
}
