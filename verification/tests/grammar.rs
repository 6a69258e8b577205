//! Tests of the component parsers: points, colors, shapes, lines.

use trident::{LineOutcome, ParseErrorKind, Point, Shape};

/// The numeric value of a parsed point, for comparing against expected
/// coordinates.
fn point_xy(p: &Point) -> (f32, f32) {
    (p.x.parse().unwrap(), p.y.parse().unwrap())
}

fn shape_xy(sh: &Shape) -> (Vec<(f32, f32)>, (u8, u8, u8, u8)) {
    (sh.points.iter().map(point_xy).collect(), sh.color)
}

#[test]
fn it_works() {
    assert_eq!(2 + 2, 4);
}

#[test]
fn parse_points() {
    let tests: Vec<(&str, Result<(f32, f32), ()>)> = vec![
        ("0, 0", Ok((0.0, 0.0))),
        ("4     ,       0.3", Ok((4.0, 0.3))),
        ("", Err(())),
    ];
    for (test, outcome) in tests {
        let raw_parsed = trident::parse::point(test, 0);
        match raw_parsed {
            Ok((p, _)) => assert_eq!(Ok(point_xy(&p)), outcome),
            Err(err) => {
                if let Ok(_) = outcome {
                    panic!("{:?}", err)
                }
            } // Else we wanted an error
        };
    }
}

#[test]
fn parse_line() {
    let tests: Vec<(&str, Option<(Vec<(f32, f32)>, (u8, u8, u8, u8))>)> = vec![
        (
            "0,0; 10, 0; 10, 10;. ff0000",
            Some((vec![(0.0, 0.0), (10.0, 0.0), (10.0, 10.0)], (0xff, 0, 0, 0xff))),
        ),
        (
            "0, 30; 10, 0; 40, 0; 50, 30; 40, 60; 10, 60;. cccc00 # This produces a slightly wonky yellow hexagon.",
            Some((
                vec![(0.0, 30.0), (10.0, 0.0), (40.0, 0.0), (50.0, 30.0), (40.0, 60.0), (10.0, 60.0)],
                (0xcc, 0xcc, 0, 0xff),
            )),
        ),
        ("# An entirely commented line", None),
        (
            "          0,0    ;     5.000000,      0.000   ; 0,                  12    ;    . abcdef33  ",
            Some((vec![(0.0, 0.0), (5.0, 0.0), (0.0, 12.0)], (0xab, 0xcd, 0xef, 0x33))),
        ),
    ];
    for (test, outcome) in tests {
        let parsed = trident::parse::line(test, 0);
        match parsed {
            Err(err) => panic!("{:?}", err),
            Ok((LineOutcome::ShapeLine(sh), _)) => assert_eq!(Some(shape_xy(&sh)), outcome),
            Ok((_, _)) => assert_eq!(None, outcome),
        }
    }
}

#[test]
fn point_with_exponent_and_sign() {
    let (p, end) = trident::parse::point("-1.5e2,+.25", 0).unwrap();
    assert_eq!(point_xy(&p), (-150.0, 0.25));
    assert_eq!(end, 11);
}

#[test]
fn point_literals_are_kept_verbatim() {
    let (p, _) = trident::parse::point("4     ,       0.3", 0).unwrap();
    assert_eq!(p.x, "4");
    assert_eq!(p.y, "0.3");
}

#[test]
fn point_missing_comma() {
    let err = trident::parse::point("1.0 2.0", 0).unwrap_err();
    assert_eq!(err.kind, ParseErrorKind::ExpectedComma);
    assert_eq!(err.pos, 4);
}

#[test]
fn point_bad_number() {
    let err = trident::parse::point("x, 2", 0).unwrap_err();
    assert_eq!(err.kind, ParseErrorKind::InvalidNumber);
    assert_eq!(err.pos, 0);
}

#[test]
fn color_without_alpha_defaults_to_opaque() {
    let (c, end) = trident::parse::color("ff0000", 0).unwrap();
    assert_eq!(c, (255, 0, 0, 255));
    assert_eq!(end, 6);
}

#[test]
fn color_with_alpha() {
    let (c, end) = trident::parse::color("abcdef33", 0).unwrap();
    assert_eq!(c, (171, 205, 239, 51));
    assert_eq!(end, 8);
}

#[test]
fn color_with_five_hex_digits_fails() {
    let err = trident::parse::color("abcde Z", 0).unwrap_err();
    assert_eq!(err.kind, ParseErrorKind::InvalidHex);
    assert_eq!(err.pos, 4);
}

#[test]
fn color_with_seven_hex_digits_fails() {
    // a dangling seventh digit fails the optional alpha read rather than
    // being left behind
    let err = trident::parse::color("abcdef3 Z", 0).unwrap_err();
    assert_eq!(err.kind, ParseErrorKind::InvalidHex);
    assert_eq!(err.pos, 6);
}

#[test]
fn color_empty_fails() {
    let err = trident::parse::color("", 0).unwrap_err();
    assert_eq!(err.kind, ParseErrorKind::InvalidHex);
    assert_eq!(err.pos, 0);
}

#[test]
fn shape_with_two_points_is_incomplete() {
    let err = trident::parse::shape("0, 0; 1, 1;. ff0000", 0).unwrap_err();
    assert_eq!(err.kind, ParseErrorKind::IncompleteShape);
}

#[test]
fn shape_with_three_points_is_accepted() {
    let (sh, _) = trident::parse::shape("0, 0; 1, 1; 2, 2;. ff0000", 0).unwrap();
    assert_eq!(
        shape_xy(&sh),
        (vec![(0.0, 0.0), (1.0, 1.0), (2.0, 2.0)], (255, 0, 0, 255))
    );
}

#[test]
fn shape_without_color_clause() {
    let err = trident::parse::shape("0, 0; 1, 1; 2, 2;", 0).unwrap_err();
    assert_eq!(err.kind, ParseErrorKind::MissingColor);
}

#[test]
fn shape_with_malformed_color() {
    let err = trident::parse::shape("0, 0; 1, 1; 2, 2;. zz0000", 0).unwrap_err();
    assert_eq!(err.kind, ParseErrorKind::MissingColor);
}

#[test]
fn blank_line_needs_a_newline() {
    let err = trident::parse::line("   ", 0).unwrap_err();
    assert_eq!(err.kind, ParseErrorKind::TrailingInput);
    assert_eq!(err.pos, 0);

    let (out, end) = trident::parse::line("   \n", 0).unwrap();
    assert_eq!(out, LineOutcome::Blank);
    assert_eq!(end, 4);
}

#[test]
fn comment_line_accepts_end_of_input_for_newline() {
    let (out, end) = trident::parse::line("# no newline after this", 0).unwrap();
    assert_eq!(out, LineOutcome::Comment);
    assert_eq!(end, 23);
}
