//! Tests of the whole-input entry point, `Mesh::parse`.

use trident::{Mesh, ParseErrorKind, Point, Shape};

fn point_xy(p: &Point) -> (f32, f32) {
    (p.x.parse().unwrap(), p.y.parse().unwrap())
}

fn shape_xy(sh: &Shape) -> (Vec<(f32, f32)>, (u8, u8, u8, u8)) {
    (sh.points.iter().map(point_xy).collect(), sh.color)
}

#[test]
fn one_red_triangle() {
    let mesh = Mesh::parse("0, 0; 100, 0; 0, 70;. ff0000\n").unwrap();
    assert_eq!(mesh.shapes.len(), 1);
    assert_eq!(
        shape_xy(&mesh.shapes[0]),
        (vec![(0.0, 0.0), (100.0, 0.0), (0.0, 70.0)], (255, 0, 0, 255))
    );
}

#[test]
fn two_shapes_in_order() {
    let mesh = Mesh::parse("0,0; 10, 0; 10, 10;. ff0000\n100, 0; 100, 70; 0, 100;. 000000\n")
        .unwrap();
    assert_eq!(mesh.shapes.len(), 2);
    assert_eq!(
        shape_xy(&mesh.shapes[0]),
        (vec![(0.0, 0.0), (10.0, 0.0), (10.0, 10.0)], (255, 0, 0, 255))
    );
    assert_eq!(
        shape_xy(&mesh.shapes[1]),
        (vec![(100.0, 0.0), (100.0, 70.0), (0.0, 100.0)], (0, 0, 0, 255))
    );
}

#[test]
fn hexagon_with_trailing_comment() {
    let mesh = Mesh::parse("0, 30; 10, 0; 40, 0; 50, 30; 40, 60; 10, 60;. cccc00 # comment\n")
        .unwrap();
    assert_eq!(mesh.shapes.len(), 1);
    assert_eq!(
        shape_xy(&mesh.shapes[0]),
        (
            vec![(0.0, 30.0), (10.0, 0.0), (40.0, 0.0), (50.0, 30.0), (40.0, 60.0), (10.0, 60.0)],
            (204, 204, 0, 255)
        )
    );
}

#[test]
fn a_single_comment_is_an_empty_mesh() {
    let mesh = Mesh::parse("# just a comment\n").unwrap();
    assert_eq!(mesh.shapes.len(), 0);
}

#[test]
fn garbage_is_a_structured_error() {
    let err = Mesh::parse("garbage").unwrap_err();
    assert_eq!(err.kind, ParseErrorKind::TrailingInput);
    assert_eq!(err.pos, 0);
}

#[test]
fn errors_read_as_text() {
    let err = Mesh::parse("garbage").unwrap_err();
    assert_eq!(err.kind.message(), "input left over after the last parsable line");
}

#[test]
fn empty_input_is_an_empty_mesh() {
    let mesh = Mesh::parse("").unwrap();
    assert_eq!(mesh.shapes.len(), 0);
}

#[test]
fn comments_and_blank_lines_only() {
    let mesh = Mesh::parse("# first\n\n   \n\t\n# last\n").unwrap();
    assert_eq!(mesh.shapes.len(), 0);
}

#[test]
fn final_comment_may_miss_its_newline() {
    let mesh = Mesh::parse("# just a comment").unwrap();
    assert_eq!(mesh.shapes.len(), 0);
}

#[test]
fn final_blank_line_requires_its_newline() {
    // unlike a comment or a shape, a trailing blank line must be closed
    // by an explicit newline
    let err = Mesh::parse("# fine so far\n   ").unwrap_err();
    assert_eq!(err.kind, ParseErrorKind::TrailingInput);
    assert_eq!(err.pos, 14);
}

#[test]
fn final_shape_may_miss_its_newline() {
    let mesh = Mesh::parse("0, 0; 1, 0; 0, 1;. 00ff00").unwrap();
    assert_eq!(mesh.shapes.len(), 1);
    assert_eq!(
        shape_xy(&mesh.shapes[0]),
        (vec![(0.0, 0.0), (1.0, 0.0), (0.0, 1.0)], (0, 255, 0, 255))
    );
}

#[test]
fn junk_after_a_shape_fails_the_parse() {
    let err = Mesh::parse("0, 0; 1, 0; 0, 1;. 00ff00 junk\n").unwrap_err();
    assert_eq!(err.kind, ParseErrorKind::TrailingInput);
    assert_eq!(err.pos, 26);
}

#[test]
fn a_malformed_line_fails_the_whole_parse() {
    // the valid first line is not returned on its own
    let err = Mesh::parse("0, 0; 1, 0; 0, 1;. 00ff00\n0, 0; 1, 1;. ff0000\n").unwrap_err();
    assert_eq!(err.kind, ParseErrorKind::TrailingInput);
    assert_eq!(err.pos, 26);
}

#[test]
fn shapes_keep_their_points_in_source_order() {
    let mesh = Mesh::parse("5, 6; 3, 4; 1, 2; 9, 9;. 010203ff\n").unwrap();
    assert_eq!(
        shape_xy(&mesh.shapes[0]),
        (vec![(5.0, 6.0), (3.0, 4.0), (1.0, 2.0), (9.0, 9.0)], (1, 2, 3, 255))
    );
}
