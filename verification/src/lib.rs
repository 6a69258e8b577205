//! Parser for a small text language describing colored 2D polygon meshes.
//!
//! An input file holds one shape per line: at least three `x, y` points,
//! each closed by `;`, then `.` and an `RRGGBB` or `RRGGBBAA` hex color.
//! Lines may also be blank or `#` comments, and a shape may carry a
//! trailing comment. `Mesh::parse` reads a whole file's text and returns
//! either the ordered list of shapes or a structured error; input is never
//! partially consumed in silence.

use vstd::prelude::*;

pub mod laws;
pub mod parse;

verus! {

/// The kind of a parse failure.
#[derive(Clone, Copy, Debug, PartialEq, Eq, Structural)]
pub enum ParseErrorKind {
    /// No floating-point literal where one is required.
    InvalidNumber,
    /// Fewer than two hex digits where a color byte is required.
    InvalidHex,
    /// A point's separating comma is missing.
    ExpectedComma,
    /// Fewer than three points before a shape's closing clause.
    IncompleteShape,
    /// A point list is present but the `.`-plus-color clause is absent or malformed.
    MissingColor,
    /// Input remains after line-by-line parsing can make no further progress.
    TrailingInput,
}

impl ParseErrorKind {
    /// A short human-readable description of this error kind; a caller
    /// renders it together with the failure's position.
    pub fn message(&self) -> (r: &'static str)
        ensures
            self is InvalidNumber ==> r@ == "expected a number"@,
            self is InvalidHex ==> r@ == "expected two hex digits"@,
            self is ExpectedComma ==> r@ == "expected a comma between coordinates"@,
            self is IncompleteShape ==> r@ == "a shape needs at least 3 points"@,
            self is MissingColor ==> r@ == "expected '.' and a color after the points"@,
            self is TrailingInput ==> r@ == "input left over after the last parsable line"@,
    {
        match self {
            ParseErrorKind::InvalidNumber => "expected a number",
            ParseErrorKind::InvalidHex => "expected two hex digits",
            ParseErrorKind::ExpectedComma => "expected a comma between coordinates",
            ParseErrorKind::IncompleteShape => "a shape needs at least 3 points",
            ParseErrorKind::MissingColor => "expected '.' and a color after the points",
            ParseErrorKind::TrailingInput => "input left over after the last parsable line",
        }
    }
}

/// A parse failure: its kind, and the character position at which the
/// unconsumed remainder starts.
#[derive(Clone, Copy, Debug, PartialEq, Eq, Structural)]
pub struct ParseError {
    pub kind: ParseErrorKind,
    pub pos: usize,
}

/// A Point is a point in 2D space, `(x, y)`: positive x goes right,
/// positive y goes down.
///
/// Each coordinate is kept as the exact floating-point literal consumed
/// from the source text, so the parsed value carries no rounding of its
/// own; a consumer turns the literal into its numeric type of choice.
#[derive(Debug, PartialEq, Eq)]
pub struct Point {
    /// The x coordinate, as the literal consumed from the input.
    pub x: String,
    /// The y coordinate, as the literal consumed from the input.
    pub y: String,
}

/// A Color is an RGBA color, `(R, G, B, A)`, one byte per channel.
pub type Color = (u8, u8, u8, u8);

/// A Shape is one colored polygon: an ordered list of at least three
/// points and exactly one color.
#[derive(Debug, PartialEq, Eq)]
pub struct Shape {
    /// The points that constitute this Shape, in source order.
    pub points: Vec<Point>,
    /// The color of this Shape.
    pub color: Color,
}

/// A Mesh is a bunch of Shapes, in the order their lines appear in the
/// source text.
#[derive(Debug, PartialEq, Eq)]
pub struct Mesh {
    pub shapes: Vec<Shape>,
}

/// The three-way outcome of classifying one physical line: a comment, a
/// blank line, or a line that defines a shape.
#[derive(Debug, PartialEq, Eq)]
pub enum LineOutcome {
    /// The line is a `#` comment; no shape is produced.
    Comment,
    /// The line carries no shape content; no shape is produced.
    Blank,
    /// The line defines this shape.
    ShapeLine(Shape),
}

/// The mathematical value of a [`LineOutcome`].
pub enum LineView {
    Comment,
    Blank,
    ShapeLine(ShapeV),
}

impl View for LineOutcome {
    type V = LineView;

    open spec fn view(&self) -> LineView {
        match self {
            LineOutcome::Comment => LineView::Comment,
            LineOutcome::Blank => LineView::Blank,
            LineOutcome::ShapeLine(sh) => LineView::ShapeLine(sh@),
        }
    }
}

/// The mathematical value of a [`Point`]: the two coordinate literals.
pub type PointV = (Seq<char>, Seq<char>);

/// The mathematical value of a [`Shape`]: its point values and its color.
pub type ShapeV = (Seq<PointV>, Color);

impl View for Point {
    type V = PointV;

    open spec fn view(&self) -> PointV {
        (self.x@, self.y@)
    }
}

/// The values of a sequence of points.
pub open spec fn points_view(pts: Seq<Point>) -> Seq<PointV> {
    pts.map_values(|p: Point| p@)
}

/// The values of a sequence of shapes.
pub open spec fn shapes_view(shs: Seq<Shape>) -> Seq<ShapeV> {
    shs.map_values(|sh: Shape| sh@)
}

impl View for Shape {
    type V = ShapeV;

    open spec fn view(&self) -> ShapeV {
        (points_view(self.points@), self.color)
    }
}

impl View for Mesh {
    type V = Seq<ShapeV>;

    open spec fn view(&self) -> Seq<ShapeV> {
        shapes_view(self.shapes@)
    }
}

impl Mesh {
    /// Parse the given text and create a Mesh from it.
    ///
    /// The classifier of [`parse::line`] is applied to line after line;
    /// every shape is kept, in order, and comments and blank lines are
    /// discarded. The Mesh is returned only when the entire input has
    /// been accounted for as comments, blanks, or shapes; otherwise the
    /// parse fails with the first failure's kind and position, and no
    /// partial Mesh is ever produced.
    pub fn parse(input: &str) -> (r: Result<Mesh, ParseError>)
        ensures
            match parse::spec_mesh(input@, 0) {
                Ok(shs) => r matches Ok(m) && m@ == shs,
                Err((k, p)) => r matches Err(e) && e.kind == k && e.pos as int == p,
            },
            r matches Ok(m) ==> forall|k: int|
                0 <= k < m.shapes@.len() ==> (#[trigger] m.shapes@[k]).points@.len() >= 3,
    {
        let n = input.unicode_len();
        let mut shapes: Vec<Shape> = Vec::new();
        let mut cur: usize = 0;
        while cur < n
            invariant
                cur <= n,
                n == input@.len(),
                (match parse::spec_mesh(input@, cur as int) {
                    Ok(rest) => parse::spec_mesh(input@, 0) == Ok::<Seq<ShapeV>, (ParseErrorKind, int)>(
                        shapes_view(shapes@) + rest,
                    ),
                    Err(e) => parse::spec_mesh(input@, 0) == Err::<Seq<ShapeV>, (ParseErrorKind, int)>(e),
                }),
            decreases n - cur,
        {
            match parse::line(input, cur) {
                Err(e) => {
                    return Err(e);
                },
                Ok((out, j)) => {
                    proof {
                        parse::lemma_line_progress(input@, cur as int);
                    }
                    match out {
                        LineOutcome::ShapeLine(sh) => {
                            proof {
                                lemma_shapes_view_push(shapes@, sh);
                                if let Ok(rest) = parse::spec_mesh(input@, j as int) {
                                    assert(shapes_view(shapes@) + (seq![sh@] + rest) =~= (
                                    shapes_view(shapes@) + seq![sh@]) + rest);
                                }
                            }
                            shapes.push(sh);
                        },
                        _ => {
                        },
                    }
                    cur = j;
                },
            }
        }
        proof {
            assert(shapes_view(shapes@) + Seq::<ShapeV>::empty() =~= shapes_view(shapes@));
            laws::lemma_mesh_shapes_well_formed(input@, 0);
            assert forall|k: int|
                0 <= k < shapes@.len() implies (#[trigger] shapes@[k]).points@.len() >= 3 by {
                assert(shapes_view(shapes@)[k] == shapes@[k]@);
                assert(shapes@[k]@.0 == points_view(shapes@[k].points@));
            }
        }
        Ok(Mesh { shapes })
    }
}

/// Appending a point appends its value.
pub proof fn lemma_points_view_push(pts: Seq<Point>, p: Point)
    ensures
        points_view(pts.push(p)) == points_view(pts) + seq![p@],
{
    let a = points_view(pts.push(p));
    let b = points_view(pts) + seq![p@];
    assert forall|q: int| 0 <= q < a.len() implies a[q] == b[q] by {
        if q < pts.len() {
            assert(pts.push(p)[q] == pts[q]);
        } else {
            assert(pts.push(p)[q] == p);
            assert(b[q] == seq![p@][0]);
        }
    }
    assert(a =~= b);
}

/// Appending a shape appends its value.
pub proof fn lemma_shapes_view_push(shs: Seq<Shape>, sh: Shape)
    ensures
        shapes_view(shs.push(sh)) == shapes_view(shs) + seq![sh@],
{
    let a = shapes_view(shs.push(sh));
    let b = shapes_view(shs) + seq![sh@];
    assert forall|q: int| 0 <= q < a.len() implies a[q] == b[q] by {
        if q < shs.len() {
            assert(shs.push(sh)[q] == shs[q]);
        } else {
            assert(shs.push(sh)[q] == sh);
            assert(b[q] == seq![sh@][0]);
        }
    }
    assert(a =~= b);
}

} // verus!
