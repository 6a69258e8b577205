//! The grammar, as specification functions over the input's characters,
//! and the executable parsers proved against them.
//!
//! Every specification parser takes the whole input and a cursor position
//! and gives back the position after the consumed text together with the
//! parsed value, or the failure. The executable parsers mirror them one
//! for one.

use vstd::prelude::*;
use vstd::string::StrSliceExecFns;

verus! {

use crate::lemma_points_view_push;
use crate::points_view;
use crate::LineOutcome;
use crate::LineView;
use crate::Color;
use crate::ParseError;
use crate::ParseErrorKind;
use crate::Point;
use crate::PointV;
use crate::Shape;
use crate::ShapeV;

// ---------------------------------------------------------------------------
// Character classes
// ---------------------------------------------------------------------------

/// Inline whitespace: space or tab, never a newline.
pub open spec fn is_inline_ws(c: char) -> bool {
    c == ' ' || c == '\t'
}

/// An ASCII decimal digit.
pub open spec fn is_digit(c: char) -> bool {
    '0' as u32 <= c as u32 && c as u32 <= '9' as u32
}

/// A case-insensitive ASCII hexadecimal digit.
pub open spec fn is_hex_digit(c: char) -> bool {
    is_digit(c) || ('a' as u32 <= c as u32 && c as u32 <= 'f' as u32) || ('A' as u32 <= c as u32
        && c as u32 <= 'F' as u32)
}

/// The numeric value of a hexadecimal digit.
pub open spec fn hex_value(c: char) -> int
    recommends
        is_hex_digit(c),
{
    if is_digit(c) {
        c as u32 - '0' as u32
    } else if 'a' as u32 <= c as u32 && c as u32 <= 'f' as u32 {
        c as u32 - 'a' as u32 + 10
    } else {
        c as u32 - 'A' as u32 + 10
    }
}

// ---------------------------------------------------------------------------
// Primitive scanners, specification side
// ---------------------------------------------------------------------------

/// Position after skipping inline whitespace from `i`.
pub open spec fn spec_skip_ws(s: Seq<char>, i: int) -> int
    decreases s.len() - i,
{
    if 0 <= i && i < s.len() && is_inline_ws(s[i]) {
        spec_skip_ws(s, i + 1)
    } else {
        i
    }
}

/// Position after skipping decimal digits from `i`.
pub open spec fn spec_skip_digits(s: Seq<char>, i: int) -> int
    decreases s.len() - i,
{
    if 0 <= i && i < s.len() && is_digit(s[i]) {
        spec_skip_digits(s, i + 1)
    } else {
        i
    }
}

/// Position after an optional exponent clause at `i`: `e` or `E`, an
/// optional sign, and at least one digit. Without a full clause nothing
/// is consumed.
pub open spec fn spec_read_exp(s: Seq<char>, i: int) -> int {
    if 0 <= i && i < s.len() && (s[i] == 'e' || s[i] == 'E') {
        let j = if i + 1 < s.len() && (s[i + 1] == '+' || s[i + 1] == '-') {
            i + 2
        } else {
            i + 1
        };
        let k = spec_skip_digits(s, j);
        if k > j {
            k
        } else {
            i
        }
    } else {
        i
    }
}

/// Reads one floating-point literal at `i`: an optional sign, then either
/// digits with an optional `.` fraction, or `.` with at least one digit,
/// then an optional exponent. Gives the position after the literal, or
/// `None` if no literal starts at `i`.
pub open spec fn spec_read_float(s: Seq<char>, i: int) -> Option<int> {
    let j = if 0 <= i && i < s.len() && (s[i] == '+' || s[i] == '-') {
        i + 1
    } else {
        i
    };
    let k = spec_skip_digits(s, j);
    if k > j {
        let m = if k < s.len() && s[k] == '.' {
            spec_skip_digits(s, k + 1)
        } else {
            k
        };
        Some(spec_read_exp(s, m))
    } else if j < s.len() && s[j] == '.' && spec_skip_digits(s, j + 1) > j + 1 {
        Some(spec_read_exp(s, spec_skip_digits(s, j + 1)))
    } else {
        None
    }
}

/// Reads exactly two hexadecimal digits at `i` as one channel byte.
pub open spec fn spec_read_hex_byte(s: Seq<char>, i: int) -> Option<(u8, int)> {
    if 0 <= i && i + 2 <= s.len() && is_hex_digit(s[i]) && is_hex_digit(s[i + 1]) {
        Some(((16 * hex_value(s[i]) + hex_value(s[i + 1])) as u8, i + 2))
    } else {
        None
    }
}

// ---------------------------------------------------------------------------
// Bounds of the scanners
// ---------------------------------------------------------------------------

pub proof fn lemma_skip_ws_bounds(s: Seq<char>, i: int)
    requires
        0 <= i <= s.len(),
    ensures
        i <= spec_skip_ws(s, i) <= s.len(),
    decreases s.len() - i,
{
    if i < s.len() && is_inline_ws(s[i]) {
        lemma_skip_ws_bounds(s, i + 1);
    }
}

pub proof fn lemma_skip_digits_bounds(s: Seq<char>, i: int)
    requires
        0 <= i <= s.len(),
    ensures
        i <= spec_skip_digits(s, i) <= s.len(),
    decreases s.len() - i,
{
    if i < s.len() && is_digit(s[i]) {
        lemma_skip_digits_bounds(s, i + 1);
    }
}

pub proof fn lemma_read_exp_bounds(s: Seq<char>, i: int)
    requires
        0 <= i <= s.len(),
    ensures
        i <= spec_read_exp(s, i) <= s.len(),
{
    if i < s.len() && (s[i] == 'e' || s[i] == 'E') {
        let j = if i + 1 < s.len() && (s[i + 1] == '+' || s[i + 1] == '-') {
            i + 2
        } else {
            i + 1
        };
        lemma_skip_digits_bounds(s, j);
    }
}

pub proof fn lemma_read_float_bounds(s: Seq<char>, i: int)
    requires
        0 <= i <= s.len(),
    ensures
        spec_read_float(s, i) matches Some(end) ==> i < end <= s.len(),
{
    let j = if i < s.len() && (s[i] == '+' || s[i] == '-') {
        i + 1
    } else {
        i
    };
    lemma_skip_digits_bounds(s, j);
    let k = spec_skip_digits(s, j);
    if k > j {
        let m = if k < s.len() && s[k] == '.' {
            spec_skip_digits(s, k + 1)
        } else {
            k
        };
        if k < s.len() && s[k] == '.' {
            lemma_skip_digits_bounds(s, k + 1);
        }
        lemma_read_exp_bounds(s, m);
    } else if j < s.len() && s[j] == '.' {
        lemma_skip_digits_bounds(s, j + 1);
        lemma_read_exp_bounds(s, spec_skip_digits(s, j + 1));
    }
}

// ---------------------------------------------------------------------------
// Point and color, specification side
// ---------------------------------------------------------------------------

/// Parses a point at `i`: a float, optional inline whitespace, a comma,
/// optional inline whitespace, a float. The value is the pair of
/// coordinate literals.
pub open spec fn spec_point(s: Seq<char>, i: int) -> Result<(int, PointV), (ParseErrorKind, int)> {
    match spec_read_float(s, i) {
        None => Err((ParseErrorKind::InvalidNumber, i)),
        Some(xe) => {
            let j = spec_skip_ws(s, xe);
            if j < s.len() && s[j] == ',' {
                let m = spec_skip_ws(s, j + 1);
                match spec_read_float(s, m) {
                    None => Err((ParseErrorKind::InvalidNumber, m)),
                    Some(ye) => Ok((ye, (s.subrange(i, xe), s.subrange(m, ye)))),
                }
            } else {
                Err((ParseErrorKind::ExpectedComma, j))
            }
        },
    }
}

/// Parses a color at `i`: three mandatory channel bytes and an optional
/// alpha byte, alpha defaulting to 255. A dangling seventh hex digit
/// fails the optional fourth read rather than being left behind.
pub open spec fn spec_color(s: Seq<char>, i: int) -> Result<(int, Color), (ParseErrorKind, int)> {
    match spec_read_hex_byte(s, i) {
        None => Err((ParseErrorKind::InvalidHex, i)),
        Some((r, i1)) => match spec_read_hex_byte(s, i1) {
            None => Err((ParseErrorKind::InvalidHex, i1)),
            Some((g, i2)) => match spec_read_hex_byte(s, i2) {
                None => Err((ParseErrorKind::InvalidHex, i2)),
                Some((b, i3)) => {
                    if i3 < s.len() && is_hex_digit(s[i3]) {
                        match spec_read_hex_byte(s, i3) {
                            None => Err((ParseErrorKind::InvalidHex, i3)),
                            Some((a, i4)) => Ok((i4, (r, g, b, a))),
                        }
                    } else {
                        Ok((i3, (r, g, b, 255u8)))
                    }
                },
            },
        },
    }
}

pub proof fn lemma_point_bounds(s: Seq<char>, i: int)
    requires
        0 <= i <= s.len(),
    ensures
        spec_point(s, i) matches Ok((end, _)) ==> i < end <= s.len(),
{
    lemma_read_float_bounds(s, i);
    if let Some(xe) = spec_read_float(s, i) {
        lemma_skip_ws_bounds(s, xe);
        let j = spec_skip_ws(s, xe);
        if j < s.len() && s[j] == ',' {
            lemma_skip_ws_bounds(s, j + 1);
            lemma_read_float_bounds(s, spec_skip_ws(s, j + 1));
        }
    }
}

pub proof fn lemma_color_bounds(s: Seq<char>, i: int)
    requires
        0 <= i <= s.len(),
    ensures
        spec_color(s, i) matches Ok((end, _)) ==> i < end <= s.len(),
{
}

// ---------------------------------------------------------------------------
// Shape, specification side
// ---------------------------------------------------------------------------

/// One repetition of the shape's point list: inline whitespace, a point,
/// inline whitespace, `;`. Why it fails does not matter to the shape
/// grammar, so a failure is just `None`.
pub open spec fn spec_single_point(s: Seq<char>, i: int) -> Option<(int, PointV)> {
    let j = spec_skip_ws(s, i);
    match spec_point(s, j) {
        Err(_) => None,
        Ok((k, p)) => {
            let m = spec_skip_ws(s, k);
            if m < s.len() && s[m] == ';' {
                Some((m + 1, p))
            } else {
                None
            }
        },
    }
}

pub proof fn lemma_single_point_progress(s: Seq<char>, i: int)
    requires
        0 <= i <= s.len(),
    ensures
        spec_single_point(s, i) matches Some((j, _)) ==> i < j <= s.len(),
{
    lemma_skip_ws_bounds(s, i);
    let j = spec_skip_ws(s, i);
    lemma_point_bounds(s, j);
    if let Ok((k, _)) = spec_point(s, j) {
        lemma_skip_ws_bounds(s, k);
    }
}

/// The greedy repetition of `spec_single_point`: the position after the
/// last repetition that parses, and the points read, in order.
pub open spec fn spec_points(s: Seq<char>, i: int) -> (int, Seq<PointV>)
    decreases s.len() - i,
{
    if 0 <= i <= s.len() {
        match spec_single_point(s, i) {
            Some((j, p)) => if i < j <= s.len() {
                let rest = spec_points(s, j);
                (rest.0, seq![p] + rest.1)
            } else {
                (i, Seq::empty())
            },
            None => (i, Seq::empty()),
        }
    } else {
        (i, Seq::empty())
    }
}

pub proof fn lemma_points_bounds(s: Seq<char>, i: int)
    requires
        0 <= i <= s.len(),
    ensures
        i <= spec_points(s, i).0 <= s.len(),
    decreases s.len() - i,
{
    lemma_single_point_progress(s, i);
    if let Some((j, _)) = spec_single_point(s, i) {
        lemma_points_bounds(s, j);
    }
}

/// Parses a shape at `i`: at least three point repetitions, then `.` and
/// a color. Fewer than three points is `IncompleteShape`; a missing or
/// malformed closing clause is `MissingColor`.
pub open spec fn spec_shape(s: Seq<char>, i: int) -> Result<(int, ShapeV), (ParseErrorKind, int)> {
    let (pend, pts) = spec_points(s, i);
    if pts.len() < 3 {
        Err((ParseErrorKind::IncompleteShape, pend))
    } else {
        let j = spec_skip_ws(s, pend);
        if j < s.len() && s[j] == '.' {
            let m = spec_skip_ws(s, j + 1);
            match spec_color(s, m) {
                Err((_, ep)) => Err((ParseErrorKind::MissingColor, ep)),
                Ok((end, c)) => Ok((end, (pts, c))),
            }
        } else {
            Err((ParseErrorKind::MissingColor, j))
        }
    }
}

pub proof fn lemma_shape_bounds(s: Seq<char>, i: int)
    requires
        0 <= i <= s.len(),
    ensures
        spec_shape(s, i) matches Ok((end, _)) ==> i < end <= s.len(),
{
    lemma_points_bounds(s, i);
    let (pend, pts) = spec_points(s, i);
    if pts.len() >= 3 {
        lemma_skip_ws_bounds(s, pend);
        let j = spec_skip_ws(s, pend);
        if j < s.len() && s[j] == '.' {
            lemma_skip_ws_bounds(s, j + 1);
            lemma_color_bounds(s, spec_skip_ws(s, j + 1));
        }
    }
}

// ---------------------------------------------------------------------------
// Line classification and the whole input, specification side
// ---------------------------------------------------------------------------

/// Position after a comment whose `#` stands just before `i`: everything
/// up to and including the next newline is discarded; end of input is an
/// acceptable substitute for the newline.
pub open spec fn spec_comment_end(s: Seq<char>, i: int) -> int
    decreases s.len() - i,
{
    if 0 <= i && i < s.len() {
        if s[i] == '\n' {
            i + 1
        } else {
            spec_comment_end(s, i + 1)
        }
    } else {
        i
    }
}

pub proof fn lemma_comment_end_bounds(s: Seq<char>, i: int)
    requires
        0 <= i <= s.len(),
    ensures
        i <= spec_comment_end(s, i) <= s.len(),
    decreases s.len() - i,
{
    if i < s.len() && s[i] != '\n' {
        lemma_comment_end_bounds(s, i + 1);
    }
}

/// Classifies one physical line at `i`. A `#` after leading whitespace
/// is a comment; otherwise a shape is attempted, and on success a
/// trailing comment or newline is consumed, end of input standing in for
/// the newline. A line with no shape content is blank, and blank lines
/// must carry an explicit newline: without one the classifier can make
/// no progress, which is a `TrailingInput` failure at the line's start.
pub open spec fn spec_line(s: Seq<char>, i: int) -> Result<
    (int, LineView),
    (ParseErrorKind, int),
> {
    let j = spec_skip_ws(s, i);
    if j < s.len() && s[j] == '#' {
        Ok((spec_comment_end(s, j + 1), LineView::Comment))
    } else {
        match spec_shape(s, j) {
            Ok((k, sh)) => {
                let m = spec_skip_ws(s, k);
                if m < s.len() && s[m] == '#' {
                    Ok((spec_comment_end(s, m + 1), LineView::ShapeLine(sh)))
                } else if m < s.len() && s[m] == '\n' {
                    Ok((m + 1, LineView::ShapeLine(sh)))
                } else {
                    Ok((m, LineView::ShapeLine(sh)))
                }
            },
            Err(_) => {
                if j < s.len() && s[j] == '\n' {
                    Ok((j + 1, LineView::Blank))
                } else {
                    Err((ParseErrorKind::TrailingInput, i))
                }
            },
        }
    }
}

pub proof fn lemma_line_progress(s: Seq<char>, i: int)
    requires
        0 <= i <= s.len(),
    ensures
        spec_line(s, i) matches Ok((j, _)) ==> i < j <= s.len(),
{
    lemma_skip_ws_bounds(s, i);
    let j = spec_skip_ws(s, i);
    if j < s.len() && s[j] == '#' {
        lemma_comment_end_bounds(s, j + 1);
    } else {
        lemma_shape_bounds(s, j);
        if let Ok((k, _)) = spec_shape(s, j) {
            lemma_skip_ws_bounds(s, k);
            let m = spec_skip_ws(s, k);
            if m < s.len() && s[m] == '#' {
                lemma_comment_end_bounds(s, m + 1);
            }
        }
    }
}

/// Parses the whole input from `i`: classifies line after line, keeps
/// the shapes in order, and succeeds only once the input is exhausted.
pub open spec fn spec_mesh(s: Seq<char>, i: int) -> Result<Seq<ShapeV>, (ParseErrorKind, int)>
    decreases s.len() - i,
{
    if 0 <= i < s.len() {
        match spec_line(s, i) {
            Err(e) => Err(e),
            Ok((j, out)) => if i < j <= s.len() {
                match spec_mesh(s, j) {
                    Err(e) => Err(e),
                    Ok(rest) => Ok(
                        match out {
                            LineView::ShapeLine(sh) => seq![sh] + rest,
                            _ => rest,
                        },
                    ),
                }
            } else {
                Ok(Seq::empty())
            },
        }
    } else {
        Ok(Seq::empty())
    }
}

// ---------------------------------------------------------------------------
// Primitive scanners, executable side
// ---------------------------------------------------------------------------

/// Whether `c` is inline whitespace.
fn ws_char(c: char) -> (r: bool)
    ensures
        r == is_inline_ws(c),
{
    c == ' ' || c == '\t'
}

/// Whether `c` is a decimal digit.
fn digit_char(c: char) -> (r: bool)
    ensures
        r == is_digit(c),
{
    let u = c as u32;
    48 <= u && u <= 57
}

/// Whether `c` is a hexadecimal digit.
fn hex_char(c: char) -> (r: bool)
    ensures
        r == is_hex_digit(c),
{
    let u = c as u32;
    (48 <= u && u <= 57) || (97 <= u && u <= 102) || (65 <= u && u <= 70)
}

/// The numeric value of hexadecimal digit `c`.
fn hex_char_value(c: char) -> (r: u8)
    requires
        is_hex_digit(c),
    ensures
        r as int == hex_value(c),
{
    let u = c as u32;
    if 48 <= u && u <= 57 {
        (u - 48) as u8
    } else if 97 <= u && u <= 102 {
        (u - 97 + 10) as u8
    } else {
        (u - 65 + 10) as u8
    }
}

/// Consumes zero or more inline whitespace characters and returns the
/// position after them; always succeeds.
pub fn whitespace(s: &str, pos: usize) -> (r: usize)
    requires
        pos <= s@.len(),
    ensures
        r as int == spec_skip_ws(s@, pos as int),
        pos <= r <= s@.len(),
{
    let n = s.unicode_len();
    let mut cur = pos;
    while cur < n && ws_char(s.get_char(cur))
        invariant
            pos <= cur <= n,
            n == s@.len(),
            spec_skip_ws(s@, pos as int) == spec_skip_ws(s@, cur as int),
        decreases n - cur,
    {
        cur = cur + 1;
    }
    cur
}

/// Consumes zero or more decimal digits and returns the position after
/// them.
fn digits(s: &str, pos: usize) -> (r: usize)
    requires
        pos <= s@.len(),
    ensures
        r as int == spec_skip_digits(s@, pos as int),
        pos <= r <= s@.len(),
{
    let n = s.unicode_len();
    let mut cur = pos;
    while cur < n && digit_char(s.get_char(cur))
        invariant
            pos <= cur <= n,
            n == s@.len(),
            spec_skip_digits(s@, pos as int) == spec_skip_digits(s@, cur as int),
        decreases n - cur,
    {
        cur = cur + 1;
    }
    cur
}

/// Consumes an exponent clause if one is present and returns the position
/// after it.
fn exponent(s: &str, pos: usize) -> (r: usize)
    requires
        pos <= s@.len(),
    ensures
        r as int == spec_read_exp(s@, pos as int),
        pos <= r <= s@.len(),
{
    proof {
        lemma_read_exp_bounds(s@, pos as int);
    }
    let n = s.unicode_len();
    if pos < n {
        let c = s.get_char(pos);
        if c == 'e' || c == 'E' {
            let j = if pos + 1 < n {
                let c1 = s.get_char(pos + 1);
                if c1 == '+' || c1 == '-' {
                    pos + 2
                } else {
                    pos + 1
                }
            } else {
                pos + 1
            };
            let k = digits(s, j);
            if k > j {
                k
            } else {
                pos
            }
        } else {
            pos
        }
    } else {
        pos
    }
}

/// Consumes one floating-point literal and returns it together with the
/// position after it; fails with `InvalidNumber` at `pos` if no literal
/// starts there.
pub fn read_float(s: &str, pos: usize) -> (r: Result<(String, usize), ParseError>)
    requires
        pos <= s@.len(),
    ensures
        match spec_read_float(s@, pos as int) {
            Some(end) => r matches Ok((lit, e)) && lit@ == s@.subrange(pos as int, end) && e as int
                == end && pos < e <= s@.len(),
            None => r matches Err(err) && err.kind == ParseErrorKind::InvalidNumber && err.pos
                == pos,
        },
{
    proof {
        lemma_read_float_bounds(s@, pos as int);
    }
    let n = s.unicode_len();
    let j = if pos < n {
        let c = s.get_char(pos);
        if c == '+' || c == '-' {
            pos + 1
        } else {
            pos
        }
    } else {
        pos
    };
    let k = digits(s, j);
    if k > j {
        let m = if k < n && s.get_char(k) == '.' {
            digits(s, k + 1)
        } else {
            k
        };
        let e = exponent(s, m);
        let lit = s.substring_char(pos, e).to_owned();
        Ok((lit, e))
    } else if j < n && s.get_char(j) == '.' {
        let f = digits(s, j + 1);
        if f > j + 1 {
            let e = exponent(s, f);
            let lit = s.substring_char(pos, e).to_owned();
            Ok((lit, e))
        } else {
            Err(ParseError { kind: ParseErrorKind::InvalidNumber, pos })
        }
    } else {
        Err(ParseError { kind: ParseErrorKind::InvalidNumber, pos })
    }
}

/// Consumes exactly two hexadecimal digits as one channel byte; fails
/// with `InvalidHex` at `pos` if fewer than two are available.
pub fn read_hex_byte(s: &str, pos: usize) -> (r: Result<(u8, usize), ParseError>)
    requires
        pos <= s@.len(),
    ensures
        match spec_read_hex_byte(s@, pos as int) {
            Some((v, end)) => r matches Ok((b, e)) && b == v && e as int == end && pos < e
                <= s@.len(),
            None => r matches Err(err) && err.kind == ParseErrorKind::InvalidHex && err.pos == pos,
        },
{
    let n = s.unicode_len();
    if pos < n && pos + 1 < n {
        let c0 = s.get_char(pos);
        let c1 = s.get_char(pos + 1);
        if hex_char(c0) && hex_char(c1) {
            let v = 16 * hex_char_value(c0) + hex_char_value(c1);
            return Ok((v, pos + 2));
        }
    }
    Err(ParseError { kind: ParseErrorKind::InvalidHex, pos })
}

// ---------------------------------------------------------------------------
// Point and color, executable side
// ---------------------------------------------------------------------------

/// Parses a Point: two coordinate literals separated by a comma, with
/// inline whitespace allowed around the comma.
pub fn point(s: &str, pos: usize) -> (r: Result<(Point, usize), ParseError>)
    requires
        pos <= s@.len(),
    ensures
        match spec_point(s@, pos as int) {
            Ok((end, pv)) => r matches Ok((p, e)) && p@ == pv && e as int == end && pos < e
                <= s@.len(),
            Err((k, ep)) => r matches Err(err) && err.kind == k && err.pos as int == ep,
        },
{
    proof {
        lemma_point_bounds(s@, pos as int);
    }
    let n = s.unicode_len();
    match read_float(s, pos) {
        Err(e) => Err(e),
        Ok((xl, xe)) => {
            let j = whitespace(s, xe);
            if j < n && s.get_char(j) == ',' {
                let m = whitespace(s, j + 1);
                match read_float(s, m) {
                    Err(e) => Err(e),
                    Ok((yl, ye)) => Ok((Point { x: xl, y: yl }, ye)),
                }
            } else {
                Err(ParseError { kind: ParseErrorKind::ExpectedComma, pos: j })
            }
        },
    }
}

/// Parses a Color: `RRGGBB` or `RRGGBBAA`, case-insensitive; a missing
/// alpha byte defaults to 255 (opaque).
pub fn color(s: &str, pos: usize) -> (r: Result<(Color, usize), ParseError>)
    requires
        pos <= s@.len(),
    ensures
        match spec_color(s@, pos as int) {
            Ok((end, c)) => r matches Ok((rc, e)) && rc == c && e as int == end && pos < e
                <= s@.len(),
            Err((k, ep)) => r matches Err(err) && err.kind == k && err.pos as int == ep,
        },
{
    let n = s.unicode_len();
    match read_hex_byte(s, pos) {
        Err(e) => Err(e),
        Ok((cr, i1)) => match read_hex_byte(s, i1) {
            Err(e) => Err(e),
            Ok((cg, i2)) => match read_hex_byte(s, i2) {
                Err(e) => Err(e),
                Ok((cb, i3)) => {
                    if i3 < n && hex_char(s.get_char(i3)) {
                        match read_hex_byte(s, i3) {
                            Err(e) => Err(e),
                            Ok((ca, i4)) => Ok(((cr, cg, cb, ca), i4)),
                        }
                    } else {
                        Ok(((cr, cg, cb, 255), i3))
                    }
                },
            },
        },
    }
}

// ---------------------------------------------------------------------------
// Shape, executable side
// ---------------------------------------------------------------------------

/// One `whitespace point whitespace ';'` repetition of a shape's point
/// list; `None` when the repetition does not match at `pos`.
fn single_point(s: &str, pos: usize) -> (r: Option<(Point, usize)>)
    requires
        pos <= s@.len(),
    ensures
        match spec_single_point(s@, pos as int) {
            Some((j, pv)) => r matches Some((p, e)) && p@ == pv && e as int == j && pos < e
                <= s@.len(),
            None => r is None,
        },
{
    proof {
        lemma_single_point_progress(s@, pos as int);
    }
    let n = s.unicode_len();
    let j = whitespace(s, pos);
    match point(s, j) {
        Err(_) => None,
        Ok((p, k)) => {
            let m = whitespace(s, k);
            if m < n && s.get_char(m) == ';' {
                Some((p, m + 1))
            } else {
                None
            }
        },
    }
}

/// Parses a Shape: three or more points, each closed by `;`, then `.`
/// and a color.
pub fn shape(s: &str, pos: usize) -> (r: Result<(Shape, usize), ParseError>)
    requires
        pos <= s@.len(),
    ensures
        match spec_shape(s@, pos as int) {
            Ok((end, sv)) => r matches Ok((sh, e)) && sh@ == sv && e as int == end && pos < e
                <= s@.len(),
            Err((k, ep)) => r matches Err(err) && err.kind == k && err.pos as int == ep,
        },
        r matches Ok((sh, _)) ==> sh.points@.len() >= 3,
{
    proof {
        lemma_shape_bounds(s@, pos as int);
    }
    let n = s.unicode_len();
    let mut pts: Vec<Point> = Vec::new();
    let mut cur = pos;
    loop
        invariant
            pos <= cur <= n,
            n == s@.len(),
            spec_points(s@, pos as int).0 == spec_points(s@, cur as int).0,
            spec_points(s@, pos as int).1 == points_view(pts@) + spec_points(s@, cur as int).1,
        ensures
            pos <= cur <= n,
            n == s@.len(),
            spec_points(s@, pos as int).0 == cur as int,
            spec_points(s@, pos as int).1 == points_view(pts@),
        decreases n - cur,
    {
        match single_point(s, cur) {
            None => {
                proof {
                    assert(spec_points(s@, cur as int) == (cur as int, Seq::<PointV>::empty()));
                    assert(points_view(pts@) + Seq::<PointV>::empty() =~= points_view(pts@));
                }
                break ;
            },
            Some((p, j)) => {
                proof {
                    lemma_single_point_progress(s@, cur as int);
                    let rest = spec_points(s@, j as int);
                    assert(spec_points(s@, cur as int) == (rest.0, seq![p@] + rest.1));
                    assert(points_view(pts@) + (seq![p@] + rest.1) =~= (points_view(pts@)
                        + seq![p@]) + rest.1);
                    lemma_points_view_push(pts@, p);
                }
                pts.push(p);
                cur = j;
            },
        }
    }
    if pts.len() < 3 {
        return Err(ParseError { kind: ParseErrorKind::IncompleteShape, pos: cur });
    }
    let j = whitespace(s, cur);
    if j < n && s.get_char(j) == '.' {
        let m = whitespace(s, j + 1);
        match color(s, m) {
            Err(e) => Err(ParseError { kind: ParseErrorKind::MissingColor, pos: e.pos }),
            Ok((c, end)) => Ok((Shape { points: pts, color: c }, end)),
        }
    } else {
        Err(ParseError { kind: ParseErrorKind::MissingColor, pos: j })
    }
}

// ---------------------------------------------------------------------------
// Line classification, executable side
// ---------------------------------------------------------------------------

/// Discards a comment's text: everything up to and including the next
/// newline, or to the end of input. The `#` itself was consumed by the
/// caller.
fn comment(s: &str, pos: usize) -> (r: usize)
    requires
        pos <= s@.len(),
    ensures
        r as int == spec_comment_end(s@, pos as int),
        pos <= r <= s@.len(),
{
    let n = s.unicode_len();
    let mut cur = pos;
    while cur < n && s.get_char(cur) != '\n'
        invariant
            pos <= cur <= n,
            n == s@.len(),
            spec_comment_end(s@, pos as int) == spec_comment_end(s@, cur as int),
        decreases n - cur,
    {
        cur = cur + 1;
    }
    if cur < n {
        cur + 1
    } else {
        cur
    }
}

/// Classifies one physical line and returns its outcome together with
/// the position after what the line consumed: a `#` line is a comment, a
/// line holding a shape yields the shape with any trailing comment or
/// newline consumed, and a line with no shape content is blank. A blank
/// line must end in an explicit newline; without one no progress can be
/// made and the classification fails with `TrailingInput` at `pos`.
pub fn line(s: &str, pos: usize) -> (r: Result<(LineOutcome, usize), ParseError>)
    requires
        pos <= s@.len(),
    ensures
        match spec_line(s@, pos as int) {
            Ok((end, out)) => r matches Ok((lo, e)) && lo@ == out && e as int == end && pos < e
                <= s@.len(),
            Err((k, ep)) => r matches Err(err) && err.kind == k && err.pos as int == ep,
        },
{
    proof {
        lemma_line_progress(s@, pos as int);
    }
    let n = s.unicode_len();
    let j = whitespace(s, pos);
    if j < n && s.get_char(j) == '#' {
        let end = comment(s, j + 1);
        Ok((LineOutcome::Comment, end))
    } else {
        match shape(s, j) {
            Ok((sh, k)) => {
                let m = whitespace(s, k);
                if m < n && s.get_char(m) == '#' {
                    let end = comment(s, m + 1);
                    Ok((LineOutcome::ShapeLine(sh), end))
                } else if m < n && s.get_char(m) == '\n' {
                    Ok((LineOutcome::ShapeLine(sh), m + 1))
                } else {
                    Ok((LineOutcome::ShapeLine(sh), m))
                }
            },
            Err(_) => {
                if j < n && s.get_char(j) == '\n' {
                    Ok((LineOutcome::Blank, j + 1))
                } else {
                    Err(ParseError { kind: ParseErrorKind::TrailingInput, pos })
                }
            },
        }
    }
}

} // verus!
