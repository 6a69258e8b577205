//! General properties of the grammar, stated and proved once for all
//! inputs.

use vstd::prelude::*;

verus! {

use crate::parse::is_digit;
use crate::parse::is_inline_ws;
use crate::parse::lemma_comment_end_bounds;
use crate::parse::lemma_line_progress;
use crate::parse::lemma_skip_digits_bounds;
use crate::parse::lemma_skip_ws_bounds;
use crate::parse::spec_comment_end;
use crate::parse::spec_line;
use crate::parse::spec_mesh;
use crate::parse::spec_point;
use crate::parse::spec_points;
use crate::parse::spec_read_exp;
use crate::parse::spec_read_float;
use crate::parse::spec_shape;
use crate::parse::spec_single_point;
use crate::parse::spec_skip_digits;
use crate::parse::spec_skip_ws;
use crate::LineView;
use crate::ParseErrorKind;
use crate::PointV;
use crate::ShapeV;

/// A shape clause fails with `IncompleteShape` exactly when fewer than
/// three `point ';'` repetitions can be read at its start; three is the
/// minimum accepted.
pub proof fn lemma_shape_incomplete_iff_fewer_than_three(s: Seq<char>, i: int)
    requires
        0 <= i <= s.len(),
    ensures
        (spec_shape(s, i) matches Err((ParseErrorKind::IncompleteShape, _))) <==> spec_points(
            s,
            i,
        ).1.len() < 3,
{
}

/// Parsing accounts for every line of the input, in order: at any
/// position, the whole parse is the classification of the line there,
/// followed by the parse of what that line left; a shape line prepends
/// its shape, a comment or blank line contributes nothing, and a line
/// that cannot be classified fails the whole parse. In particular no
/// malformed suffix is ever silently dropped.
pub proof fn lemma_mesh_line_by_line(s: Seq<char>, i: int)
    requires
        0 <= i < s.len(),
    ensures
        spec_mesh(s, i) == (match spec_line(s, i) {
            Err(e) => Err::<Seq<ShapeV>, (ParseErrorKind, int)>(e),
            Ok((j, LineView::ShapeLine(sh))) => (match spec_mesh(s, j) {
                Err(e) => Err::<Seq<ShapeV>, (ParseErrorKind, int)>(e),
                Ok(rest) => Ok::<Seq<ShapeV>, (ParseErrorKind, int)>(seq![sh] + rest),
            }),
            Ok((j, _)) => spec_mesh(s, j),
        }),
{
    lemma_line_progress(s, i);
}

/// Whether the input from `i` on consists only of comment lines and
/// blank lines, every blank line closed by an explicit newline.
pub open spec fn comments_and_blanks_only(s: Seq<char>, i: int) -> bool
    decreases s.len() - i,
{
    if 0 <= i < s.len() {
        let j = spec_skip_ws(s, i);
        if j < s.len() && s[j] == '#' {
            let e = spec_comment_end(s, j + 1);
            if i < e <= s.len() {
                comments_and_blanks_only(s, e)
            } else {
                false
            }
        } else if j < s.len() && s[j] == '\n' {
            if i <= j {
                comments_and_blanks_only(s, j + 1)
            } else {
                false
            }
        } else {
            false
        }
    } else {
        true
    }
}

/// An input holding only comments and blank lines parses to a mesh with
/// zero shapes — it is not an error.
pub proof fn lemma_comments_and_blanks_parse_to_empty(s: Seq<char>, i: int)
    requires
        0 <= i <= s.len(),
        comments_and_blanks_only(s, i),
    ensures
        spec_mesh(s, i) == Ok::<Seq<ShapeV>, (ParseErrorKind, int)>(Seq::<ShapeV>::empty()),
    decreases s.len() - i,
{
    if i < s.len() {
        lemma_skip_ws_bounds(s, i);
        let j = spec_skip_ws(s, i);
        if j < s.len() && s[j] == '#' {
            let e = spec_comment_end(s, j + 1);
            lemma_comment_end_bounds(s, j + 1);
            assert(spec_line(s, i) == Ok::<(int, LineView), (ParseErrorKind, int)>(
                (e, LineView::Comment),
            ));
            lemma_comments_and_blanks_parse_to_empty(s, e);
        } else {
            // a blank line: the shape attempt fails on the newline
            assert(j < s.len() && s[j] == '\n');
            assert(spec_skip_ws(s, j) == j);
            assert(spec_skip_digits(s, j) == j);
            assert(spec_read_float(s, j) is None);
            assert(spec_point(s, j) is Err);
            assert(spec_single_point(s, j) is None);
            assert(spec_points(s, j) == (j, Seq::<PointV>::empty()));
            assert(spec_shape(s, j) is Err);
            assert(spec_line(s, i) == Ok::<(int, LineView), (ParseErrorKind, int)>(
                (j + 1, LineView::Blank),
            ));
            lemma_comments_and_blanks_parse_to_empty(s, j + 1);
        }
    }
}

/// A successful parse returns only well-formed shapes: each carries at
/// least three points.
pub proof fn lemma_mesh_shapes_well_formed(s: Seq<char>, i: int)
    requires
        0 <= i <= s.len(),
    ensures
        spec_mesh(s, i) matches Ok(shs) ==> forall|k: int|
            0 <= k < shs.len() ==> (#[trigger] shs[k]).0.len() >= 3,
    decreases s.len() - i,
{
    if i < s.len() {
        lemma_line_progress(s, i);
        if let Ok((j, out)) = spec_line(s, i) {
            lemma_mesh_shapes_well_formed(s, j);
            if let Ok(rest) = spec_mesh(s, j) {
                if let LineView::ShapeLine(sh) = out {
                    // the shape came from a successful shape parse, which
                    // keeps at least three points by construction
                    lemma_skip_ws_bounds(s, i);
                    let p = spec_skip_ws(s, i);
                    assert(spec_shape(s, p) matches Ok((_, sv)) && sv == sh);
                    assert(sh.0.len() >= 3);
                    assert forall|k: int| 0 <= k < (seq![sh] + rest).len() implies (#[trigger] (
                    seq![sh] + rest)[k]).0.len() >= 3 by {
                        if k > 0 {
                            assert((seq![sh] + rest)[k] == rest[k - 1]);
                        }
                    }
                }
            }
        }
    }
}

/// Every character of `w` is inline whitespace.
pub open spec fn all_inline_ws(w: Seq<char>) -> bool {
    forall|k: int| 0 <= k < w.len() ==> is_inline_ws(w[k])
}

/// `x` is exactly one floating-point literal: reading a float at its
/// start consumes all of it.
pub open spec fn complete_float_lit(x: Seq<char>) -> bool {
    spec_read_float(x, 0) == Some(x.len() as int)
}

/// Scanning digits within the suffix `b` of `a + b` does not depend on
/// `a`.
proof fn lemma_skip_digits_suffix(a: Seq<char>, b: Seq<char>, i: int)
    requires
        0 <= i <= b.len(),
    ensures
        spec_skip_digits(a + b, a.len() + i) == a.len() + spec_skip_digits(b, i),
    decreases b.len() - i,
{
    let s = a + b;
    if i < b.len() {
        assert(s[a.len() + i] == b[i]);
        if is_digit(b[i]) {
            lemma_skip_digits_suffix(a, b, i + 1);
        }
    }
}

/// Scanning an exponent clause within the suffix `b` of `a + b` does not
/// depend on `a`.
proof fn lemma_read_exp_suffix(a: Seq<char>, b: Seq<char>, i: int)
    requires
        0 <= i <= b.len(),
    ensures
        spec_read_exp(a + b, a.len() + i) == a.len() + spec_read_exp(b, i),
{
    let s = a + b;
    let m = a.len() + i;
    if i < b.len() {
        assert(s[m] == b[i]);
        if b[i] == 'e' || b[i] == 'E' {
            if i + 1 < b.len() {
                assert(s[m + 1] == b[i + 1]);
            }
            let jb = if i + 1 < b.len() && (b[i + 1] == '+' || b[i + 1] == '-') {
                i + 2
            } else {
                i + 1
            };
            lemma_skip_digits_suffix(a, b, jb);
        }
    }
}

/// Reading a float within the suffix `b` of `a + b` does not depend on
/// `a`.
proof fn lemma_read_float_suffix(a: Seq<char>, b: Seq<char>, i: int)
    requires
        0 <= i <= b.len(),
    ensures
        spec_read_float(a + b, a.len() + i) == (match spec_read_float(b, i) {
            Some(e) => Some(a.len() + e),
            None => None::<int>,
        }),
{
    let s = a + b;
    let m = a.len() + i;
    if i < b.len() {
        assert(s[m] == b[i]);
    }
    let jb = if i < b.len() && (b[i] == '+' || b[i] == '-') {
        i + 1
    } else {
        i
    };
    lemma_skip_digits_suffix(a, b, jb);
    let kb = spec_skip_digits(b, jb);
    lemma_skip_digits_bounds(b, jb);
    if kb > jb {
        if kb < b.len() {
            assert(s[a.len() + kb] == b[kb]);
        }
        let mb = if kb < b.len() && b[kb] == '.' {
            spec_skip_digits(b, kb + 1)
        } else {
            kb
        };
        if kb < b.len() && b[kb] == '.' {
            lemma_skip_digits_suffix(a, b, kb + 1);
            lemma_skip_digits_bounds(b, kb + 1);
        }
        lemma_read_exp_suffix(a, b, mb);
    } else if jb < b.len() && b[jb] == '.' {
        assert(s[a.len() + jb] == b[jb]);
        lemma_skip_digits_suffix(a, b, jb + 1);
        lemma_skip_digits_bounds(b, jb + 1);
        let fb = spec_skip_digits(b, jb + 1);
        if fb > jb + 1 {
            lemma_read_exp_suffix(a, b, fb);
        }
    }
}

/// Scanning digits in `a + b` from within `a` either stops inside `a`,
/// where it would stop in `a` alone, or runs to `a`'s end and continues
/// into `b`.
proof fn lemma_skip_digits_concat(a: Seq<char>, b: Seq<char>, i: int)
    requires
        0 <= i <= a.len(),
    ensures
        spec_skip_digits(a + b, i) == (if spec_skip_digits(a, i) < a.len() {
            spec_skip_digits(a, i)
        } else {
            a.len() + spec_skip_digits(b, 0)
        }),
    decreases a.len() - i,
{
    let s = a + b;
    lemma_skip_digits_bounds(a, i);
    if i < a.len() {
        assert(s[i] == a[i]);
        if is_digit(a[i]) {
            lemma_skip_digits_concat(a, b, i + 1);
        }
    } else {
        lemma_skip_digits_suffix(a, b, 0);
    }
}

/// Skipping inline whitespace from `p` stops exactly at `q` when the
/// characters between are whitespace and `q` holds none (or is the end).
proof fn lemma_skip_ws_over_run(s: Seq<char>, p: int, q: int)
    requires
        0 <= p <= q <= s.len(),
        forall|k: int| p <= k < q ==> is_inline_ws(s[k]),
        q == s.len() || !is_inline_ws(s[q]),
    ensures
        spec_skip_ws(s, p) == q,
    decreases q - p,
{
    if p < q {
        lemma_skip_ws_over_run(s, p + 1, q);
    }
}

/// A complete float literal is still read as itself when text follows
/// it, as long as the first following character could not extend the
/// literal.
proof fn lemma_read_float_complete_prefix(x: Seq<char>, rest: Seq<char>)
    requires
        complete_float_lit(x),
        rest.len() > 0 ==> !is_digit(rest[0]) && rest[0] != '.' && rest[0] != 'e' && rest[0]
            != 'E',
    ensures
        spec_read_float(x + rest, 0) == Some(x.len() as int),
{
    let s = x + rest;
    let n = x.len() as int;
    // a literal consumes at least one character, so x is not empty
    if n == 0 {
        assert(spec_skip_digits(x, 0) == 0);
        assert(false);
    }
    assert(s[0] == x[0]);
    let j = if x[0] == '+' || x[0] == '-' {
        1
    } else {
        0
    };
    lemma_skip_digits_concat(x, rest, j);
    lemma_skip_digits_bounds(x, j);
    if rest.len() > 0 {
        assert(s[n] == rest[0]);
        assert(spec_skip_digits(rest, 0) == 0);
    }
    let kx = spec_skip_digits(x, j);
    assert(spec_skip_digits(s, j) == kx);
    if kx > j {
        // the literal starts with integer digits
        let mx = if kx < n && x[kx] == '.' {
            spec_skip_digits(x, kx + 1)
        } else {
            kx
        };
        if kx < n {
            assert(s[kx] == x[kx]);
        }
        if kx < n && x[kx] == '.' {
            lemma_skip_digits_concat(x, rest, kx + 1);
            lemma_skip_digits_bounds(x, kx + 1);
        }
        assert(spec_read_exp(x, mx) == n);
        lemma_exp_end_stable(x, rest, mx);
        assert(spec_read_float(s, 0) == Some(n));
    } else {
        // the literal starts with '.' and fraction digits
        assert(j < n && x[j] == '.' && spec_skip_digits(x, j + 1) > j + 1);
        assert(s[j] == x[j]);
        lemma_skip_digits_concat(x, rest, j + 1);
        lemma_skip_digits_bounds(x, j + 1);
        let fx = spec_skip_digits(x, j + 1);
        assert(spec_skip_digits(s, j + 1) == fx);
        assert(spec_read_exp(x, fx) == n);
        lemma_exp_end_stable(x, rest, fx);
        assert(spec_read_float(s, 0) == Some(n));
    }
}

/// An exponent scan that ends exactly at `x`'s end still does so in
/// `x + rest` when `rest` cannot begin or extend an exponent clause.
proof fn lemma_exp_end_stable(x: Seq<char>, rest: Seq<char>, m: int)
    requires
        0 <= m <= x.len(),
        spec_read_exp(x, m) == x.len(),
        rest.len() > 0 ==> !is_digit(rest[0]) && rest[0] != 'e' && rest[0] != 'E',
    ensures
        spec_read_exp(x + rest, m) == x.len(),
{
    let s = x + rest;
    let n = x.len() as int;
    if rest.len() > 0 {
        assert(s[n] == rest[0]);
        assert(spec_skip_digits(rest, 0) == 0);
    }
    if m < n {
        assert(s[m] == x[m]);
        // the scan moved, so an exponent clause must start at m
        assert(x[m] == 'e' || x[m] == 'E');
        let jx = if m + 1 < n && (x[m + 1] == '+' || x[m + 1] == '-') {
            m + 2
        } else {
            m + 1
        };
        lemma_skip_digits_bounds(x, if m + 1 <= n {
            m + 1
        } else {
            n
        });
        // in x the clause's digits run to the very end
        if m + 1 < n {
            assert(s[m + 1] == x[m + 1]);
        }
        if m + 1 == n {
            // no room for digits: the x scan could not have moved
            assert(spec_skip_digits(x, m + 1) == n);
            assert(spec_read_exp(x, m) == m);
            assert(false);
        }
        let js = if m + 1 < s.len() && (s[m + 1] == '+' || s[m + 1] == '-') {
            m + 2
        } else {
            m + 1
        };
        assert(js == jx);
        lemma_skip_digits_bounds(x, jx);
        if jx <= n {
            lemma_skip_digits_concat(x, rest, jx);
        }
        if jx == n + 1 {
            // sign at x's last character, digits would lie beyond x
            assert(spec_skip_digits(x, jx) == jx);
            assert(spec_read_exp(x, m) == m);
            assert(false);
        }
        assert(spec_skip_digits(x, jx) == n);
        assert(spec_skip_digits(s, jx) == n);
    } else {
        // m == n: the empty tail scans nothing, and rest starts no clause
        if n < s.len() {
            assert(spec_read_exp(s, m) == m);
        }
    }
}

/// Point parsing recovers the exact pair of literals whatever inline
/// whitespace stands around the separating comma: an input made of a
/// float literal, whitespace, a comma, whitespace and a second float
/// literal parses as a point whose coordinates are precisely the two
/// literals, with the whole input consumed.
pub proof fn lemma_point_recovers_exact_pair(x: Seq<char>, w1: Seq<char>, w2: Seq<char>, y: Seq<char>)
    requires
        complete_float_lit(x),
        complete_float_lit(y),
        all_inline_ws(w1),
        all_inline_ws(w2),
    ensures
        ({
            let s = x + w1 + seq![','] + w2 + y;
            spec_point(s, 0) == Ok::<(int, PointV), (ParseErrorKind, int)>(
                (s.len() as int, (x, y)),
            )
        }),
{
    let s = x + w1 + seq![','] + w2 + y;
    let nx = x.len() as int;
    let c = nx + w1.len() as int;  // the comma's position
    let m = c + 1 + w2.len() as int;  // where y starts
    let n = s.len() as int;
    assert(n == m + y.len());

    // how s indexes into its five parts
    assert forall|k: int| 0 <= k < n implies s[k] == (if k < nx {
        x[k]
    } else if k < c {
        w1[k - nx]
    } else if k == c {
        ','
    } else if k < m {
        w2[k - (c + 1)]
    } else {
        y[k - m]
    }) by {
        assert(seq![','][0] == ',');
    }

    // neither literal is empty, and y cannot start with whitespace
    if x.len() == 0 {
        assert(spec_skip_digits(x, 0) == 0);
        assert(false);
    }
    if y.len() == 0 {
        assert(spec_skip_digits(y, 0) == 0);
        assert(false);
    }
    if is_inline_ws(y[0]) {
        assert(spec_skip_digits(y, 0) == 0);
        assert(spec_read_float(y, 0) is None);
        assert(false);
    }

    // the first literal is read as itself: what follows cannot extend it
    let rest = w1 + seq![','] + w2 + y;
    assert(s =~= x + rest);
    assert(rest[0] == s[nx]);
    assert(!is_digit(rest[0]) && rest[0] != '.' && rest[0] != 'e' && rest[0] != 'E');
    lemma_read_float_complete_prefix(x, rest);
    assert(spec_read_float(s, 0) == Some(nx));

    // the whitespace run before the comma
    lemma_skip_ws_over_run(s, nx, c);
    assert(s[c] == ',');

    // the whitespace run after the comma
    lemma_skip_ws_over_run(s, c + 1, m);

    // the second literal runs to the end of the input
    let pre = x + w1 + seq![','] + w2;
    assert(s =~= pre + y);
    lemma_read_float_suffix(pre, y, 0);
    assert(spec_read_float(s, m) == Some(n));

    // the recovered literals are exactly x and y
    assert(s.subrange(0, nx) =~= x);
    assert(s.subrange(m, n) =~= y);
}

} // verus!
