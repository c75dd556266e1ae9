use vstd::prelude::*;

use crate::spline::{axis, transpose, SplineCurve};
use vstd::slice::slice_subrange;

verus! {

/// Number of parameter values that sample a curve for drawing.
pub const SAMPLES: usize = 101;

/// Why no drawing frame could be found.
#[derive(Debug, Clone, Copy, PartialEq, Eq, Structural)]
pub enum PlotError {
    /// Only curves of one or two channels can be drawn.
    UnsupportedDimension,
    /// There is no value to take a range of.
    NoData,
}

/// The extent of what is drawn, in both directions.
#[derive(Debug, Clone, Copy, PartialEq, Eq, Structural)]
pub struct Bounds {
    pub x_min: i64,
    pub x_max: i64,
    pub y_min: i64,
    pub y_max: i64,
}

/// `x` is the least value of `s`.
pub open spec fn is_min(s: Seq<i64>, x: i64) -> bool {
    &&& s.contains(x)
    &&& forall|p: int| 0 <= p < s.len() ==> x <= #[trigger] s[p]
}

/// `x` is the greatest value of `s`.
pub open spec fn is_max(s: Seq<i64>, x: i64) -> bool {
    &&& s.contains(x)
    &&& forall|p: int| 0 <= p < s.len() ==> #[trigger] s[p] <= x
}

/// `b` spans exactly the values `xs` across and `ys` up.
pub open spec fn spans(xs: Seq<i64>, ys: Seq<i64>, b: Bounds) -> bool {
    &&& is_min(xs, b.x_min)
    &&& is_max(xs, b.x_max)
    &&& is_min(ys, b.y_min)
    &&& is_max(ys, b.y_max)
}

/// What is drawn across and up for the knots and coefficients of a curve in
/// `n` channels: knots against coefficients for one channel, the two
/// coefficient blocks against each other for two.
pub open spec fn control_axes(t: Seq<i64>, c: Seq<i64>, n: nat) -> (Seq<i64>, Seq<i64>) {
    if n == 1 {
        (t, c)
    } else {
        (c.subrange(0, (c.len() / 2) as int), c.subrange((c.len() / 2) as int, c.len() as int))
    }
}

/// What is drawn across and up for the parameters `u` and the flat curve
/// points `xn`: parameters against values for one channel, the first channel
/// against the second for two.
pub open spec fn curve_axes(u: Seq<i64>, xn: Seq<i64>) -> (Seq<i64>, Seq<i64>) {
    if xn.len() / u.len() == 1 {
        (u, xn)
    } else {
        (axis(xn, 2, 0), axis(xn, 2, 1))
    }
}

/// Why the frame of the control points cannot be had, if it cannot.
pub open spec fn control_frame_error(t: Seq<i64>, c: Seq<i64>, n: nat) -> Option<PlotError> {
    if n != 1 && n != 2 {
        Some(PlotError::UnsupportedDimension)
    } else if control_axes(t, c, n).0.len() == 0 || control_axes(t, c, n).1.len() == 0 {
        Some(PlotError::NoData)
    } else {
        None
    }
}

/// Why the frame of the curve points cannot be had, if it cannot.
pub open spec fn curve_frame_error(u: Seq<i64>, xn: Seq<i64>) -> Option<PlotError> {
    if u.len() == 0 {
        Some(PlotError::NoData)
    } else if xn.len() / u.len() != 1 && xn.len() / u.len() != 2 {
        Some(PlotError::UnsupportedDimension)
    } else if curve_axes(u, xn).0.len() == 0 || curve_axes(u, xn).1.len() == 0 {
        Some(PlotError::NoData)
    } else {
        None
    }
}

/// The least and the greatest value of `s`.
pub fn min_max(s: &[i64]) -> (r: (i64, i64))
    requires
        s@.len() > 0,
    ensures
        is_min(s@, r.0),
        is_max(s@, r.1),
{
    let mut lo = s[0];
    let mut hi = s[0];
    let ghost mut lo_at: int = 0;
    let ghost mut hi_at: int = 0;
    let mut p: usize = 1;
    while p < s.len()
        invariant
            1 <= p <= s@.len(),
            0 <= lo_at < s@.len(),
            0 <= hi_at < s@.len(),
            s@[lo_at] == lo,
            s@[hi_at] == hi,
            forall|q: int| 0 <= q < p ==> lo <= #[trigger] s@[q] <= hi,
        decreases s.len() - p,
    {
        if s[p] < lo {
            lo = s[p];
            proof {
                lo_at = p as int;
            }
        }
        if s[p] > hi {
            hi = s[p];
            proof {
                hi_at = p as int;
            }
        }
        p += 1;
    }
    assert(s@.contains(lo) && s@.contains(hi));
    (lo, hi)
}

/// The frame of `xs` across and `ys` up.
fn frame(xs: &[i64], ys: &[i64]) -> (r: Result<Bounds, PlotError>)
    ensures
        match r {
            Ok(b) => xs@.len() > 0 && ys@.len() > 0 && spans(xs@, ys@, b),
            Err(e) => (xs@.len() == 0 || ys@.len() == 0) && e == PlotError::NoData,
        },
{
    if xs.len() == 0 || ys.len() == 0 {
        return Err(PlotError::NoData);
    }
    let (x_min, x_max) = min_max(xs);
    let (y_min, y_max) = min_max(ys);
    Ok(Bounds { x_min, x_max, y_min, y_max })
}

/// The frame that holds the knots and the control points of `s`.
pub fn range_knots<const K: usize, const N: usize>(s: &SplineCurve<K, N>) -> (r: Result<
    Bounds,
    PlotError,
>)
    ensures
        match r {
            Ok(b) => control_frame_error(s.t@, s.c@, N as nat) is None && spans(
                control_axes(s.t@, s.c@, N as nat).0,
                control_axes(s.t@, s.c@, N as nat).1,
                b,
            ),
            Err(e) => control_frame_error(s.t@, s.c@, N as nat) == Some(e),
        },
{
    let nc = s.c.len();
    let half = nc / 2;
    if N == 1 {
        frame(s.t.as_slice(), s.c.as_slice())
    } else if N == 2 {
        let xs = slice_subrange(s.c.as_slice(), 0, half);
        let ys = slice_subrange(s.c.as_slice(), half, nc);
        frame(xs, ys)
    } else {
        Err(PlotError::UnsupportedDimension)
    }
}

/// The frame that holds the curve points `xn` evaluated at the parameters `u`.
pub fn range_spline(u: &[i64], xn: &[i64]) -> (r: Result<Bounds, PlotError>)
    ensures
        match r {
            Ok(b) => curve_frame_error(u@, xn@) is None && spans(
                curve_axes(u@, xn@).0,
                curve_axes(u@, xn@).1,
                b,
            ),
            Err(e) => curve_frame_error(u@, xn@) == Some(e),
        },
{
    if u.len() == 0 {
        return Err(PlotError::NoData);
    }
    let n = xn.len() / u.len();
    if n == 1 {
        frame(u, xn)
    } else if n == 2 {
        let cols = transpose(xn, 2);
        frame(cols[0].as_slice(), cols[1].as_slice())
    } else {
        Err(PlotError::UnsupportedDimension)
    }
}

/// The frame for drawing `s` with its points `xn` at the parameters `u`: the
/// frame of the control points where those are drawn too, for two channels,
/// else that of the curve points.
pub fn plot_ranges<const K: usize, const N: usize>(
    s: &SplineCurve<K, N>,
    u: &[i64],
    xn: &[i64],
    control_points: bool,
) -> (r: Result<Bounds, PlotError>)
    ensures
        N != 1 && N != 2 ==> r == Err::<Bounds, PlotError>(PlotError::UnsupportedDimension),
        N == 2 && control_points ==> match r {
            Ok(b) => control_frame_error(s.t@, s.c@, 2) is None && spans(
                control_axes(s.t@, s.c@, 2).0,
                control_axes(s.t@, s.c@, 2).1,
                b,
            ),
            Err(e) => control_frame_error(s.t@, s.c@, 2) == Some(e),
        },
        (N == 1 || (N == 2 && !control_points)) ==> match r {
            Ok(b) => curve_frame_error(u@, xn@) is None && spans(
                curve_axes(u@, xn@).0,
                curve_axes(u@, xn@).1,
                b,
            ),
            Err(e) => curve_frame_error(u@, xn@) == Some(e),
        },
{
    if N == 1 {
        range_spline(u, xn)
    } else if N == 2 {
        if control_points {
            range_knots(s)
        } else {
            range_spline(u, xn)
        }
    } else {
        Err(PlotError::UnsupportedDimension)
    }
}

/// `SAMPLES` parameter values spread evenly, rounded down, from the first knot
/// to the last; none for no knots.
pub fn sample_parameters(t: &[i64]) -> (r: Vec<i64>)
    ensures
        t@.len() == 0 ==> r@.len() == 0,
        t@.len() > 0 ==> r@.len() == SAMPLES && forall|p: int|
            0 <= p < SAMPLES ==> #[trigger] r@[p] == t@[0] + (t@[t@.len() - 1] - t@[0]) * p / (
            SAMPLES - 1) as int,
{
    let mut r: Vec<i64> = Vec::new();
    if t.len() == 0 {
        return r;
    }
    let tb = t[0];
    let te = t[t.len() - 1];
    let span: i128 = te as i128 - tb as i128;
    let steps: i128 = (SAMPLES - 1) as i128;
    let mut p: usize = 0;
    while p < SAMPLES
        invariant
            t@.len() > 0,
            tb == t@[0],
            te == t@[t@.len() - 1],
            span == te - tb,
            steps == SAMPLES - 1,
            p <= SAMPLES,
            r@.len() == p,
            forall|q: int|
                0 <= q < p ==> #[trigger] r@[q] == tb + span * q / (SAMPLES - 1) as int,
        decreases SAMPLES - p,
    {
        let ghost pi = p as int;
        assert(-0x1_0000_0000_0000_0000 * 100 <= span * pi <= 0x1_0000_0000_0000_0000 * 100)
            by (nonlinear_arith)
            requires
                -0x1_0000_0000_0000_0000 <= span <= 0x1_0000_0000_0000_0000,
                0 <= pi <= 100,
        ;
        let off: i128 = (span * (p as i128)).checked_div_euclid(steps).unwrap();
        proof {
            lemma_between_ends(tb as int, te as int, pi);
        }
        r.push((tb as i128 + off) as i64);
        p += 1;
    }
    r
}

/// The rounded-down point `p` hundredths of the way from `a` to `b` lies
/// between them.
proof fn lemma_between_ends(a: int, b: int, p: int)
    requires
        0 <= p <= 100,
    ensures
        a <= b ==> a <= a + (b - a) * p / 100 <= b,
        b <= a ==> b <= a + (b - a) * p / 100 <= a,
{
    let x = (b - a) * p;
    vstd::arithmetic::div_mod::lemma_fundamental_div_mod(x, 100);
    let q = x / 100;
    assert(a <= b ==> 0 <= q <= b - a) by (nonlinear_arith)
        requires
            x == (b - a) * p,
            x == 100 * q + x % 100,
            0 <= x % 100 < 100,
            0 <= p <= 100,
    ;
    assert(b <= a ==> b - a <= q <= 0) by (nonlinear_arith)
        requires
            x == (b - a) * p,
            x == 100 * q + x % 100,
            0 <= x % 100 < 100,
            0 <= p <= 100,
    ;
}

} // verus!
