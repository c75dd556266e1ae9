use vstd::prelude::*;

verus! {

/// Why an evaluation was refused.
#[derive(Debug, Clone, Copy, PartialEq, Eq, Structural)]
pub enum SplineError {
    /// Two neighbouring parameter values are not in strictly increasing order.
    UnsortedInput,
    /// The coefficient count is not `dimension * (knots - degree - 1)`.
    /// `expected` saturates at `usize::MAX`.
    InsufficientCoefficients { expected: usize, actual: usize },
    /// Fewer than `2 * degree + 2` knots, or knots that decrease somewhere.
    MalformedCurve,
}

/// Knots in non-decreasing order.
pub open spec fn knots_sorted(t: Seq<i64>) -> bool {
    forall|a: int, b: int| 0 <= a <= b < t.len() ==> #[trigger] t[a] <= #[trigger] t[b]
}

/// Enough knots for one span of a curve of degree `k`, in non-decreasing order.
pub open spec fn knots_well_formed(t: Seq<i64>, k: nat) -> bool {
    &&& t.len() >= 2 * k + 2
    &&& knots_sorted(t)
}

/// Parameter values in strictly increasing order.
pub open spec fn strictly_increasing(u: Seq<i64>) -> bool {
    forall|p: int| 0 <= p < u.len() - 1 ==> #[trigger] u[p] < u[p + 1]
}

/// Number of control points per channel.
pub open spec fn num_control_points(m: nat, k: nat) -> int {
    m - k - 1
}

/// The parameter moved into the domain `[t[k], t[m - k - 1]]`.
pub open spec fn clamp(t: Seq<i64>, k: nat, x: int) -> int {
    if x < t[k as int] {
        t[k as int] as int
    } else if x > t[t.len() - k - 1] {
        t[t.len() - k - 1] as int
    } else {
        x
    }
}

/// `i` is a span of the domain that holds `x`.
pub open spec fn in_span(t: Seq<i64>, k: nat, i: int, x: int) -> bool {
    &&& k <= i < t.len() - k - 1
    &&& t[i] <= x <= t[i + 1]
}

/// The first span of the domain that holds `x`.
pub open spec fn knot_span(t: Seq<i64>, k: nat, x: int) -> int {
    choose|i: int| in_span(t, k, i, x) && forall|j: int| k <= j < i ==> !in_span(t, k, j, x)
}

/// One linear interpolation of the recursion, `(1 - alpha) * a + alpha * b` with
/// `alpha = (x - lo) / (hi - lo)`, rounded down; a span of zero width takes `a`.
pub open spec fn blend(a: int, b: int, lo: int, hi: int, x: int) -> int {
    if hi == lo {
        a
    } else {
        ((hi - x) * a + (x - lo) * b) / (hi - lo)
    }
}

/// Value `j` of level `r` of the de Boor recursion at `x` in span `i`, starting
/// from the `k + 1` coefficients `d0`.
pub open spec fn deboor(t: Seq<i64>, k: nat, i: int, x: int, d0: Seq<i64>, r: nat, j: int) -> int
    decreases r,
{
    if r == 0 {
        d0[j] as int
    } else {
        blend(
            deboor(t, k, i, x, d0, (r - 1) as nat, j - 1),
            deboor(t, k, i, x, d0, (r - 1) as nat, j),
            t[j + i - k] as int,
            t[j + 1 + i - r] as int,
            x,
        )
    }
}

/// The `k + 1` coefficients of channel `dim` that act on span `i`.
pub open spec fn span_coefficients(c: Seq<i64>, m: nat, k: nat, dim: int, i: int) -> Seq<i64> {
    let base = dim * num_control_points(m, k);
    c.subrange(base + i - k, base + i + 1)
}

/// Channel `dim` of the curve point at parameter `x`.
pub open spec fn point_value(t: Seq<i64>, c: Seq<i64>, k: nat, dim: int, x: int) -> int {
    let a = clamp(t, k, x);
    let i = knot_span(t, k, a);
    deboor(t, k, i, a, span_coefficients(c, t.len(), k, dim, i), k, k as int)
}

/// The coefficient count that knots `t` ask for, saturated at `usize::MAX`.
pub open spec fn expected_coefficients(m: nat, k: nat, n: nat) -> usize {
    let e = n * num_control_points(m, k);
    if e <= usize::MAX {
        e as usize
    } else {
        usize::MAX
    }
}

/// The first reason, if any, to refuse evaluating the curve `(t, c)` of degree
/// `k` and dimension `n` at the parameters `u`.
pub open spec fn evaluation_error(t: Seq<i64>, c: Seq<i64>, k: nat, n: nat, u: Seq<i64>) -> Option<
    SplineError,
> {
    if t.len() >= k + 1 && c.len() != n * num_control_points(t.len(), k) {
        Some(
            SplineError::InsufficientCoefficients {
                expected: expected_coefficients(t.len(), k, n),
                actual: c.len() as usize,
            },
        )
    } else if !knots_well_formed(t, k) {
        Some(SplineError::MalformedCurve)
    } else if !strictly_increasing(u) {
        Some(SplineError::UnsortedInput)
    } else {
        None
    }
}

/// The flat sequence of curve points: point `p`, channel `dim` at `p * n + dim`.
pub open spec fn curve_points(t: Seq<i64>, c: Seq<i64>, k: nat, n: nat, u: Seq<i64>) -> Seq<int> {
    Seq::new(n * u.len(), |q: int| point_value(t, c, k, q % (n as int), u[q / (n as int)] as int))
}

/// What evaluating the curve `(t, c)` at `u` gives.
pub open spec fn evaluation(t: Seq<i64>, c: Seq<i64>, k: nat, n: nat, u: Seq<i64>) -> Result<
    Seq<int>,
    SplineError,
> {
    match evaluation_error(t, c, k, n, u) {
        Some(e) => Err(e),
        None => Ok(curve_points(t, c, k, n, u)),
    }
}

/// One blending step, with the product terms held in `i128`.
fn blend_step(a: i64, b: i64, lo: i64, hi: i64, x: i64) -> (r: i64)
    requires
        lo <= x <= hi,
    ensures
        r == blend(a as int, b as int, lo as int, hi as int, x as int),
{
    if hi == lo {
        return a;
    }
    let w: i128 = hi as i128 - lo as i128;
    let p: i128 = hi as i128 - x as i128;
    let q: i128 = x as i128 - lo as i128;
    let ghost lim: int = 0x8000_0000_0000_0000int;
    proof {
        assert(w * lim <= 0x8000_0000_0000_0000_0000_0000_0000_0000 - lim) by (nonlinear_arith)
            requires
                0 < w < 0x1_0000_0000_0000_0000,
                lim == 0x8000_0000_0000_0000,
        ;
        assert(-lim <= a < lim);
        assert(p * a <= p * lim && p * a >= -(p * lim)) by (nonlinear_arith)
            requires
                p >= 0,
                -lim <= a < lim,
        ;
        assert(q * b <= q * lim && q * b >= -(q * lim)) by (nonlinear_arith)
            requires
                q >= 0,
                -lim <= b < lim,
        ;
        assert(p * lim + q * lim == w * lim) by (nonlinear_arith)
            requires
                p + q == w,
        ;
    }
    let num: i128 = p * (a as i128) + q * (b as i128);
    proof {
        lemma_blend_between(a as int, b as int, p as int, q as int);
    }
    let r = num.checked_div_euclid(w).unwrap();
    r as i64
}

/// `(p * a + q * b) / (p + q)` lies between `a` and `b`.
proof fn lemma_blend_between(a: int, b: int, p: int, q: int)
    requires
        p >= 0,
        q >= 0,
        p + q > 0,
    ensures
        a <= b ==> a <= (p * a + q * b) / (p + q) <= b,
        b <= a ==> b <= (p * a + q * b) / (p + q) <= a,
{
    let w = p + q;
    let s = p * a + q * b;
    assert(a <= b ==> w * a <= s <= w * b) by (nonlinear_arith)
        requires
            p >= 0,
            q >= 0,
            w == p + q,
            s == p * a + q * b,
    ;
    assert(b <= a ==> w * b <= s <= w * a) by (nonlinear_arith)
        requires
            p >= 0,
            q >= 0,
            w == p + q,
            s == p * a + q * b,
    ;
    vstd::arithmetic::div_mod::lemma_fundamental_div_mod(s, w);
    let d = s / w;
    assert(s == w * d + s % w);
    assert(0 <= s % w < w);
    assert(a <= b ==> a <= d <= b) by (nonlinear_arith)
        requires
            w > 0,
            s == w * d + s % w,
            0 <= s % w < w,
            a <= b ==> w * a <= s <= w * b,
    ;
    assert(b <= a ==> b <= d <= a) by (nonlinear_arith)
        requires
            w > 0,
            s == w * d + s % w,
            0 <= s % w < w,
            b <= a ==> w * b <= s <= w * a,
    ;
}

/// A B-spline curve of degree `K` in `N` dimensions.
///
/// `t` holds the knots; `c` holds the coefficients as `N` blocks, one per
/// channel, each of `t.len() - K - 1` values.
pub struct SplineCurve<const K: usize, const N: usize> {
    pub t: Vec<i64>,
    pub c: Vec<i64>,
}

impl<const K: usize, const N: usize> SplineCurve<K, N> {
    /// A curve from its knots and coefficients; they are checked on evaluation.
    pub fn new(t: Vec<i64>, c: Vec<i64>) -> (r: Self)
        ensures
            r.t@ == t@,
            r.c@ == c@,
    {
        SplineCurve { t, c }
    }

    /// The knot vector.
    pub fn knots(&self) -> (r: &[i64])
        ensures
            r@ == self.t@,
    {
        self.t.as_slice()
    }

    /// The coefficients, channel after channel.
    pub fn coefficients(&self) -> (r: &[i64])
        ensures
            r@ == self.c@,
    {
        self.c.as_slice()
    }

    /// The curve points at the parameters `u`, flat: the `N` channels of the
    /// point at `u[p]` stand at `p * N .. (p + 1) * N`.
    ///
    /// Each parameter is first clamped into the domain `[t[K], t[m - K - 1]]`;
    /// the span cursor only moves forward, which relies on `u` increasing.
    /// A blending step over a span of zero width takes the left value.
    ///
    /// Refused, in this order: a coefficient count other than
    /// `N * (m - K - 1)`, a malformed knot vector, unsorted parameters. A
    /// refusal gives no points at all.
    pub fn evaluate(&self, u: &[i64]) -> (r: Result<Vec<i64>, SplineError>)
        ensures
            match r {
                Ok(v) => evaluation(self.t@, self.c@, K as nat, N as nat, u@) == Ok::<
                    Seq<int>,
                    SplineError,
                >(v@.map_values(|y: i64| y as int)),
                Err(e) => evaluation(self.t@, self.c@, K as nat, N as nat, u@) == Err::<
                    Seq<int>,
                    SplineError,
                >(e),
            },
    {
        let ghost t = self.t@;
        let ghost c = self.c@;
        let ghost k = K as nat;
        let ghost n = N as nat;
        let m: usize = self.t.len();
        if m > K {
            match N.checked_mul(m - K - 1) {
                None => {
                    return Err(
                        SplineError::InsufficientCoefficients {
                            expected: usize::MAX,
                            actual: self.c.len(),
                        },
                    );
                },
                Some(e) => {
                    if self.c.len() != e {
                        return Err(
                            SplineError::InsufficientCoefficients {
                                expected: e,
                                actual: self.c.len(),
                            },
                        );
                    }
                },
            }
        }
        if m / 2 <= K {
            return Err(SplineError::MalformedCurve);
        }
        assert(c.len() == N * (m - K - 1));
        let mut s: usize = 1;
        while s < m
            invariant
                1 <= s <= m,
                m >= 2 * K + 2,
                c == self.c@,
                c.len() == N * (m - K - 1),
                k == K,
                n == N,
                m == t.len(),
                t == self.t@,
                forall|a: int, b: int| 0 <= a <= b < s ==> #[trigger] t[a] <= #[trigger] t[b],
            decreases m - s,
        {
            if self.t[s - 1] > self.t[s] {
                assert(!knots_sorted(t)) by {
                    assert(t[s - 1] > t[s as int]);
                }
                return Err(SplineError::MalformedCurve);
            }
            s += 1;
        }
        let nc: usize = m - K - 1;
        let lo_knot = self.t[K];
        let hi_knot = self.t[nc];
        let mut d: Vec<i64> = Vec::new();
        while d.len() <= K
            invariant
                d@.len() <= K + 1,
                K + 1 <= m,
            decreases K + 1 - d@.len(),
        {
            d.push(0);
        }
        let mut v: Vec<i64> = Vec::new();
        let mut i: usize = K;
        let mut p: usize = 0;
        while p < u.len()
            invariant
                t == self.t@,
                c == self.c@,
                k == K,
                n == N,
                m == t.len(),
                nc == m - K - 1,
                knots_well_formed(t, k),
                c.len() == N * nc,
                lo_knot == t[K as int],
                hi_knot == t[nc as int],
                p <= u@.len(),
                K <= i < nc,
                d@.len() == K + 1,
                forall|q: int| 0 <= q < p - 1 ==> #[trigger] u@[q] < u@[q + 1],
                p == 0 ==> i == K,
                p > 0 ==> forall|j: int|
                    K <= j < i ==> #[trigger] t[j + 1] < clamp(t, k, u@[p - 1] as int),
                v@.len() == N * p,
                forall|q: int|
                    0 <= q < v@.len() ==> #[trigger] v@[q] == point_value(
                        t,
                        c,
                        k,
                        q % (n as int),
                        u@[q / (n as int)] as int,
                    ),
            decreases u.len() - p,
        {
            let x = u[p];
            if p > 0 && x <= u[p - 1] {
                return Err(SplineError::UnsortedInput);
            }
            let arg = if x < lo_knot {
                lo_knot
            } else if x > hi_knot {
                hi_knot
            } else {
                x
            };
            assert(arg == clamp(t, k, x as int));
            assert(lo_knot <= hi_knot);
            i = self.find_span(i, arg);
            let ghost before = v@;
            self.push_point(i, arg, &mut d, &mut v);
            proof {
                lemma_points_extended(t, c, k, n, u@, p as int, i as int, arg as int, before, v@);
            }
            assert(N * p + N == N * (p + 1)) by (nonlinear_arith);
            p += 1;
        }
        proof {
            let w = v@.map_values(|y: i64| y as int);
            assert(w =~= curve_points(t, c, k, n, u@));
        }
        Ok(v)
    }

    /// Moves the span cursor `i` forward to the first span that holds `arg`.
    fn find_span(&self, i: usize, arg: i64) -> (r: usize)
        requires
            knots_well_formed(self.t@, K as nat),
            K <= i < self.t@.len() - K - 1,
            self.t@[K as int] <= arg <= self.t@[self.t@.len() - K - 1],
            forall|j: int| K <= j < i ==> #[trigger] self.t@[j + 1] < arg,
        ensures
            i <= r,
            in_span(self.t@, K as nat, r as int, arg as int),
            knot_span(self.t@, K as nat, arg as int) == r,
            forall|j: int| K <= j < r ==> #[trigger] self.t@[j + 1] < arg,
    {
        let ghost t = self.t@;
        let ghost k = K as nat;
        let m: usize = self.t.len();
        let ghost old_i = i;
        let mut i = i;
        while !(self.t[i] <= arg && arg <= self.t[i + 1])
            invariant
                t == self.t@,
                m == t.len(),
                knots_well_formed(t, k),
                k == K,
                old_i <= i,
                K <= i < m - K - 1,
                t[K as int] <= arg <= t[m - K - 1],
                forall|j: int| K <= j < i ==> #[trigger] t[j + 1] < arg,
            decreases m - i,
        {
            assert(t[i as int] <= arg) by {
                if i > K {
                    assert(t[(i - 1) + 1] < arg);
                }
            }
            i += 1;
        }
        proof {
            assert forall|j: int| K <= j < i implies !in_span(t, k, j, arg as int) by {
                assert(t[j + 1] < arg);
            }
            lemma_knot_span_is(t, k, i as int, arg as int);
        }
        i
    }

    /// Appends the `N` channels of the point at `arg`, in span `i`, to `v`;
    /// `d` is the working buffer of the recursion.
    fn push_point(&self, i: usize, arg: i64, d: &mut Vec<i64>, v: &mut Vec<i64>)
        requires
            knots_sorted(self.t@),
            in_span(self.t@, K as nat, i as int, arg as int),
            self.c@.len() == N * num_control_points(self.t@.len(), K as nat),
            old(d)@.len() == K + 1,
        ensures
            final(d)@.len() == K + 1,
            final(v)@.len() == old(v)@.len() + N,
            forall|q: int| 0 <= q < old(v)@.len() ==> final(v)@[q] == old(v)@[q],
            forall|dim: int|
                0 <= dim < N ==> #[trigger] final(v)@[old(v)@.len() + dim] == deboor(
                    self.t@,
                    K as nat,
                    i as int,
                    arg as int,
                    span_coefficients(self.c@, self.t@.len(), K as nat, dim, i as int),
                    K as nat,
                    K as int,
                ),
    {
        let ghost t = self.t@;
        let ghost c = self.c@;
        let ghost k = K as nat;
        let ghost v0 = v@;
        let m: usize = self.t.len();
        let cl: usize = self.c.len();
        let nc: usize = m - K - 1;
        let mut dim: usize = 0;
        while dim < N
            invariant
                t == self.t@,
                c == self.c@,
                k == K,
                m == t.len(),
                cl == c.len(),
                nc == m - K - 1,
                knots_sorted(t),
                c.len() == N * nc,
                in_span(t, k, i as int, arg as int),
                d@.len() == K + 1,
                dim <= N,
                v@.len() == v0.len() + dim,
                forall|q: int| 0 <= q < v0.len() ==> v@[q] == v0[q],
                forall|dd: int|
                    0 <= dd < dim ==> #[trigger] v@[v0.len() + dd] == deboor(
                        t,
                        k,
                        i as int,
                        arg as int,
                        span_coefficients(c, m as nat, k, dd, i as int),
                        k,
                        k as int,
                    ),
            decreases N - dim,
        {
            assert((dim + 1) * nc <= N * nc) by (nonlinear_arith)
                requires
                    dim < N,
            ;
            assert(dim * nc + nc == (dim + 1) * nc) by (nonlinear_arith);
            let base: usize = dim * nc;
            let mut j: usize = 0;
            while j <= K
                invariant
                    c == self.c@,
                    cl == c.len(),
                    base + nc <= c.len(),
                    K <= i < nc,
                    j <= K + 1,
                    d@.len() == K + 1,
                    forall|jj: int| 0 <= jj < j ==> #[trigger] d@[jj] == c[base + i - K + jj],
                decreases K + 1 - j,
            {
                d[j] = self.c[base + i - K + j];
                j += 1;
            }
            assert(d@ =~= span_coefficients(c, m as nat, k, dim as int, i as int));
            let y = self.deboor(i, arg, d);
            v.push(y);
            dim += 1;
        }
    }

    /// Runs the de Boor recursion in place on the `K + 1` values of `d` for
    /// the parameter `x` in span `i`, and returns the blended value.
    pub(crate) fn deboor(&self, i: usize, x: i64, d: &mut Vec<i64>) -> (r: i64)
        requires
            knots_sorted(self.t@),
            in_span(self.t@, K as nat, i as int, x as int),
            old(d)@.len() == K + 1,
        ensures
            r == deboor(self.t@, K as nat, i as int, x as int, old(d)@, K as nat, K as int),
            final(d)@.len() == K + 1,
    {
        let ghost t = self.t@;
        let ghost d0 = d@;
        let ghost k = K as nat;
        let m: usize = self.t.len();
        let mut r: usize = 1;
        while r <= K
            invariant
                1 <= r <= K + 1,
                t == self.t@,
                m == t.len(),
                k == K,
                knots_sorted(t),
                in_span(t, k, i as int, x as int),
                d@.len() == K + 1,
                forall|j: int| r - 1 <= j <= K ==> #[trigger] d@[j] == deboor(t, k, i as int, x as int, d0, (r - 1) as nat, j),
            decreases K + 1 - r,
        {
            let mut j: usize = K;
            while j >= r
                invariant
                    1 <= r <= K,
                    r - 1 <= j <= K,
                    t == self.t@,
                    m == t.len(),
                    k == K,
                    knots_sorted(t),
                    in_span(t, k, i as int, x as int),
                    d@.len() == K + 1,
                    forall|jj: int| j < jj <= K ==> #[trigger] d@[jj] == deboor(t, k, i as int, x as int, d0, r as nat, jj),
                    forall|jj: int| r - 1 <= jj <= j ==> #[trigger] d@[jj] == deboor(t, k, i as int, x as int, d0, (r - 1) as nat, jj),
                decreases j,
            {
                let lo = self.t[i - K + j];
                let hi = self.t[i + j + 1 - r];
                assert(t[i - k + j] <= t[i as int]);
                assert(t[i + 1] <= t[i + j + 1 - r]);
                let v = blend_step(d[j - 1], d[j], lo, hi, x);
                d[j] = v;
                j -= 1;
            }
            r += 1;
        }
        d[K]
    }
}

/// Appending the channels of the point at `u[p]` extends the points of
/// `u[..p]` to those of `u[..p + 1]`.
proof fn lemma_points_extended(
    t: Seq<i64>,
    c: Seq<i64>,
    k: nat,
    n: nat,
    u: Seq<i64>,
    p: int,
    i: int,
    arg: int,
    before: Seq<i64>,
    after: Seq<i64>,
)
    requires
        0 <= p < u.len(),
        arg == clamp(t, k, u[p] as int),
        knot_span(t, k, arg) == i,
        before.len() == n * p,
        after.len() == before.len() + n,
        forall|q: int| 0 <= q < before.len() ==> after[q] == before[q],
        forall|q: int|
            0 <= q < before.len() ==> #[trigger] before[q] == point_value(
                t,
                c,
                k,
                q % (n as int),
                u[q / (n as int)] as int,
            ),
        forall|dim: int|
            0 <= dim < n ==> #[trigger] after[before.len() + dim] == deboor(
                t,
                k,
                i,
                arg,
                span_coefficients(c, t.len(), k, dim, i),
                k,
                k as int,
            ),
    ensures
        forall|q: int|
            0 <= q < after.len() ==> #[trigger] after[q] == point_value(
                t,
                c,
                k,
                q % (n as int),
                u[q / (n as int)] as int,
            ),
{
    assert forall|q: int| 0 <= q < after.len() implies #[trigger] after[q] == point_value(
        t,
        c,
        k,
        q % (n as int),
        u[q / (n as int)] as int,
    ) by {
        if q >= before.len() {
            let dim = q - before.len();
            lemma_flat_index(n as int, p, dim);
            assert(after[before.len() + dim] == deboor(
                t,
                k,
                i,
                arg,
                span_coefficients(c, t.len(), k, dim, i),
                k,
                k as int,
            ));
        } else {
            assert(after[q] == before[q]);
        }
    }
}

/// The first span that holds `x` is the span `i` before which none holds it.
proof fn lemma_knot_span_is(t: Seq<i64>, k: nat, i: int, x: int)
    requires
        in_span(t, k, i, x),
        forall|j: int| k <= j < i ==> !in_span(t, k, j, x),
    ensures
        knot_span(t, k, x) == i,
{
    let s = knot_span(t, k, x);
    assert(in_span(t, k, s, x) && forall|j: int| k <= j < s ==> !in_span(t, k, j, x));
    if s < i {
        assert(!in_span(t, k, s, x));
    } else if s > i {
        assert(!in_span(t, k, i, x));
    }
}

/// Position `p * n + dim` of a flat sequence is channel `dim` of point `p`.
proof fn lemma_flat_index(n: int, p: int, dim: int)
    requires
        0 <= dim < n,
        0 <= p,
    ensures
        (n * p + dim) % n == dim,
        (n * p + dim) / n == p,
{
    assert(n * p == p * n) by (nonlinear_arith);
    vstd::arithmetic::div_mod::lemma_fundamental_div_mod_converse(n * p + dim, n, p, dim);
}

/// Length of channel `a` of a flat sequence of length `len` in `n` channels.
pub open spec fn axis_len(len: nat, n: nat, a: int) -> int {
    (len + n - 1 - a) / (n as int)
}

/// Channel `a` of the flat sequence `flat` in `n` channels: every `n`-th value,
/// starting at `a`.
pub open spec fn axis(flat: Seq<i64>, n: nat, a: int) -> Seq<i64> {
    Seq::new(axis_len(flat.len(), n, a) as nat, |g: int| flat[g * n + a])
}

/// The channels of `flat` side by side.
pub open spec fn transposed(flat: Seq<i64>, n: nat) -> Seq<Seq<i64>> {
    Seq::new(n, |a: int| axis(flat, n, a))
}

/// The channels `axes`, all of the length of the first, merged back into one
/// flat sequence, point after point.
pub open spec fn interleave(axes: Seq<Seq<i64>>) -> Seq<i64> {
    let n = axes.len();
    let m = if n == 0 {
        0
    } else {
        axes[0].len()
    };
    Seq::new(n * m, |q: int| axes[q % (n as int)][q / (n as int)])
}

/// Splits a flat sequence of points in `n` channels into one sequence per
/// channel: `[x0, y0, x1, y1, ..]` gives `[[x0, x1, ..], [y0, y1, ..]]`. A last
/// incomplete point gives its values to the first channels.
pub fn transpose(xyn: &[i64], n: usize) -> (r: Vec<Vec<i64>>)
    requires
        n > 0,
    ensures
        r@.len() == n,
        forall|a: int| 0 <= a < n ==> (#[trigger] r@[a])@ == axis(xyn@, n as nat, a),
{
    let len: usize = xyn.len();
    let mut out: Vec<Vec<i64>> = Vec::new();
    let mut a: usize = 0;
    while a < n
        invariant
            len == xyn@.len(),
            a <= n,
            out@.len() == a,
            forall|b: int| 0 <= b < a ==> (#[trigger] out@[b])@ == axis(xyn@, n as nat, b),
        decreases n - a,
    {
        let mut col: Vec<i64> = Vec::new();
        let mut idx: usize = a;
        assert(col@.len() * n == 0);
        while idx < len
            invariant
                len == xyn@.len(),
                a < n,
                idx >= len ==> col@.len() * n + a >= len,
                idx < len ==> idx == col@.len() * n + a,
                col@.len() > 0 ==> (col@.len() - 1) * n + a < len,
                forall|g: int| 0 <= g < col@.len() ==> #[trigger] col@[g] == xyn@[g * n + a],
            decreases len - idx,
        {
            proof {
                assert((col@.len() + 1 - 1) * n + a == idx) by (nonlinear_arith)
                    requires
                        idx == col@.len() * n + a,
                ;
            }
            col.push(xyn[idx]);
            if len - idx <= n {
                idx = len;
            } else {
                idx += n;
            }
            assert(col@.len() * n == (col@.len() - 1) * n + n) by (nonlinear_arith);
        }
        proof {
            lemma_axis_len(len as int, n as int, a as int, col@.len() as int);
        }
        assert(col@ =~= axis(xyn@, n as nat, a as int));
        out.push(col);
        a += 1;
    }
    out
}

/// A count `g` of values at `a, a + n, ..` that ends just past `len` is the
/// length of channel `a`.
proof fn lemma_axis_len(len: int, n: int, a: int, g: int)
    requires
        0 <= a < n,
        0 <= g,
        len >= 0,
        g * n + a >= len,
        g > 0 ==> (g - 1) * n + a < len,
    ensures
        axis_len(len as nat, n as nat, a) == g,
{
    let x = len + n - 1 - a;
    let r = x - g * n;
    assert(0 <= r < n) by (nonlinear_arith)
        requires
            0 <= a < n,
            0 <= g,
            len >= 0,
            g * n + a >= len,
            g > 0 ==> (g - 1) * n + a < len,
            r == len + n - 1 - a - g * n,
    ;
    vstd::arithmetic::div_mod::lemma_fundamental_div_mod_converse(x, n, g, r);
}

/// Evaluation depends on the knots, the coefficients and the parameters alone:
/// equal inputs give equal results.
pub proof fn lemma_evaluation_deterministic(
    t1: Seq<i64>,
    c1: Seq<i64>,
    u1: Seq<i64>,
    t2: Seq<i64>,
    c2: Seq<i64>,
    u2: Seq<i64>,
    k: nat,
    n: nat,
)
    requires
        t1 == t2,
        c1 == c2,
        u1 == u2,
    ensures
        evaluation(t1, c1, k, n, u1) == evaluation(t2, c2, k, n, u2),
{
}

/// A parameter below the domain gives the point at the domain's start.
pub proof fn lemma_clamped_below(t: Seq<i64>, c: Seq<i64>, k: nat, dim: int, x: int)
    requires
        knots_well_formed(t, k),
        x < t[k as int],
    ensures
        point_value(t, c, k, dim, x) == point_value(t, c, k, dim, t[k as int] as int),
{
    assert(t[k as int] <= t[t.len() - k - 1]);
}

/// A parameter above the domain gives the point at the domain's end.
pub proof fn lemma_clamped_above(t: Seq<i64>, c: Seq<i64>, k: nat, dim: int, x: int)
    requires
        knots_well_formed(t, k),
        x > t[t.len() - k - 1],
    ensures
        point_value(t, c, k, dim, x) == point_value(t, c, k, dim, t[t.len() - k - 1] as int),
{
    assert(t[k as int] <= t[t.len() - k - 1]);
}

/// On a valid curve, parameters with a neighbouring pair out of strictly
/// increasing order are refused as unsorted, and give no points.
pub proof fn lemma_unsorted_refused(t: Seq<i64>, c: Seq<i64>, k: nat, n: nat, u: Seq<i64>, p: int)
    requires
        knots_well_formed(t, k),
        c.len() == n * num_control_points(t.len(), k),
        0 <= p < u.len() - 1,
        u[p] >= u[p + 1],
    ensures
        evaluation(t, c, k, n, u) == Err::<Seq<int>, SplineError>(SplineError::UnsortedInput),
{
    assert(!strictly_increasing(u));
}

/// A successful evaluation gives `n` values per parameter.
pub proof fn lemma_output_shape(t: Seq<i64>, c: Seq<i64>, k: nat, n: nat, u: Seq<i64>)
    ensures
        match evaluation(t, c, k, n, u) {
            Ok(v) => v.len() == n * u.len(),
            Err(_) => true,
        },
{
}

/// Too few coefficients for the knots are refused, with the expected and the
/// actual count, and give no points.
pub proof fn lemma_short_coefficients_refused(t: Seq<i64>, c: Seq<i64>, k: nat, n: nat, u: Seq<i64>)
    requires
        t.len() >= k + 1,
        c.len() < n * num_control_points(t.len(), k),
    ensures
        evaluation(t, c, k, n, u) == Err::<Seq<int>, SplineError>(
            SplineError::InsufficientCoefficients {
                expected: expected_coefficients(t.len(), k, n),
                actual: c.len() as usize,
            },
        ),
{
}

/// Splitting a flat sequence of whole points into its channels and merging
/// them back gives the sequence again.
pub proof fn lemma_transpose_round_trip(flat: Seq<i64>, n: nat)
    requires
        n > 0,
        flat.len() % n == 0,
    ensures
        interleave(transposed(flat, n)) == flat,
{
    let m: int = flat.len() as int / n as int;
    vstd::arithmetic::div_mod::lemma_fundamental_div_mod(flat.len() as int, n as int);
    assert(flat.len() == n * m);
    let axes = transposed(flat, n);
    assert(m >= 0 && (m - 1) * n + 0 < flat.len() && m * n + 0 >= flat.len()) by (nonlinear_arith)
        requires
            flat.len() == n * m,
            n > 0,
    ;
    lemma_axis_len(flat.len() as int, n as int, 0, m);
    assert(axes[0].len() == m);
    assert forall|q: int| 0 <= q < flat.len() implies #[trigger] interleave(axes)[q] == flat[q] by {
        let a = q % (n as int);
        let g = q / (n as int);
        vstd::arithmetic::div_mod::lemma_fundamental_div_mod(q, n as int);
        assert(0 <= a < n);
        assert(0 <= g < m) by (nonlinear_arith)
            requires
                q == n * g + a,
                0 <= q < n * m,
                0 <= a < n,
        ;
        assert((m - 1) * n + a < flat.len() && m * n + a >= flat.len()) by (nonlinear_arith)
            requires
                flat.len() == n * m,
                0 <= a < n,
        ;
        lemma_axis_len(flat.len() as int, n as int, a, m);
        assert(g * n + a == q) by (nonlinear_arith)
            requires
                q == n * g + a,
        ;
    }
    assert(interleave(axes) =~= flat);
}

} // verus!
