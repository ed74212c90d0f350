//! Why a colour survives the way from CIE XYZ to CIE L*a*b* and back.
use crate::color_space::{lemma_d50_raw, lemma_d65_raw, WhitePoint, D50, D65};
use crate::fixed::{distance, floor_div, ONE_RAW};
use crate::lab::{lab_inverse_response, lab_to_xyz};
use crate::power::{lemma_cube_order, lemma_pow3};
use crate::root::{lemma_floor_root_exists, lemma_floor_root_is, lemma_floor_root_monotone};
use crate::xyz::{lab_response, xyz_to_lab};
use vstd::arithmetic::power::pow;
use vstd::prelude::*;

verus! {

/// A tristimulus value that comes back from CIE L*a*b*: between zero and
/// twice that of white, and on one of the two stretches on which the response
/// and its inverse agree. These are the values up to one raw unit below
/// 54/707281 of white, where both are linear, and those from one raw unit
/// above 216/24389 of white, where both are cubic. In between, the response
/// is still linear, but its cube is above 216/24389, and the inverse cubes it.
pub open spec fn survives_lab(t: int, white: int) -> bool {
    &&& 0 <= t <= 2 * white
    &&& (707281 * (t + 1) <= 54 * white || 24389 * (t - 1) >= 216 * white)
}

/// A white whose tristimulus value is between one half and two.
pub open spec fn is_near_one(white: int) -> bool {
    ONE_RAW <= 2 * white <= 4 * ONE_RAW
}

/// The two standard whites are near one.
pub proof fn lemma_standard_whites_are_near_one()
    ensures
        is_near_one(D65::xn()) && is_near_one(D65::yn()) && is_near_one(D65::zn()),
        is_near_one(D50::xn()) && is_near_one(D50::yn()) && is_near_one(D50::zn()),
{
    lemma_d65_raw();
    lemma_d50_raw();
}

/// What the response is, on either segment: with `r` the response to `t / w`
/// times `g`, on the cubic segment `r^3 w <= t (g ONE)^3 < (r + 1)^3 w`, and on
/// the linear one `783 w r <= g ONE (707281 t + 108 w) < 783 w (r + 1)`.
pub proof fn lemma_response_shape(t: int, w: int, g: int)
    requires
        0 < w,
        survives_lab(t, w),
        1 <= g <= 1000,
    ensures
        ({
            let r = lab_response(t, w, g);
            let unit = g * ONE_RAW;
            &&& 0 <= r <= 2 * unit
            &&& 24389 * t > 216 * w ==> {
                &&& r * r * r * w <= t * (unit * unit * unit)
                &&& t * (unit * unit * unit) < (r + 1) * (r + 1) * (r + 1) * w
            }
            &&& 24389 * t <= 216 * w ==> {
                &&& 783 * w * r <= unit * (707281 * t + 108 * w)
                &&& unit * (707281 * t + 108 * w) < 783 * w * (r + 1)
            }
        }),
{
    let r = lab_response(t, w, g);
    let unit = g * ONE_RAW;
    let u3 = unit * unit * unit;
    assert(unit > 0);
    assert(u3 > 0) by (nonlinear_arith)
        requires
            unit > 0,
            u3 == unit * unit * unit,
    ;
    if 24389 * t > 216 * w {
        lemma_pow3(unit);
        assert(t * u3 >= 0) by (nonlinear_arith)
            requires
                t >= 0,
                u3 > 0,
        ;
        lemma_floor_root_exists(3, t * u3, w);
        lemma_pow3(r);
        lemma_pow3(r + 1);
        let r3 = r * r * r;
        if r > 2 * unit {
            lemma_cube_order(r, 2 * unit);
            assert((2 * unit) * (2 * unit) * (2 * unit) == 8 * u3) by (nonlinear_arith)
                requires
                    u3 == unit * unit * unit,
            ;
            assert(false) by (nonlinear_arith)
                requires
                    r3 > 8 * u3,
                    r3 * w <= t * u3,
                    0 <= t <= 2 * w,
                    w > 0,
                    u3 > 0,
            ;
        }
    } else {
        let top = unit * (707281 * t + 108 * w);
        let den = 783 * w;
        assert(r == top / den);
        assert(den * r <= top < den * r + den) by (nonlinear_arith)
            requires
                r == top / den,
                den > 0,
        ;
        assert(783 * w * r == den * r && 783 * w * (r + 1) == den * r + den) by (nonlinear_arith)
            requires
                den == 783 * w,
        ;
        assert(top >= 0 && top <= unit * (162 * w)) by (nonlinear_arith)
            requires
                top == unit * (707281 * t + 108 * w),
                unit > 0,
                0 <= t,
                707281 * (t + 1) <= 54 * w,
        ;
        assert(0 <= r <= 2 * unit) by (nonlinear_arith)
            requires
                den * r <= top < den * r + den,
                0 <= top <= unit * (162 * w),
                den == 783 * w,
                w > 0,
                unit > 0,
        ;
    }
}

/// The responses to one ratio at two gains agree: where `alpha ga` is
/// `beta gb`, `alpha` times the first response and `beta` times the second
/// differ by less than `alpha` one way and `beta` the other.
pub proof fn lemma_responses_agree(t: int, w: int, ga: int, gb: int, alpha: int, beta: int)
    requires
        0 < w,
        survives_lab(t, w),
        1 <= ga <= 1000,
        1 <= gb <= 1000,
        1 <= alpha,
        1 <= beta,
        alpha * ga == beta * gb,
    ensures
        -alpha < alpha * lab_response(t, w, ga) - beta * lab_response(t, w, gb) < beta,
{
    let ra = lab_response(t, w, ga);
    let rb = lab_response(t, w, gb);
    let ua = ga * ONE_RAW;
    let ub = gb * ONE_RAW;
    lemma_response_shape(t, w, ga);
    lemma_response_shape(t, w, gb);
    assert(alpha * ua == beta * ub) by (nonlinear_arith)
        requires
            alpha * ga == beta * gb,
            ua == ga * ONE_RAW,
            ub == gb * ONE_RAW,
    ;
    if 24389 * t > 216 * w {
        lemma_scaled_cubes(ra, ua, alpha, rb, ub, beta, t, w);
        lemma_scaled_cubes(rb, ub, beta, ra, ua, alpha, t, w);
    } else {
        let line = 707281 * t + 108 * w;
        lemma_scaled_lines(ra, ua, alpha, rb, ub, beta, line, w);
        lemma_scaled_lines(rb, ub, beta, ra, ua, alpha, line, w);
    }
    assert(beta * (rb + 1) == beta * rb + beta) by (nonlinear_arith);
    assert(alpha * (ra + 1) == alpha * ra + alpha) by (nonlinear_arith);
}

/// From `ra^3 w <= t ua^3` and `t ub^3 < (rb + 1)^3 w` with
/// `alpha ua == beta ub`: `alpha ra < beta (rb + 1)`.
proof fn lemma_scaled_cubes(
    ra: int,
    ua: int,
    alpha: int,
    rb: int,
    ub: int,
    beta: int,
    t: int,
    w: int,
)
    requires
        w > 0,
        t >= 0,
        alpha >= 1,
        beta >= 1,
        alpha * ua == beta * ub,
        ra * ra * ra * w <= t * (ua * ua * ua),
        t * (ub * ub * ub) < (rb + 1) * (rb + 1) * (rb + 1) * w,
    ensures
        alpha * ra < beta * (rb + 1),
{
    let x = alpha * ra;
    let y = beta * (rb + 1);
    let m = alpha * ua;
    let a3 = alpha * alpha * alpha;
    let b3 = beta * beta * beta;
    let ra3w = ra * ra * ra * w;
    let rb3w = (rb + 1) * (rb + 1) * (rb + 1) * w;
    let tua = t * (ua * ua * ua);
    let tub = t * (ub * ub * ub);
    assert(a3 > 0 && b3 > 0) by (nonlinear_arith)
        requires
            alpha >= 1,
            beta >= 1,
            a3 == alpha * alpha * alpha,
            b3 == beta * beta * beta,
    ;
    assert(x * x * x * w == a3 * ra3w) by (nonlinear_arith)
        requires
            x == alpha * ra,
            a3 == alpha * alpha * alpha,
            ra3w == ra * ra * ra * w,
    ;
    assert(y * y * y * w == b3 * rb3w) by (nonlinear_arith)
        requires
            y == beta * (rb + 1),
            b3 == beta * beta * beta,
            rb3w == (rb + 1) * (rb + 1) * (rb + 1) * w,
    ;
    assert(a3 * tua == t * (m * m * m)) by (nonlinear_arith)
        requires
            m == alpha * ua,
            a3 == alpha * alpha * alpha,
            tua == t * (ua * ua * ua),
    ;
    assert(b3 * tub == t * (m * m * m)) by (nonlinear_arith)
        requires
            m == beta * ub,
            b3 == beta * beta * beta,
            tub == t * (ub * ub * ub),
    ;
    assert(a3 * ra3w <= a3 * tua) by (nonlinear_arith)
        requires
            ra3w <= tua,
            a3 > 0,
    ;
    assert(b3 * tub < b3 * rb3w) by (nonlinear_arith)
        requires
            tub < rb3w,
            b3 > 0,
    ;
    let x3 = x * x * x;
    let y3 = y * y * y;
    assert(x3 < y3) by (nonlinear_arith)
        requires
            x3 * w < y3 * w,
            w > 0,
    ;
    lemma_cube_order(x, y);
    lemma_cube_order(y, x);
}

/// From `783 w ra <= ua line` and `ub line < 783 w (rb + 1)` with
/// `alpha ua == beta ub`: `alpha ra < beta (rb + 1)`.
proof fn lemma_scaled_lines(
    ra: int,
    ua: int,
    alpha: int,
    rb: int,
    ub: int,
    beta: int,
    line: int,
    w: int,
)
    requires
        w > 0,
        alpha >= 1,
        beta >= 1,
        alpha * ua == beta * ub,
        783 * w * ra <= ua * line,
        ub * line < 783 * w * (rb + 1),
    ensures
        alpha * ra < beta * (rb + 1),
{
    let x = alpha * ra;
    let y = beta * (rb + 1);
    let m = alpha * ua;
    assert(783 * w * x <= m * line) by (nonlinear_arith)
        requires
            x == alpha * ra,
            m == alpha * ua,
            alpha >= 1,
            783 * w * ra <= ua * line,
    ;
    assert(m * line < 783 * w * y) by (nonlinear_arith)
        requires
            y == beta * (rb + 1),
            m == beta * ub,
            beta >= 1,
            ub * line < 783 * w * (rb + 1),
    ;
    assert(x < y) by (nonlinear_arith)
        requires
            783 * w * x < 783 * w * y,
            w > 0,
    ;
}

/// The inverse response on its cubic branch. `a` is a number whose cube
/// brackets `t / w` on the scale `q`, with the step `k`, and `p` is near `a`:
/// then the cube of `p / q` is above 216/24389, and `w` times that cube,
/// rounded down, is `t` or `t - 1`.
pub proof fn lemma_inverse_cubic(a: int, p: int, q: int, k: int, lo: int, hi: int, w: int, t: int)
    requires
        1 <= k,
        0 <= lo,
        0 <= hi,
        q >= ONE_RAW * (56 * (k + lo) + 32 * hi),
        0 < w <= 2 * ONE_RAW,
        0 <= t <= 2 * w,
        24389 * (t - 1) >= 216 * w,
        a >= 0,
        a * a * a * w <= t * (q * q * q),
        t * (q * q * q) < (a + k) * (a + k) * (a + k) * w,
        a - lo <= p <= a + hi,
    ensures
        24389 * (p * p * p) > 216 * (q * q * q),
        t - 1 <= (p * p * p * w) / (q * q * q) <= t,
{
    let s = ONE_RAW as int;
    let q2 = q * q;
    let q3 = q * q * q;
    let a3 = a * a * a;
    let b = a + k;
    let b3 = b * b * b;
    let p_cubed = p * p * p;
    let e = k + lo;
    assert(q >= 56 * s * e && q >= 32 * s * hi && q >= 56 * s) by (nonlinear_arith)
        requires
            q >= s * (56 * (k + lo) + 32 * hi),
            e == k + lo,
            k >= 1,
            lo >= 0,
            hi >= 0,
            s > 0,
    ;
    assert(q2 > 0 && q3 > 0 && q3 == q2 * q) by (nonlinear_arith)
        requires
            q > 0,
            q2 == q * q,
            q3 == q * q * q,
    ;
    // a <= 2 q
    if a > 2 * q {
        lemma_cube_order(a, 2 * q);
        assert((2 * q) * (2 * q) * (2 * q) == 8 * q3) by (nonlinear_arith)
            requires
                q3 == q * q * q,
        ;
        assert(false) by (nonlinear_arith)
            requires
                a3 > 8 * q3,
                a3 * w <= t * q3,
                0 <= t <= 2 * w,
                w > 0,
                q3 > 0,
        ;
    }
    // the steps are small beside q
    let eq2 = e * q2;
    let hq2 = hi * q2;
    let seq2 = s * eq2;
    let shq2 = s * hq2;
    assert(56 * seq2 <= q3 && eq2 >= 0 && 56 * e <= q) by (nonlinear_arith)
        requires
            56 * s * e <= q,
            q2 == q * q,
            q3 == q2 * q,
            eq2 == e * q2,
            seq2 == s * eq2,
            e >= 0,
            q2 > 0,
            s > 0,
    ;
    assert(32 * shq2 <= q3 && hq2 >= 0 && 32 * hi <= q) by (nonlinear_arith)
        requires
            32 * s * hi <= q,
            q2 == q * q,
            q3 == q2 * q,
            hq2 == hi * q2,
            shq2 == s * hq2,
            hi >= 0,
            q2 > 0,
            s > 0,
    ;
    assert(eq2 * w <= 2 * seq2) by (nonlinear_arith)
        requires
            0 < w <= 2 * s,
            eq2 >= 0,
            seq2 == s * eq2,
    ;
    assert(hq2 * w <= 2 * shq2) by (nonlinear_arith)
        requires
            0 < w <= 2 * s,
            hq2 >= 0,
            shq2 == s * hq2,
    ;
    assert(b3 * w == (a + k) * (a + k) * (a + k) * w);
    assert(a3 * w == a * a * a * w);
    // above the breakpoint
    if 29 * p <= 6 * q {
        let u = 6 * q + 29 * e;
        let u3 = u * u * u;
        lemma_cube_order(29 * b, u);
        assert((29 * b) * (29 * b) * (29 * b) == 24389 * b3) by (nonlinear_arith)
            requires
                b3 == b * b * b,
        ;
        assert(u3 <= 216 * q3 + 42659 * (e * q2)) by (nonlinear_arith)
            requires
                u == 6 * q + 29 * e,
                u3 == u * u * u,
                q2 == q * q,
                q3 == q2 * q,
                0 <= e <= q,
                q > 0,
        ;
        assert(24389 * b3 <= 216 * q3 + 42659 * eq2);
        assert(24389 * (b3 * w) <= 216 * (q3 * w) + 42659 * (eq2 * w)) by (nonlinear_arith)
            requires
                24389 * b3 <= 216 * q3 + 42659 * eq2,
                w > 0,
        ;
        assert(24389 * (t * q3) >= 216 * (q3 * w) + 24389 * q3) by (nonlinear_arith)
            requires
                24389 * (t - 1) >= 216 * w,
                q3 > 0,
        ;
        assert(false);
    }
    lemma_cube_order(29 * p, 6 * q);
    assert((29 * p) * (29 * p) * (29 * p) == 24389 * p_cubed) by (nonlinear_arith)
        requires
            p_cubed == p * p * p,
    ;
    assert((6 * q) * (6 * q) * (6 * q) == 216 * q3) by (nonlinear_arith)
        requires
            q3 == q * q * q,
    ;
    // not above t
    let c = a + hi;
    let c3 = c * c * c;
    lemma_cube_order(p, c);
    assert(p_cubed <= c3);
    let aa = a * a;
    let ah = a * hi;
    let hh = hi * hi;
    let grow = 3 * aa + 3 * ah + hh;
    assert(c3 == a3 + hi * grow) by (nonlinear_arith)
        requires
            c == a + hi,
            c3 == c * c * c,
            a3 == a * a * a,
            grow == 3 * (a * a) + 3 * (a * hi) + hi * hi,
    ;
    assert(0 <= aa <= 4 * q2) by (nonlinear_arith)
        requires
            aa == a * a,
            q2 == q * q,
            0 <= a <= 2 * q,
    ;
    assert(0 <= 16 * ah <= q2) by (nonlinear_arith)
        requires
            ah == a * hi,
            q2 == q * q,
            0 <= a <= 2 * q,
            0 <= 32 * hi <= q,
    ;
    assert(0 <= 1024 * hh <= q2) by (nonlinear_arith)
        requires
            hh == hi * hi,
            q2 == q * q,
            0 <= 32 * hi <= q,
    ;
    assert(grow <= 13 * q2);
    assert(hi * grow <= 13 * hq2) by (nonlinear_arith)
        requires
            grow <= 13 * q2,
            hi >= 0,
            hq2 == hi * q2,
    ;
    assert(c3 <= a3 + 13 * hq2);
    assert(p_cubed * w <= a3 * w + 13 * (hq2 * w)) by (nonlinear_arith)
        requires
            p_cubed <= a3 + 13 * hq2,
            w > 0,
    ;
    assert(p_cubed * w < (t + 1) * q3) by (nonlinear_arith)
        requires
            p_cubed * w <= a3 * w + 13 * (hq2 * w),
            hq2 * w <= 2 * shq2,
            32 * shq2 <= q3,
            a3 * w <= t * q3,
            q3 > 0,
    ;
    // not below t - 1
    let d = b - e;
    let d3 = d * d * d;
    lemma_cube_order(d, p);
    assert(d3 <= p_cubed);
    assert(b <= 3 * q);
    let bb = b * b;
    let be = b * e;
    let ee = e * e;
    let drop = 3 * bb - 3 * be + ee;
    assert(d3 == b3 - e * drop) by (nonlinear_arith)
        requires
            d == b - e,
            d3 == d * d * d,
            b3 == b * b * b,
            drop == 3 * (b * b) - 3 * (b * e) + e * e,
    ;
    assert(0 <= bb <= 9 * q2) by (nonlinear_arith)
        requires
            bb == b * b,
            q2 == q * q,
            0 <= b <= 3 * q,
    ;
    assert(0 <= be) by (nonlinear_arith)
        requires
            be == b * e,
            0 <= b,
            0 <= e,
    ;
    assert(0 <= 3136 * ee <= q2) by (nonlinear_arith)
        requires
            ee == e * e,
            q2 == q * q,
            0 <= 56 * e <= q,
    ;
    assert(drop <= 28 * q2);
    assert(e * drop <= 28 * eq2) by (nonlinear_arith)
        requires
            drop <= 28 * q2,
            e >= 0,
            eq2 == e * q2,
    ;
    assert(d3 >= b3 - 28 * eq2);
    assert(p_cubed * w >= b3 * w - 28 * (eq2 * w)) by (nonlinear_arith)
        requires
            p_cubed >= b3 - 28 * eq2,
            w > 0,
    ;
    assert(p_cubed * w >= (t - 1) * q3) by (nonlinear_arith)
        requires
            p_cubed * w >= b3 * w - 28 * (eq2 * w),
            eq2 * w <= 2 * seq2,
            56 * seq2 <= q3,
            t * q3 < b3 * w,
            q3 > 0,
    ;
    let n = p * p * p * w;
    assert(n == p_cubed * w);
    assert(t - 1 <= n / q3 <= t) by (nonlinear_arith)
        requires
            (t - 1) * q3 <= n,
            n < (t + 1) * q3,
            q3 > 0,
    ;
}

/// The inverse response on its linear branch. `a` is the response to
/// `t / w` on its linear segment, on the scale `q` and with the step `k`, and
/// `p` is near `a`: then the cube of `p / q` is not above 216/24389, and the
/// inverse, rounded down, is `t` or `t - 1`.
pub proof fn lemma_inverse_linear(a: int, p: int, q: int, k: int, lo: int, hi: int, w: int, t: int)
    requires
        1 <= k,
        0 <= lo,
        0 <= hi,
        q >= ONE_RAW * (56 * (k + lo) + 32 * hi),
        0 < w <= 2 * ONE_RAW,
        0 <= t,
        707281 * (t + 1) <= 54 * w,
        783 * w * a <= q * (707281 * t + 108 * w),
        q * (707281 * t + 108 * w) < 783 * w * (a + k),
        a - lo <= p <= a + hi,
    ensures
        !(24389 * (p * p * p) > 216 * (q * q * q)),
        t - 1 <= floor_div(27 * (29 * p - 4 * q) * w, 707281 * q) <= t,
{
    let s = ONE_RAW as int;
    let wa = w * a;
    let wp = w * p;
    let qt = q * t;
    let qw = q * w;
    let e = k + lo;
    let we = w * e;
    let wh = w * hi;
    let wk = w * k;
    assert(q >= 32 * s) by (nonlinear_arith)
        requires
            q >= s * (56 * (k + lo) + 32 * hi),
            k >= 1,
            lo >= 0,
            hi >= 0,
            s > 0,
    ;
    assert(16 * we <= q && we >= 0) by (nonlinear_arith)
        requires
            q >= s * (56 * (k + lo) + 32 * hi),
            we == w * e,
            e == k + lo,
            0 < w <= 2 * s,
            k >= 1,
            lo >= 0,
            hi >= 0,
    ;
    assert(16 * wh <= q && wh >= 0) by (nonlinear_arith)
        requires
            q >= s * (56 * (k + lo) + 32 * hi),
            wh == w * hi,
            0 < w <= 2 * s,
            k >= 1,
            lo >= 0,
            hi >= 0,
    ;
    assert(783 * wa <= 707281 * qt + 108 * qw) by (nonlinear_arith)
        requires
            783 * w * a <= q * (707281 * t + 108 * w),
            wa == w * a,
            qt == q * t,
            qw == q * w,
    ;
    assert(707281 * qt + 108 * qw < 783 * wa + 783 * wk) by (nonlinear_arith)
        requires
            q * (707281 * t + 108 * w) < 783 * w * (a + k),
            wa == w * a,
            wk == w * k,
            qt == q * t,
            qw == q * w,
    ;
    assert(wa - we + wk <= wp && wp <= wa + wh) by (nonlinear_arith)
        requires
            a - lo <= p <= a + hi,
            w > 0,
            wa == w * a,
            wp == w * p,
            wk == w * k,
            we == w * (k + lo),
            wh == w * hi,
    ;
    assert(707281 * qt + 707281 * q <= 54 * qw) by (nonlinear_arith)
        requires
            707281 * (t + 1) <= 54 * w,
            q > 0,
            qt == q * t,
            qw == q * w,
    ;
    // not above the breakpoint
    assert(29 * wp <= 6 * qw);
    if 29 * p > 6 * q {
        assert(false) by (nonlinear_arith)
            requires
                29 * p > 6 * q,
                w > 0,
                wp == w * p,
                qw == q * w,
                29 * wp <= 6 * qw,
        ;
    }
    lemma_cube_order(29 * p, 6 * q);
    assert((29 * p) * (29 * p) * (29 * p) == 24389 * (p * p * p)) by (nonlinear_arith);
    assert((6 * q) * (6 * q) * (6 * q) == 216 * (q * q * q)) by (nonlinear_arith);
    // within one of t
    let n = 27 * (29 * p - 4 * q) * w;
    let d = 707281 * q;
    assert(n == 783 * wp - 108 * qw) by (nonlinear_arith)
        requires
            n == 27 * (29 * p - 4 * q) * w,
            wp == w * p,
            qw == q * w,
    ;
    assert((t - 1) * d <= n && n < (t + 1) * d) by (nonlinear_arith)
        requires
            d == 707281 * q,
            qt == q * t,
            707281 * qt - 707281 * q <= n,
            n < 707281 * qt + 707281 * q,
    ;
    assert(t - 1 <= n / d <= t) by (nonlinear_arith)
        requires
            (t - 1) * d <= n,
            n < (t + 1) * d,
            d > 0,
    ;
}

/// One tristimulus value on its way back. `p` over `k g ONE` is the response
/// that CIE L*a*b* holds for `t / w`: within `lo` below and `hi` above `k`
/// times the response at the gain `g`. Its inverse is `t` or `t - 1`.
pub proof fn lemma_inverse_of_response(
    t: int,
    w: int,
    g: int,
    k: int,
    lo: int,
    hi: int,
    p: int,
)
    requires
        is_near_one(w),
        survives_lab(t, w),
        1 <= g <= 1000,
        1 <= k,
        0 <= lo,
        0 <= hi,
        k * g >= 56 * (k + lo) + 32 * hi,
        k * lab_response(t, w, g) - lo <= p <= k * lab_response(t, w, g) + hi,
    ensures
        t - 1 <= lab_inverse_response(p, k * g * ONE_RAW, w) <= t,
{
    let r = lab_response(t, w, g);
    let unit = g * ONE_RAW;
    let a = k * r;
    let q = k * g * ONE_RAW;
    lemma_response_shape(t, w, g);
    assert(q == k * unit) by (nonlinear_arith)
        requires
            q == k * g * ONE_RAW,
            unit == g * ONE_RAW,
    ;
    assert(q >= ONE_RAW * (56 * (k + lo) + 32 * hi)) by (nonlinear_arith)
        requires
            q == k * g * ONE_RAW,
            k * g >= 56 * (k + lo) + 32 * hi,
    ;
    assert(a >= 0) by (nonlinear_arith)
        requires
            a == k * r,
            k >= 1,
            r >= 0,
    ;
    assert(a + k == k * (r + 1)) by (nonlinear_arith)
        requires
            a == k * r,
    ;
    let k3 = k * k * k;
    assert(k3 > 0) by (nonlinear_arith)
        requires
            k >= 1,
            k3 == k * k * k,
    ;
    if 24389 * t > 216 * w {
        let r3w = r * r * r * w;
        let s3w = (r + 1) * (r + 1) * (r + 1) * w;
        let tu = t * (unit * unit * unit);
        assert(a * a * a * w == k3 * r3w) by (nonlinear_arith)
            requires
                a == k * r,
                k3 == k * k * k,
                r3w == r * r * r * w,
        ;
        assert((a + k) * (a + k) * (a + k) * w == k3 * s3w) by (nonlinear_arith)
            requires
                a + k == k * (r + 1),
                k3 == k * k * k,
                s3w == (r + 1) * (r + 1) * (r + 1) * w,
        ;
        assert(t * (q * q * q) == k3 * tu) by (nonlinear_arith)
            requires
                q == k * unit,
                k3 == k * k * k,
                tu == t * (unit * unit * unit),
        ;
        assert(k3 * r3w <= k3 * tu && k3 * tu < k3 * s3w) by (nonlinear_arith)
            requires
                r3w <= tu,
                tu < s3w,
                k3 > 0,
        ;
        lemma_inverse_cubic(a, p, q, k, lo, hi, w, t);
    } else {
        let line = 707281 * t + 108 * w;
        assert(783 * w * a <= q * line && q * line < 783 * w * (a + k)) by (nonlinear_arith)
            requires
                a == k * r,
                q == k * unit,
                k >= 1,
                783 * w * r <= unit * line,
                unit * line < 783 * w * (r + 1),
        ;
        lemma_inverse_linear(a, p, q, k, lo, hi, w, t);
    }
}

/// A colour that goes from CIE XYZ to CIE L*a*b* and back arrives where it
/// left, or one raw unit below, in each of X, Y and Z, if each of them comes
/// back at all under a white that is near one.
pub proof fn lemma_xyz_survives_lab(x: int, y: int, z: int, xn: int, yn: int, zn: int)
    requires
        is_near_one(xn),
        is_near_one(yn),
        is_near_one(zn),
        survives_lab(x, xn),
        survives_lab(y, yn),
        survives_lab(z, zn),
    ensures
        ({
            let (l, a, b) = xyz_to_lab(x, y, z, xn, yn, zn);
            let (x2, y2, z2) = lab_to_xyz(l, a, b, xn, yn, zn);
            &&& x - 1 <= x2 <= x
            &&& y - 1 <= y2 <= y
            &&& z - 1 <= z2 <= z
        }),
{
    let ry = lab_response(y, yn, 116);
    let rx = lab_response(x, xn, 500);
    let ry5 = lab_response(y, yn, 500);
    let ry2 = lab_response(y, yn, 200);
    let rz = lab_response(z, zn, 200);
    lemma_response_shape(y, yn, 116);
    lemma_response_shape(x, xn, 500);
    lemma_response_shape(y, yn, 500);
    lemma_response_shape(y, yn, 200);
    lemma_response_shape(z, zn, 200);
    lemma_responses_agree(y, yn, 116, 500, 125, 29);
    lemma_responses_agree(y, yn, 116, 200, 50, 29);
    let (l, a, b) = xyz_to_lab(x, y, z, xn, yn, zn);
    assert(l == ry - 16 * ONE_RAW);
    assert(a == rx - ry5);
    assert(b == ry2 - rz);
    let py = l + 16 * ONE_RAW;
    let px = 29 * a + 125 * py;
    let pz = 50 * py - 29 * b;
    assert(1 * ry == ry);
    lemma_inverse_of_response(y, yn, 116, 1, 0, 0, py);
    lemma_inverse_of_response(x, xn, 500, 29, 124, 28, px);
    lemma_inverse_of_response(z, zn, 200, 29, 49, 28, pz);
    assert(1 * 116 * ONE_RAW == 116 * ONE_RAW);
    assert(29 * 500 * ONE_RAW == 14500 * ONE_RAW);
    assert(29 * 200 * ONE_RAW == 5800 * ONE_RAW);
}

/// One raw unit less of a tristimulus value lowers the response by little: by
/// at most `1808 g` at the gain `g`, where the value and the one below it are
/// on one segment.
pub proof fn lemma_response_step(t: int, w: int, g: int)
    requires
        is_near_one(w),
        1 <= g <= 1000,
        0 <= t <= 2 * w,
        707281 * (t + 1) <= 54 * w || 24389 * (t - 1) > 216 * w,
    ensures
        lab_response(t, w, g) - 1808 * g <= lab_response(t - 1, w, g) <= lab_response(t, w, g),
{
    let unit = g * ONE_RAW;
    let r1 = lab_response(t, w, g);
    let r0 = lab_response(t - 1, w, g);
    if 24389 * (t - 1) > 216 * w {
        let u3 = unit * unit * unit;
        lemma_pow3(unit);
        assert(u3 > 0) by (nonlinear_arith)
            requires
                unit > 0,
                u3 == unit * unit * unit,
        ;
        assert(0 <= (t - 1) * u3 <= t * u3 && t * u3 == (t - 1) * u3 + u3) by (nonlinear_arith)
            requires
                t >= 1,
                u3 > 0,
        ;
        lemma_floor_root_monotone(3, (t - 1) * u3, t * u3, w);
        lemma_floor_root_exists(3, (t - 1) * u3, w);
        lemma_floor_root_exists(3, t * u3, w);
        lemma_pow3(r1);
        lemma_pow3(r0 + 1);
        let c = 16 * g;
        if r1 > r0 + c {
            let a = r0 + 1;
            let a2 = a * a;
            let a3 = a * a * a;
            let r13 = r1 * r1 * r1;
            let d = a + c;
            let d3 = d * d * d;
            lemma_cube_order(r1, d);
            lemma_cube_order(d, r1);
            assert(d3 <= r13);
            assert(d3 >= a3 + 3 * c * a2) by (nonlinear_arith)
                requires
                    d == a + c,
                    d3 == d * d * d,
                    a3 == a * a * a,
                    a2 == a * a,
                    a >= 0,
                    c >= 0,
            ;
            // 29 a > 6 unit
            lemma_cube_order(29 * a, 6 * unit);
            assert((29 * a) * (29 * a) * (29 * a) == 24389 * a3) by (nonlinear_arith)
                requires
                    a3 == a * a * a,
            ;
            assert((6 * unit) * (6 * unit) * (6 * unit) == 216 * u3) by (nonlinear_arith)
                requires
                    u3 == unit * unit * unit,
            ;
            assert(24389 * (a3 * w) > 216 * (u3 * w)) by (nonlinear_arith)
                requires
                    (t - 1) * u3 < a3 * w,
                    24389 * (t - 1) > 216 * w,
                    u3 > 0,
            ;
            assert(24389 * a3 > 216 * u3) by (nonlinear_arith)
                requires
                    24389 * (a3 * w) > 216 * (u3 * w),
                    w > 0,
            ;
            assert(29 * a > 6 * unit);
            let u2 = unit * unit;
            assert(841 * a2 > 36 * u2) by (nonlinear_arith)
                requires
                    29 * a > 6 * unit,
                    unit > 0,
                    a2 == a * a,
                    u2 == unit * unit,
            ;
            let ca2w = c * a2 * w;
            assert(3 * ca2w < u3) by (nonlinear_arith)
                requires
                    ca2w == c * a2 * w,
                    d3 >= a3 + 3 * c * a2,
                    d3 <= r13,
                    r13 * w <= t * u3,
                    t * u3 == (t - 1) * u3 + u3,
                    (t - 1) * u3 < a3 * w,
                    w > 0,
            ;
            assert(841 * ca2w > 36 * (c * u2 * w)) by (nonlinear_arith)
                requires
                    ca2w == c * a2 * w,
                    841 * a2 > 36 * u2,
                    c > 0,
                    w > 0,
            ;
            assert(false) by (nonlinear_arith)
                requires
                    3 * ca2w < u3,
                    841 * ca2w > 36 * (c * u2 * w),
                    u3 == unit * unit * unit,
                    u2 == unit * unit,
                    c == 16 * g,
                    unit == g * ONE_RAW,
                    ONE_RAW <= 2 * w,
                    g >= 1,
            ;
        }
    } else {
        let den = 783 * w;
        let n1 = unit * (707281 * t + 108 * w);
        let n0 = unit * (707281 * (t - 1) + 108 * w);
        assert(r1 == n1 / den);
        assert(r0 == n0 / den);
        assert(n0 == n1 - 707281 * unit) by (nonlinear_arith)
            requires
                n1 == unit * (707281 * t + 108 * w),
                n0 == unit * (707281 * (t - 1) + 108 * w),
        ;
        assert(den * r1 <= n1 < den * r1 + den) by (nonlinear_arith)
            requires
                r1 == n1 / den,
                den > 0,
        ;
        assert(den * r0 <= n0 < den * r0 + den) by (nonlinear_arith)
            requires
                r0 == n0 / den,
                den > 0,
        ;
        assert(707281 * unit <= den * (1807 * g)) by (nonlinear_arith)
            requires
                unit == g * ONE_RAW,
                den == 783 * w,
                ONE_RAW <= 2 * w,
                g >= 1,
        ;
        assert(r0 <= r1 && r1 - r0 <= 1807 * g) by (nonlinear_arith)
            requires
                den * r1 <= n1 < den * r1 + den,
                den * r0 <= n0 < den * r0 + den,
                n0 == n1 - 707281 * unit,
                0 <= 707281 * unit <= den * (1807 * g),
                den > 0,
        ;
    }
}

/// The response to a tristimulus value that came back from CIE L*a*b*: `t2`
/// is `t` or one raw unit below, and its response is within `1808 g` below
/// that of `t`.
proof fn lemma_response_of_returned(t: int, t2: int, w: int, g: int)
    requires
        is_near_one(w),
        1 <= g <= 1000,
        0 <= t <= 2 * w,
        707281 * (t + 1) <= 54 * w || 24389 * (t - 1) > 216 * w,
        t - 1 <= t2 <= t,
    ensures
        lab_response(t, w, g) - 1808 * g <= lab_response(t2, w, g) <= lab_response(t, w, g),
{
    if t2 != t {
        lemma_response_step(t, w, g);
    }
}

/// A colour in CIE L*a*b* that was made from CIE XYZ, taken to CIE XYZ and
/// back, arrives within 2^20 raw units, a quarter of a thousandth, of where it
/// left, if each tristimulus value that made it comes back, and the one below
/// it is on the same segment of the response.
pub proof fn lemma_lab_of_xyz_is_stable(x: int, y: int, z: int, xn: int, yn: int, zn: int)
    requires
        is_near_one(xn),
        is_near_one(yn),
        is_near_one(zn),
        survives_lab(x, xn),
        survives_lab(y, yn),
        survives_lab(z, zn),
        24389 * (x - 1) != 216 * xn,
        24389 * (y - 1) != 216 * yn,
        24389 * (z - 1) != 216 * zn,
    ensures
        ({
            let (l, a, b) = xyz_to_lab(x, y, z, xn, yn, zn);
            let (x2, y2, z2) = lab_to_xyz(l, a, b, xn, yn, zn);
            let (l2, a2, b2) = xyz_to_lab(x2, y2, z2, xn, yn, zn);
            &&& distance(l2, l) <= 0x10_0000
            &&& distance(a2, a) <= 0x10_0000
            &&& distance(b2, b) <= 0x10_0000
        }),
{
    lemma_xyz_survives_lab(x, y, z, xn, yn, zn);
    let (l, a, b) = xyz_to_lab(x, y, z, xn, yn, zn);
    let (x2, y2, z2) = lab_to_xyz(l, a, b, xn, yn, zn);
    lemma_response_shape(y, yn, 116);
    lemma_response_shape(x, xn, 500);
    lemma_response_shape(y, yn, 500);
    lemma_response_shape(y, yn, 200);
    lemma_response_shape(z, zn, 200);
    lemma_response_of_returned(y, y2, yn, 116);
    lemma_response_of_returned(x, x2, xn, 500);
    lemma_response_of_returned(y, y2, yn, 500);
    lemma_response_of_returned(y, y2, yn, 200);
    lemma_response_of_returned(z, z2, zn, 200);
}

/// A colour in CIE XYZ that was made from CIE L*a*b*, taken to CIE L*a*b* and
/// back, arrives where it left, or one raw unit below, if each of its
/// tristimulus values comes back at all under a white that is near one.
pub proof fn lemma_xyz_of_lab_is_stable(l: int, a: int, b: int, xn: int, yn: int, zn: int)
    requires
        is_near_one(xn),
        is_near_one(yn),
        is_near_one(zn),
        survives_lab(lab_to_xyz(l, a, b, xn, yn, zn).0, xn),
        survives_lab(lab_to_xyz(l, a, b, xn, yn, zn).1, yn),
        survives_lab(lab_to_xyz(l, a, b, xn, yn, zn).2, zn),
    ensures
        ({
            let (x, y, z) = lab_to_xyz(l, a, b, xn, yn, zn);
            let (l2, a2, b2) = xyz_to_lab(x, y, z, xn, yn, zn);
            let (x2, y2, z2) = lab_to_xyz(l2, a2, b2, xn, yn, zn);
            &&& x - 1 <= x2 <= x
            &&& y - 1 <= y2 <= y
            &&& z - 1 <= z2 <= z
        }),
{
    let (x, y, z) = lab_to_xyz(l, a, b, xn, yn, zn);
    lemma_xyz_survives_lab(x, y, z, xn, yn, zn);
}

/// The response to nothing is 16/116, whatever the white.
pub proof fn lemma_response_to_nothing(w: int, g: int)
    requires
        0 < w,
        0 < g,
    ensures
        lab_response(0, w, g) == (g * ONE_RAW * 108) / 783,
{
    let top = g * ONE_RAW * 108;
    let q = top / 783;
    assert(783 * q <= top < 783 * q + 783);
    assert(g * ONE_RAW * (707281 * 0 + 108 * w) == top * w) by (nonlinear_arith)
        requires
            top == g * ONE_RAW * 108,
    ;
    assert((top * w) / (783 * w) == q) by (nonlinear_arith)
        requires
            783 * q <= top < 783 * q + 783,
            w > 0,
    ;
}

/// The response to white itself is one, whatever the white.
pub proof fn lemma_response_to_white(w: int, g: int)
    requires
        0 < w,
        0 < g,
    ensures
        lab_response(w, w, g) == g * ONE_RAW,
{
    let unit = g * ONE_RAW;
    lemma_pow3(unit);
    lemma_pow3(unit + 1);
    let u3 = unit * unit * unit;
    assert(u3 < (unit + 1) * (unit + 1) * (unit + 1)) by (nonlinear_arith)
        requires
            unit > 0,
            u3 == unit * unit * unit,
    ;
    assert(pow(unit, 3) * w <= w * pow(unit, 3) < pow(unit + 1, 3) * w) by (nonlinear_arith)
        requires
            pow(unit, 3) < pow(unit + 1, 3),
            w > 0,
    ;
    lemma_floor_root_is(unit, 3, w * pow(unit, 3), w);
}

/// Under every white, black has no lightness and no colour.
pub proof fn lemma_lab_of_black(xn: int, yn: int, zn: int)
    requires
        0 < xn,
        0 < yn,
        0 < zn,
    ensures
        xyz_to_lab(0, 0, 0, xn, yn, zn) == (0int, 0int, 0int),
{
    lemma_response_to_nothing(yn, 116);
    lemma_response_to_nothing(xn, 500);
    lemma_response_to_nothing(yn, 500);
    lemma_response_to_nothing(yn, 200);
    lemma_response_to_nothing(zn, 200);
}

/// Under every white, white itself has the lightness 100 and no colour.
pub proof fn lemma_lab_of_white(xn: int, yn: int, zn: int)
    requires
        0 < xn,
        0 < yn,
        0 < zn,
    ensures
        xyz_to_lab(xn, yn, zn, xn, yn, zn) == (100 * ONE_RAW, 0int, 0int),
{
    lemma_response_to_white(yn, 116);
    lemma_response_to_white(xn, 500);
    lemma_response_to_white(yn, 500);
    lemma_response_to_white(yn, 200);
    lemma_response_to_white(zn, 200);
}

} // verus!
