//! The solving pipeline: scan, validate, extract, and classify the
//! roots of `a·x² + b·x + c = 0` by the exact sign of the discriminant.
//!
//! The two roots are `(-b ± √D) / 2a` with `D = b² - 4ac`.  The library
//! computes `-b`, `2a` and `D` exactly as scaled decimals and reports
//! whether the roots are real (`D >= 0`) or imaginary (`D < 0`); taking
//! the square root and dividing — the only inexact steps — are left to
//! the caller, which receives the exact parts of both roots.

use vstd::prelude::*;

use crate::extract::{
    get_coef, inputs_ok, neg_after, slice_a, slice_b, slice_c, term_mantissa, term_scale,
};
use crate::num::{
    lemma_pow10_adds, lemma_pow10_increases, lemma_pow10_positive, pow10, pow10_exec, Dec, Scaled,
};
use crate::scan::{op_positions, placement_ok, scan, verify, x_positions};

verus! {

/// Why an input line was rejected.
#[derive(Clone, Copy, Debug, PartialEq, Eq, Structural)]
pub enum SolveError {
    /// An operator does not stand between the term it follows and the
    /// term it precedes, or terms and operators do not pair up.
    InvalidOperatorPlacement,
    /// Fewer than two variable terms: the linear and constant-only
    /// shapes are not solved.
    TooFewTerms,
    /// More than two variable terms.
    TooManyTerms,
    /// A coefficient, sign, or constant slice is not a decimal number
    /// within the supported precision.
    MalformedNumber,
}

/// The exact parts of one root `(-b ± √|D|) / 2a`: the root is
/// `(neg_b + √disc) / two_a` when `plus_sqrt` holds and
/// `(neg_b - √disc) / two_a` otherwise, with `√disc` imaginary in the
/// `Answer::Img` case.
#[derive(Clone, Copy, Debug, PartialEq, Eq, Structural)]
pub struct RootExpr {
    /// The negated linear coefficient `-b`.
    pub neg_b: Dec,
    /// Whether this root adds the square root of the discriminant.
    pub plus_sqrt: bool,
    /// The discriminant's absolute value `|b² - 4ac|`.
    pub disc: Scaled,
    /// Twice the quadratic coefficient.
    pub two_a: Scaled,
}

/// The classified pair of roots: a complex-conjugate pair when the
/// discriminant is negative, two real roots otherwise.
#[derive(Clone, Copy, Debug, PartialEq, Eq, Structural)]
pub enum Answer {
    Img(RootExpr, RootExpr),
    Real(RootExpr, RootExpr),
}

/// The exact mathematical model of the three extracted coefficients:
/// the equation is `(am/10^ae)·x² + (bm/10^be)·x + (cm/10^ce) = 0`.
pub ghost struct Coeffs {
    pub am: int,
    pub ae: nat,
    pub bm: int,
    pub be: nat,
    pub cm: int,
    pub ce: nat,
}

/// The coefficients a two-term equation text denotes.
pub open spec fn coeffs_of(s: Seq<char>) -> Coeffs {
    Coeffs {
        am: term_mantissa(slice_a(s), false),
        ae: term_scale(slice_a(s)),
        bm: term_mantissa(slice_b(s), neg_after(s, 0)),
        be: term_scale(slice_b(s)),
        cm: term_mantissa(slice_c(s), neg_after(s, 1)),
        ce: term_scale(slice_c(s)),
    }
}

/// The numerator of the discriminant `b² - 4ac` over the common
/// denominator `10^disc_scale_of(co)`.
pub open spec fn disc_num_of(co: Coeffs) -> int {
    co.bm * co.bm * pow10(co.ae + co.ce) - 4 * co.am * co.cm * pow10(2 * co.be)
}

pub open spec fn disc_scale_of(co: Coeffs) -> nat {
    co.ae + co.ce + 2 * co.be
}

/// One reported root carries exactly `-b`, `2a`, `|D|`, and its own
/// sign in front of the square root.
pub open spec fn root_expr_ok(re: RootExpr, co: Coeffs, plus: bool) -> bool {
    &&& re.neg_b.m == -co.bm
    &&& re.neg_b.e == co.be
    &&& re.plus_sqrt == plus
    &&& re.disc.num == if disc_num_of(co) < 0 {
        -disc_num_of(co)
    } else {
        disc_num_of(co)
    }
    &&& re.disc.scale == disc_scale_of(co)
    &&& re.two_a.num == 2 * co.am
    &&& re.two_a.scale == co.ae
}

/// The discriminant's sign selects the variant — `Real` exactly when
/// `D >= 0` — and the first root adds the square root while the second
/// subtracts it.
pub open spec fn answer_ok(ans: Answer, s: Seq<char>) -> bool {
    let co = coeffs_of(s);
    match ans {
        Answer::Real(r1, r2) => disc_num_of(co) >= 0 && root_expr_ok(r1, co, true)
            && root_expr_ok(r2, co, false),
        Answer::Img(r1, r2) => disc_num_of(co) < 0 && root_expr_ok(r1, co, true) && root_expr_ok(
            r2,
            co,
            false,
        ),
    }
}

proof fn lemma_pull_four(x: int, y: int)
    ensures
        (4 * x) * y == 4 * (x * y),
        4 * (x * y) == x * (4 * y),
{
    assert((4 * x) * y == 4 * (x * y)) by (nonlinear_arith);
    assert(4 * (x * y) == x * (4 * y)) by (nonlinear_arith);
}

proof fn lemma_mul_sub(p: int, x: int, y: int)
    ensures
        p * x - p * y == p * (x - y),
        p * (-x + y) == -(p * x) + p * y,
        p * (-x - y) == -(p * x) - p * y,
{
    assert(p * x - p * y == p * (x - y)) by (nonlinear_arith);
    assert(p * (-x + y) == -(p * x) + p * y) by (nonlinear_arith);
    assert(p * (-x - y) == -(p * x) - p * y) by (nonlinear_arith);
}

proof fn lemma_distrib_three(al: int, u: int, v: int, w: int)
    ensures
        al * (u - 2 * v + w) == al * u - 2 * (al * v) + al * w,
        al * (u + 2 * v + w) == al * u + 2 * (al * v) + al * w,
        al * (w - (u - v)) == al * w - al * u + al * v,
        al * (-w + (v - u)) == -(al * w) + al * v - al * u,
{
    assert(al * (u - 2 * v + w) == al * u - 2 * (al * v) + al * w) by (nonlinear_arith);
    assert(al * (u + 2 * v + w) == al * u + 2 * (al * v) + al * w) by (nonlinear_arith);
    assert(al * (w - (u - v)) == al * w - al * u + al * v) by (nonlinear_arith);
    assert(al * (-w + (v - u)) == -(al * w) + al * v - al * u) by (nonlinear_arith);
}

proof fn lemma_swap_double(al: int, v: int)
    ensures
        v * (2 * al) == 2 * (al * v),
{
    assert(v * (2 * al) == 2 * (al * v)) by (nonlinear_arith);
}

proof fn lemma_four_square(al: int, ga: int)
    ensures
        ga * ((2 * al) * (2 * al)) == 4 * ((al * al) * ga),
        al * ((4 * al) * ga) == 4 * ((al * al) * ga),
{
    assert(ga * ((2 * al) * (2 * al)) == 4 * ((al * al) * ga)) by (nonlinear_arith);
    assert(al * ((4 * al) * ga) == 4 * ((al * al) * ga)) by (nonlinear_arith);
}

proof fn lemma_scaled_disc_core(a: int, b: int, c: int, p: int, q: int, r: int, s: int)
    requires
        q * r == p * s,
    ensures
        (b * p) * (b * p) - 4 * (a * q) * (c * r) == p * (b * b * p - 4 * a * c * s),
{
    let x = b * b * p;
    let y = 4 * a * c * s;
    assert((b * p) * (b * p) == p * (b * b * p)) by (nonlinear_arith);
    lemma_pull_four(a * q, c * r);
    assert((a * q) * (c * r) == (a * c) * (q * r)) by (nonlinear_arith);
    assert((a * c) * (q * r) == (a * c) * (p * s));
    assert((a * c) * (p * s) == p * ((a * c) * s)) by (nonlinear_arith);
    lemma_pull_four(p, (a * c) * s);
    assert(4 * ((a * c) * s) == 4 * a * c * s) by (nonlinear_arith);
    assert(4 * (a * q) * (c * r) == p * y);
    lemma_mul_sub(p, x, y);
}

proof fn lemma_root_cancels_core(al: int, be: int, ga: int, sg: int, n: int)
    requires
        n == -be + sg || n == -be - sg,
    ensures
        al * (n * n) + be * n * (2 * al) + ga * ((2 * al) * (2 * al)) == al * (sg * sg - (be * be
            - 4 * al * ga)),
{
    lemma_distrib_three(al, be * be, be * sg, sg * sg);
    lemma_swap_double(al, be * n);
    lemma_mul_sub(al, be * be, be * sg);
    lemma_four_square(al, ga);
    assert(al * (sg * sg - (be * be - 4 * al * ga)) == al * (sg * sg) - al * (be * be) + al * ((4
        * al) * ga)) by {
        lemma_distrib_three(al, be * be, (4 * al) * ga, sg * sg);
    }
    if n == -be + sg {
        assert(n * n == be * be - 2 * (be * sg) + sg * sg) by (nonlinear_arith)
            requires
                n == -be + sg,
        ;
        assert(be * n == -(be * be) + be * sg) by (nonlinear_arith)
            requires
                n == -be + sg,
        ;
    } else {
        assert(n * n == be * be + 2 * (be * sg) + sg * sg) by (nonlinear_arith)
            requires
                n == -be - sg,
        ;
        assert(be * n == -(be * be) - be * sg) by (nonlinear_arith)
            requires
                n == -be - sg,
        ;
    }
}

proof fn lemma_img_cancels_core(al: int, be: int, ga: int, m: int, t: int)
    requires
        m == t || m == -t,
    ensures
        al * ((-be) * (-be) - m * m) + be * (-be) * (2 * al) + ga * ((2 * al) * (2 * al)) == al * (
        -(t * t) + (4 * al * ga - be * be)),
        al * (2 * (-be) * m) + be * m * (2 * al) == 0,
{
    assert(m * m == t * t) by (nonlinear_arith)
        requires
            m == t || m == -t,
    ;
    assert((-be) * (-be) == be * be) by (nonlinear_arith);
    assert(al * ((-be) * (-be) - m * m) == al * (be * be - t * t));
    lemma_mul_sub(al, be * be, t * t);
    assert(be * (-be) == -(be * be)) by (nonlinear_arith);
    lemma_swap_double(al, be * (-be));
    assert(al * (be * (-be)) == -(al * (be * be))) by {
        lemma_mul_sub(al, be * be, 0);
    }
    lemma_four_square(al, ga);
    assert(al * (-(t * t) + ((4 * al) * ga - be * be)) == -(al * (t * t)) + al * ((4 * al) * ga)
        - al * (be * be)) by {
        lemma_distrib_three(al, be * be, (4 * al) * ga, t * t);
    }
    assert((2 * (-be)) * m == -(2 * (be * m))) by (nonlinear_arith);
    assert(al * (-(2 * (be * m))) == -(al * (2 * (be * m)))) by {
        lemma_mul_sub(al, 2 * (be * m), 0);
    }
    assert(al * (2 * (be * m)) == 2 * (al * (be * m))) by (nonlinear_arith);
    lemma_swap_double(al, be * m);
}

/// Scaling the three coefficients to the common denominator
/// `10^(ae+be+ce)` — giving the integer coefficients `alpha`, `beta`,
/// `gamma` below — turns the discriminant numerator into
/// `beta² - 4·alpha·gamma == 10^(ae+ce) · disc_num_of(co)`.
pub proof fn lemma_disc_scaled(co: Coeffs)
    ensures
        ({
            let alpha = co.am * pow10(co.be + co.ce);
            let beta = co.bm * pow10(co.ae + co.ce);
            let gamma = co.cm * pow10(co.ae + co.be);
            beta * beta - 4 * alpha * gamma == pow10(co.ae + co.ce) * disc_num_of(co)
        }),
{
    let p_ac = pow10(co.ae + co.ce);
    let p_bc = pow10(co.be + co.ce);
    let p_ab = pow10(co.ae + co.be);
    let p_bb = pow10(2 * co.be);
    lemma_pow10_adds(co.be + co.ce, co.ae + co.be);
    lemma_pow10_adds(co.ae + co.ce, 2 * co.be);
    assert(p_bc * p_ab == p_ac * p_bb);
    lemma_scaled_disc_core(co.am, co.bm, co.cm, p_ac, p_bc, p_ab, p_bb);
}

/// Substituted back into the equation, a reported real root cancels it
/// exactly.  `re` is one of the two root expressions of a `Real`
/// answer, so `re.disc.num` is the discriminant numerator the library
/// returned.  Scale the coefficients to the common denominator
/// `10^(ae+be+ce)` (integers `alpha`, `beta`, `gamma`) and let `sigma`
/// stand for `10^(ae+be+ce)·√D`, so `sigma²` equals the reported
/// discriminant numerator scaled by `10^(ae+ce)` — which by
/// `lemma_disc_scaled` is `beta² - 4·alpha·gamma`.  The root is
/// `(-beta ± sigma) / 2·alpha` over that denominator, and
/// `a·r² + b·r + c = 0` cleared of denominators reads: the root's
/// numerator `n = -beta ± sigma` satisfies
/// `alpha·n² + beta·n·2·alpha + gamma·(2·alpha)² = 0`.
pub proof fn lemma_real_root_cancels(co: Coeffs, re: RootExpr, plus: bool, sigma: int)
    requires
        root_expr_ok(re, co, plus),
        disc_num_of(co) >= 0,
        sigma * sigma == pow10(co.ae + co.ce) * re.disc.num,
    ensures
        ({
            let alpha = co.am * pow10(co.be + co.ce);
            let beta = co.bm * pow10(co.ae + co.ce);
            let gamma = co.cm * pow10(co.ae + co.be);
            let num = if plus {
                -beta + sigma
            } else {
                -beta - sigma
            };
            alpha * (num * num) + beta * num * (2 * alpha) + gamma * ((2 * alpha) * (2 * alpha))
                == 0
        }),
{
    lemma_disc_scaled(co);
    let alpha = co.am * pow10(co.be + co.ce);
    let beta = co.bm * pow10(co.ae + co.ce);
    let gamma = co.cm * pow10(co.ae + co.be);
    let num = if plus {
        -beta + sigma
    } else {
        -beta - sigma
    };
    assert(re.disc.num == disc_num_of(co));
    lemma_root_cancels_core(alpha, beta, gamma, sigma, num);
    assert(sigma * sigma - (beta * beta - 4 * alpha * gamma) == 0);
    assert(alpha * (sigma * sigma - (beta * beta - 4 * alpha * gamma)) == alpha * 0);
}

/// Substituted back into the equation, a reported complex-conjugate
/// root pair cancels it exactly.  `re` is one of the two root
/// expressions of an `Img` answer, so `re.disc.num` is the returned
/// numerator of `|D|`.  With the scaled integer coefficients `alpha`,
/// `beta`, `gamma` as in `lemma_disc_scaled` and `tau` standing for
/// `10^(ae+be+ce)·√|D|` — so `tau²` equals the reported `|D|` numerator
/// scaled by `10^(ae+ce)`, which is `-(beta² - 4·alpha·gamma)` — the
/// roots are `(-beta ± tau·i) / 2·alpha` over that denominator, and
/// both the real and the imaginary part of `a·r² + b·r + c` vanish
/// after clearing denominators.
pub proof fn lemma_img_roots_cancel(co: Coeffs, re: RootExpr, plus: bool, tau: int)
    requires
        root_expr_ok(re, co, plus),
        disc_num_of(co) < 0,
        tau * tau == pow10(co.ae + co.ce) * re.disc.num,
    ensures
        ({
            let alpha = co.am * pow10(co.be + co.ce);
            let beta = co.bm * pow10(co.ae + co.ce);
            let gamma = co.cm * pow10(co.ae + co.be);
            let re_n = -beta;
            let im_n = if plus {
                tau
            } else {
                -tau
            };
            &&& alpha * (re_n * re_n - im_n * im_n) + beta * re_n * (2 * alpha) + gamma * ((2
                * alpha) * (2 * alpha)) == 0
            &&& alpha * (2 * re_n * im_n) + beta * im_n * (2 * alpha) == 0
        }),
{
    lemma_disc_scaled(co);
    let alpha = co.am * pow10(co.be + co.ce);
    let beta = co.bm * pow10(co.ae + co.ce);
    let gamma = co.cm * pow10(co.ae + co.be);
    let im_n = if plus {
        tau
    } else {
        -tau
    };
    assert(re.disc.num == -disc_num_of(co));
    assert(pow10(co.ae + co.ce) * (-disc_num_of(co)) == -(pow10(co.ae + co.ce) * disc_num_of(
        co,
    ))) by (nonlinear_arith);
    lemma_img_cancels_core(alpha, beta, gamma, im_n, tau);
    assert(-(tau * tau) + (4 * alpha * gamma - beta * beta) == 0);
    assert(alpha * (-(tau * tau) + (4 * alpha * gamma - beta * beta)) == alpha * 0);
}

impl SolveError {
    /// A short human-readable diagnostic for this error.
    pub fn message(&self) -> (m: &'static str)
        ensures
            m@ == match *self {
                SolveError::InvalidOperatorPlacement => "Invalid placement of operators (operators must be after an expression like 3x + 7)"@,
                SolveError::TooFewTerms => "Number of expression terms less than 3 are not supported"@,
                SolveError::TooManyTerms => "Number of expression terms greater than 3 are not supported"@,
                SolveError::MalformedNumber => "A coefficient or constant is not a valid decimal number"@,
            },
    {
        match self {
            SolveError::InvalidOperatorPlacement => "Invalid placement of operators (operators must be after an expression like 3x + 7)",
            SolveError::TooFewTerms => "Number of expression terms less than 3 are not supported",
            SolveError::TooManyTerms => "Number of expression terms greater than 3 are not supported",
            SolveError::MalformedNumber => "A coefficient or constant is not a valid decimal number",
        }
    }
}

/// Parses and solves one equation line of the shape `ax + bx + c`.
pub fn solve(eq: &str) -> (r: Result<Answer, SolveError>)
    ensures
        !placement_ok(x_positions(eq@), op_positions(eq@)) ==> r == Err::<Answer, SolveError>(
            SolveError::InvalidOperatorPlacement,
        ),
        placement_ok(x_positions(eq@), op_positions(eq@)) && x_positions(eq@).len() < 2 ==> r
            == Err::<Answer, SolveError>(SolveError::TooFewTerms),
        placement_ok(x_positions(eq@), op_positions(eq@)) && x_positions(eq@).len() > 2 ==> r
            == Err::<Answer, SolveError>(SolveError::TooManyTerms),
        placement_ok(x_positions(eq@), op_positions(eq@)) && x_positions(eq@).len() == 2
            && !inputs_ok(eq@) ==> r == Err::<Answer, SolveError>(SolveError::MalformedNumber),
        placement_ok(x_positions(eq@), op_positions(eq@)) && x_positions(eq@).len() == 2
            && inputs_ok(eq@) ==> (r matches Ok(ans) && answer_ok(ans, eq@)),
{
    let (x_inds, op_inds) = scan(eq);
    if !verify(&x_inds, &op_inds) {
        return Err(SolveError::InvalidOperatorPlacement);
    }
    if x_inds.len() < 2 {
        return Err(SolveError::TooFewTerms);
    }
    if x_inds.len() > 2 {
        return Err(SolveError::TooManyTerms);
    }
    proof {
        assert(x_inds@.map_values(|u: usize| u as int).len() == 2);
        assert(op_inds@.map_values(|u: usize| u as int).len() == 2);
    }
    let (a, b, c) = match get_coef(eq, &x_inds, &op_inds) {
        Some(t) => t,
        None => {
            return Err(SolveError::MalformedNumber);
        },
    };
    let ghost co = coeffs_of(eq@);
    let se: u32 = a.e + c.e;
    let sb: u32 = 2 * b.e;
    let p1 = pow10_exec(se);
    let p2 = pow10_exec(sb);
    proof {
        lemma_pow10_increases(se as nat, 18);
        lemma_pow10_increases(sb as nat, 18);
        lemma_pow10_positive(se as nat);
        lemma_pow10_positive(sb as nat);
        assert(pow10(18) == 1_000_000_000_000_000_000) by {
            reveal_with_fuel(pow10, 20);
        }
        assert(b.m * b.m < 1_000_000_000_000_000_000 && b.m * b.m >= 0) by (nonlinear_arith)
            requires
                -1_000_000_000 < b.m < 1_000_000_000,
        ;
        assert(-4_000_000_000_000_000_000 < 4 * a.m * c.m
            < 4_000_000_000_000_000_000) by (nonlinear_arith)
            requires
                -1_000_000_000 < a.m < 1_000_000_000,
                -1_000_000_000 < c.m < 1_000_000_000,
        ;
    }
    let t1: i128 = b.m * b.m;
    let t2: i128 = 4 * a.m * c.m;
    proof {
        assert(t1 * p1 < 1_000_000_000_000_000_000_000_000_000_000_000_000 && t1 * p1
            >= 0) by (nonlinear_arith)
            requires
                0 <= t1 < 1_000_000_000_000_000_000,
                1 <= p1 <= 1_000_000_000_000_000_000,
        ;
        assert(-4_000_000_000_000_000_000_000_000_000_000_000_000 < t2 * p2
            < 4_000_000_000_000_000_000_000_000_000_000_000_000) by (nonlinear_arith)
            requires
                -4_000_000_000_000_000_000 < t2 < 4_000_000_000_000_000_000,
                1 <= p2 <= 1_000_000_000_000_000_000,
        ;
    }
    let dnum: i128 = t1 * p1 - t2 * p2;
    let dscale: u32 = se + sb;
    proof {
        assert(dnum == disc_num_of(co));
        assert(dscale == disc_scale_of(co));
    }
    let neg_b = Dec { m: -b.m, e: b.e };
    let two_a = Scaled { num: 2 * a.m, scale: a.e };
    if dnum >= 0 {
        let disc = Scaled { num: dnum, scale: dscale };
        Ok(
            Answer::Real(
                RootExpr { neg_b, plus_sqrt: true, disc, two_a },
                RootExpr { neg_b, plus_sqrt: false, disc, two_a },
            ),
        )
    } else {
        let disc = Scaled { num: -dnum, scale: dscale };
        Ok(
            Answer::Img(
                RootExpr { neg_b, plus_sqrt: true, disc, two_a },
                RootExpr { neg_b, plus_sqrt: false, disc, two_a },
            ),
        )
    }
}

} // verus!
