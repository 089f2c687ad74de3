use quadsolve::num::{Dec, Scaled};
use quadsolve::solver::{solve, Answer, RootExpr, SolveError};

fn dec_f64(d: Dec) -> f64 {
    d.m as f64 / 10f64.powi(d.e as i32)
}

fn scaled_f64(s: Scaled) -> f64 {
    s.num as f64 / 10f64.powi(s.scale as i32)
}

/// The numeric value of one root expression; for an `Img` answer this
/// is the reported magnitude (the label before the `i` tag).
fn root_val(r: RootExpr) -> f64 {
    let s = scaled_f64(r.disc).sqrt();
    let num = dec_f64(r.neg_b) + if r.plus_sqrt { s } else { -s };
    num / scaled_f64(r.two_a)
}

fn real_pair(eq: &str) -> (RootExpr, RootExpr) {
    match solve(eq) {
        Ok(Answer::Real(r1, r2)) => (r1, r2),
        other => panic!("expected real roots for {eq}, got {other:?}"),
    }
}

fn img_pair(eq: &str) -> (RootExpr, RootExpr) {
    match solve(eq) {
        Ok(Answer::Img(r1, r2)) => (r1, r2),
        other => panic!("expected imaginary roots for {eq}, got {other:?}"),
    }
}

fn close(a: f64, b: f64) -> bool {
    (a - b).abs() < 1e-9
}

#[test]
fn two_real_roots() {
    let (r1, r2) = real_pair("2x + 3x - 2");
    assert_eq!(r1.neg_b, Dec { m: -3, e: 0 });
    assert_eq!(r1.disc, Scaled { num: 25, scale: 0 });
    assert_eq!(r1.two_a, Scaled { num: 4, scale: 0 });
    assert!(close(root_val(r1), 0.5));
    assert!(close(root_val(r2), -2.0));
}

#[test]
fn imaginary_pair() {
    let (r1, r2) = img_pair("x + x + 1");
    assert_eq!(r1.disc, Scaled { num: 3, scale: 0 });
    assert_eq!(r1.neg_b, Dec { m: -1, e: 0 });
    assert_eq!(r1.two_a, Scaled { num: 2, scale: 0 });
    assert!(close(root_val(r1), (-1.0 + 3f64.sqrt()) / 2.0));
    assert!(close(root_val(r2), (-1.0 - 3f64.sqrt()) / 2.0));
}

#[test]
fn single_term_rejected() {
    assert_eq!(solve("3x - 4"), Err(SolveError::TooFewTerms));
}

#[test]
fn three_terms_rejected() {
    assert_eq!(solve("x + 2x + 3x - 5"), Err(SolveError::TooManyTerms));
}

#[test]
fn misplaced_operator_rejected() {
    assert_eq!(solve("x x + - 1"), Err(SolveError::InvalidOperatorPlacement));
}

#[test]
fn unbalanced_operators_rejected() {
    assert_eq!(solve("x 1"), Err(SolveError::InvalidOperatorPlacement));
}

#[test]
fn bare_coefficient_is_one() {
    let (r1, r2) = real_pair("x + 3x - 4");
    assert_eq!(r1.two_a, Scaled { num: 2, scale: 0 });
    assert_eq!(r1.disc, Scaled { num: 25, scale: 0 });
    assert!(close(root_val(r1), 1.0));
    assert!(close(root_val(r2), -4.0));
}

#[test]
fn decimal_coefficients() {
    let (r1, _) = real_pair("2.5x + 1.5x - 0.5");
    assert_eq!(r1.disc, Scaled { num: 72500, scale: 4 });
    assert_eq!(r1.neg_b, Dec { m: -15, e: 1 });
    assert_eq!(r1.two_a, Scaled { num: 50, scale: 1 });
    assert!(close(root_val(r1), (-1.5 + 7.25f64.sqrt()) / 5.0));
}

#[test]
fn negated_middle_term() {
    let (r1, r2) = img_pair("x - 2x + 5");
    assert_eq!(r1.neg_b, Dec { m: 2, e: 0 });
    assert_eq!(r1.disc, Scaled { num: 16, scale: 0 });
    assert!(close(root_val(r1), 3.0));
    assert!(close(root_val(r2), -1.0));
}

#[test]
fn malformed_coefficient_rejected() {
    assert_eq!(solve("ax + bx - c"), Err(SolveError::MalformedNumber));
}

#[test]
fn too_many_digits_rejected() {
    assert_eq!(solve("1234567890x + x + 1"), Err(SolveError::MalformedNumber));
}

#[test]
fn nine_digits_accepted() {
    let (r1, _) = real_pair("123456789x + x - 1");
    assert_eq!(r1.two_a, Scaled { num: 246913578, scale: 0 });
}

#[test]
fn double_decimal_point_rejected() {
    assert_eq!(solve("1.2.3x + x + 1"), Err(SolveError::MalformedNumber));
}

#[test]
fn empty_constant_rejected() {
    assert_eq!(solve("x + x +"), Err(SolveError::MalformedNumber));
}

#[test]
fn zero_leading_coefficient_is_passed_through() {
    let (r1, _) = real_pair("0x + x + 1");
    assert_eq!(r1.two_a, Scaled { num: 0, scale: 0 });
    assert_eq!(r1.disc, Scaled { num: 1, scale: 0 });
    assert!(root_val(r1).is_infinite() || root_val(r1).is_nan());
}

#[test]
fn whitespace_inside_slices_is_trimmed() {
    let (r1, r2) = real_pair("2x +\t3x - 2");
    assert!(close(root_val(r1), 0.5));
    assert!(close(root_val(r2), -2.0));
}

#[test]
fn no_spaces_between_terms() {
    let (r1, r2) = real_pair("2x+3x-2");
    assert_eq!(r1.disc, Scaled { num: 25, scale: 0 });
    assert!(close(root_val(r1), 0.5));
    assert!(close(root_val(r2), -2.0));
}

#[test]
fn missing_constant_term_rejected() {
    assert_eq!(solve("x + x"), Err(SolveError::InvalidOperatorPlacement));
}

#[test]
fn discriminant_sign_selects_variant() {
    assert!(matches!(solve("2x + 3x - 2"), Ok(Answer::Real(_, _))));
    assert!(matches!(solve("x + 2x + 1"), Ok(Answer::Real(_, _))));
    assert!(matches!(solve("x + x + 1"), Ok(Answer::Img(_, _))));
    assert!(matches!(solve("x - 2x + 5"), Ok(Answer::Img(_, _))));
}

#[test]
fn repeated_root_reported_twice() {
    let (r1, r2) = real_pair("x + 2x + 1");
    assert_eq!(r1.disc, Scaled { num: 0, scale: 0 });
    assert!(close(root_val(r1), -1.0));
    assert!(close(root_val(r2), -1.0));
}

#[test]
fn first_root_adds_sqrt_second_subtracts() {
    for eq in ["2x + 3x - 2", "x + x + 1", "x - 2x + 5", "2.5x + 1.5x - 0.5"] {
        let (r1, r2) = match solve(eq).unwrap() {
            Answer::Real(r1, r2) => (r1, r2),
            Answer::Img(r1, r2) => (r1, r2),
        };
        assert!(r1.plus_sqrt);
        assert!(!r2.plus_sqrt);
    }
}

#[test]
fn roots_satisfy_equation() {
    let cases: [(&str, f64, f64, f64); 4] = [
        ("2x + 3x - 2", 2.0, 3.0, -2.0),
        ("x + 3x - 4", 1.0, 3.0, -4.0),
        ("2.5x + 1.5x - 0.5", 2.5, 1.5, -0.5),
        ("3x - 6x + 3", 3.0, -6.0, 3.0),
    ];
    for (eq, a, b, c) in cases {
        let (r1, r2) = real_pair(eq);
        for r in [root_val(r1), root_val(r2)] {
            assert!(close(a * r * r + b * r + c, 0.0), "residual for {eq} at {r}");
        }
    }
}

#[test]
fn complex_roots_satisfy_equation() {
    let cases: [(&str, f64, f64, f64); 2] = [("x + x + 1", 1.0, 1.0, 1.0), ("x - 2x + 5", 1.0, -2.0, 5.0)];
    for (eq, a, b, c) in cases {
        let (r1, r2) = img_pair(eq);
        let (m1, m2) = (root_val(r1), root_val(r2));
        // The true roots are re ± im·i, reconstructed from the two
        // reported magnitudes.
        let re = (m1 + m2) / 2.0;
        let im = (m1 - m2) / 2.0;
        let real_part = a * (re * re - im * im) + b * re + c;
        let imag_part = 2.0 * a * re * im + b * im;
        assert!(close(real_part, 0.0), "real residual for {eq}");
        assert!(close(imag_part, 0.0), "imaginary residual for {eq}");
    }
}

#[test]
fn error_messages() {
    assert_eq!(
        SolveError::InvalidOperatorPlacement.message(),
        "Invalid placement of operators (operators must be after an expression like 3x + 7)"
    );
    assert_eq!(
        SolveError::TooFewTerms.message(),
        "Number of expression terms less than 3 are not supported"
    );
    assert_eq!(
        SolveError::TooManyTerms.message(),
        "Number of expression terms greater than 3 are not supported"
    );
    assert_eq!(
        SolveError::MalformedNumber.message(),
        "A coefficient or constant is not a valid decimal number"
    );
}
