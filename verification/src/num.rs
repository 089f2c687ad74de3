//! Exact decimal numbers and the decimal-number grammar.
//!
//! A coefficient extracted from the input text is kept exactly as a
//! scaled integer: a `Dec` with mantissa `m` and scale `e` denotes the
//! rational number `m / 10^e`.  The grammar accepted here is the plain
//! decimal subset of what `str::parse::<f64>` accepts on the calculator's
//! input alphabet: an optional leading sign, digits, and at most one
//! decimal point, with at least one digit.  To keep all later arithmetic
//! exact and overflow-free, a number is accepted only up to nine digits.

use vstd::prelude::*;

verus! {

/// Greatest number of digits a coefficient may carry.  With mantissas
/// below `10^9` the discriminant numerator stays well inside `i128`.
pub const MAX_DIGITS: u32 = 9;

/// An exact decimal number: the value `m / 10^e`.
#[derive(Clone, Copy, Debug, PartialEq, Eq, Structural)]
pub struct Dec {
    pub m: i128,
    pub e: u32,
}

/// A scaled integer with a wider range than `Dec`, used for derived
/// quantities such as the discriminant: the value `num / 10^scale`.
#[derive(Clone, Copy, Debug, PartialEq, Eq, Structural)]
pub struct Scaled {
    pub num: i128,
    pub scale: u32,
}

/// Well-formedness of a parsed coefficient: at most nine digits of
/// mantissa and at most nine fractional digits.
pub open spec fn dec_wf(d: Dec) -> bool {
    -1_000_000_000 < d.m < 1_000_000_000 && d.e <= 9
}

pub open spec fn pow10(e: nat) -> int
    decreases e,
{
    if e == 0 {
        1
    } else {
        10 * pow10((e - 1) as nat)
    }
}

pub proof fn lemma_pow10_positive(e: nat)
    ensures
        pow10(e) >= 1,
    decreases e,
{
    if e > 0 {
        lemma_pow10_positive((e - 1) as nat);
    }
}

pub proof fn lemma_pow10_increases(e1: nat, e2: nat)
    requires
        e1 <= e2,
    ensures
        pow10(e1) <= pow10(e2),
    decreases e2,
{
    if e1 < e2 {
        lemma_pow10_increases(e1, (e2 - 1) as nat);
        lemma_pow10_positive((e2 - 1) as nat);
    }
}

pub proof fn lemma_pow10_adds(a: nat, b: nat)
    ensures
        pow10(a + b) == pow10(a) * pow10(b),
    decreases a,
{
    if a > 0 {
        lemma_pow10_adds((a - 1) as nat, b);
        assert((10 * pow10((a - 1) as nat)) * pow10(b) == 10 * (pow10((a - 1) as nat) * pow10(
            b,
        ))) by (nonlinear_arith);
    }
}

pub proof fn lemma_pow10_36()
    ensures
        pow10(36) == 1_000_000_000_000_000_000_000_000_000_000_000_000,
{
    reveal_with_fuel(pow10, 40);
}

/// Computes `10^e` exactly; `e <= 36` keeps the result inside `i128`.
pub fn pow10_exec(e: u32) -> (r: i128)
    requires
        e <= 36,
    ensures
        r == pow10(e as nat),
{
    proof {
        lemma_pow10_36();
    }
    let mut r: i128 = 1;
    let mut i: u32 = 0;
    while i < e
        invariant
            i <= e <= 36,
            r == pow10(i as nat),
            pow10(36) == 1_000_000_000_000_000_000_000_000_000_000_000_000,
        decreases e - i,
    {
        proof {
            lemma_pow10_increases((i + 1) as nat, 36);
            lemma_pow10_positive(i as nat);
        }
        r = r * 10;
        i = i + 1;
    }
    r
}

// ---------------------------------------------------------------------
// Character classes and whitespace trimming
// ---------------------------------------------------------------------

pub open spec fn is_digit(c: char) -> bool {
    '0' <= c && c <= '9'
}

pub open spec fn digit_val(c: char) -> int {
    c as int - '0' as int
}

/// The whitespace characters that can occur in a single line of ASCII
/// input; these are the characters stripped from slice edges.
pub open spec fn is_space(c: char) -> bool {
    c == ' ' || c == '\t' || c == '\n' || c == '\r'
}

pub open spec fn trim_front(s: Seq<char>) -> Seq<char>
    decreases s.len(),
{
    if s.len() > 0 && is_space(s[0]) {
        trim_front(s.drop_first())
    } else {
        s
    }
}

pub open spec fn trim_back(s: Seq<char>) -> Seq<char>
    decreases s.len(),
{
    if s.len() > 0 && is_space(s.last()) {
        trim_back(s.drop_last())
    } else {
        s
    }
}

/// A slice with leading and trailing whitespace removed.
pub open spec fn trim_seq(s: Seq<char>) -> Seq<char> {
    trim_back(trim_front(s))
}

// ---------------------------------------------------------------------
// The decimal-number grammar over a sign-stripped body
// ---------------------------------------------------------------------

pub open spec fn count_digits(s: Seq<char>) -> nat
    decreases s.len(),
{
    if s.len() == 0 {
        0
    } else {
        count_digits(s.drop_last()) + if is_digit(s.last()) {
            1nat
        } else {
            0nat
        }
    }
}

pub open spec fn count_dots(s: Seq<char>) -> nat
    decreases s.len(),
{
    if s.len() == 0 {
        0
    } else {
        count_dots(s.drop_last()) + if s.last() == '.' {
            1nat
        } else {
            0nat
        }
    }
}

pub open spec fn all_num_chars(s: Seq<char>) -> bool {
    forall|i: int| 0 <= i < s.len() ==> is_digit(#[trigger] s[i]) || s[i] == '.'
}

/// The integer read from the digits of `s` left to right, ignoring any
/// non-digit characters (i.e. the decimal point).
pub open spec fn mantissa_of(s: Seq<char>) -> int
    decreases s.len(),
{
    if s.len() == 0 {
        0
    } else {
        let p = mantissa_of(s.drop_last());
        if is_digit(s.last()) {
            p * 10 + digit_val(s.last())
        } else {
            p
        }
    }
}

/// How many digits of `s` stand after a decimal point.
pub open spec fn frac_len(s: Seq<char>) -> nat
    decreases s.len(),
{
    if s.len() == 0 {
        0
    } else {
        frac_len(s.drop_last()) + if is_digit(s.last()) && count_dots(s.drop_last()) >= 1 {
            1nat
        } else {
            0nat
        }
    }
}

// ---------------------------------------------------------------------
// A full number: optional sign, then a digits-and-dot body
// ---------------------------------------------------------------------

pub open spec fn has_sign(s: Seq<char>) -> bool {
    s.len() > 0 && (s[0] == '+' || s[0] == '-')
}

pub open spec fn num_body(s: Seq<char>) -> Seq<char> {
    if has_sign(s) {
        s.drop_first()
    } else {
        s
    }
}

pub open spec fn is_neg(s: Seq<char>) -> bool {
    s.len() > 0 && s[0] == '-'
}

/// Whether `s` is a well-formed decimal number: after an optional sign,
/// only digits and at most one decimal point, with at least one digit.
pub open spec fn num_ok(s: Seq<char>) -> bool {
    let b = num_body(s);
    all_num_chars(b) && count_dots(b) <= 1 && count_digits(b) >= 1
}

/// Well-formed and within the digit budget of the exact representation.
pub open spec fn num_within(s: Seq<char>) -> bool {
    num_ok(s) && count_digits(num_body(s)) <= MAX_DIGITS
}

/// The mantissa of `s` with its own sign applied.
pub open spec fn signed_mantissa(s: Seq<char>) -> int {
    if is_neg(s) {
        -mantissa_of(num_body(s))
    } else {
        mantissa_of(num_body(s))
    }
}

/// The scale of `s`: how many digits stand after its decimal point.
pub open spec fn num_scale(s: Seq<char>) -> nat {
    frac_len(num_body(s))
}

// ---------------------------------------------------------------------
// Lemmas
// ---------------------------------------------------------------------

/// A prefix of a slice has no more digits and no more dots than the
/// whole slice.
pub proof fn lemma_prefix_counts(s: Seq<char>, k: int)
    requires
        0 <= k <= s.len(),
    ensures
        count_digits(s.subrange(0, k)) <= count_digits(s),
        count_dots(s.subrange(0, k)) <= count_dots(s),
    decreases s.len() - k,
{
    if k == s.len() {
        assert(s.subrange(0, k) =~= s);
    } else {
        lemma_prefix_counts(s, k + 1);
        assert(s.subrange(0, k + 1).drop_last() =~= s.subrange(0, k));
    }
}

pub proof fn lemma_pow10_9()
    ensures
        pow10(9) == 1_000_000_000,
{
    reveal_with_fuel(pow10, 12);
}

// ---------------------------------------------------------------------
// Executable trimming and parsing
// ---------------------------------------------------------------------

fn space_char(c: char) -> (r: bool)
    ensures
        r == is_space(c),
{
    c == ' ' || c == '\t' || c == '\n' || c == '\r'
}

fn digit_char(c: char) -> (r: bool)
    ensures
        r == is_digit(c),
{
    '0' <= c && c <= '9'
}

/// Narrows `[lo, hi)` to the whitespace-trimmed sub-slice of `eq`.
pub fn trim_bounds(eq: &str, lo: usize, hi: usize) -> (r: (usize, usize))
    requires
        lo <= hi <= eq@.len(),
    ensures
        lo <= r.0 <= r.1 <= hi,
        eq@.subrange(r.0 as int, r.1 as int) == trim_seq(
            eq@.subrange(lo as int, hi as int),
        ),
{
    let mut lo2 = lo;
    while lo2 < hi && space_char(eq.get_char(lo2))
        invariant
            lo <= lo2 <= hi <= eq@.len(),
            trim_front(eq@.subrange(lo as int, hi as int)) == trim_front(
                eq@.subrange(lo2 as int, hi as int),
            ),
        decreases hi - lo2,
    {
        proof {
            assert(eq@.subrange(lo2 as int, hi as int).drop_first() =~= eq@.subrange(
                lo2 as int + 1,
                hi as int,
            ));
        }
        lo2 = lo2 + 1;
    }
    proof {
        assert(trim_front(eq@.subrange(lo2 as int, hi as int)) == eq@.subrange(
            lo2 as int,
            hi as int,
        ));
    }
    let mut hi2 = hi;
    while hi2 > lo2 && space_char(eq.get_char(hi2 - 1))
        invariant
            lo <= lo2 <= hi2 <= hi <= eq@.len(),
            trim_back(eq@.subrange(lo2 as int, hi as int)) == trim_back(
                eq@.subrange(lo2 as int, hi2 as int),
            ),
        decreases hi2 - lo2,
    {
        proof {
            assert(eq@.subrange(lo2 as int, hi2 as int).drop_last() =~= eq@.subrange(
                lo2 as int,
                hi2 as int - 1,
            ));
        }
        hi2 = hi2 - 1;
    }
    (lo2, hi2)
}

/// Parses the slice `[lo, hi)` of `eq` as an exact decimal number.
/// Returns `None` exactly when the slice is not a well-formed decimal
/// number or carries more than `MAX_DIGITS` digits.
pub fn parse_number(eq: &str, lo: usize, hi: usize) -> (r: Option<Dec>)
    requires
        lo <= hi <= eq@.len(),
    ensures
        ({
            let s = eq@.subrange(lo as int, hi as int);
            match r {
                Some(d) => num_within(s) && dec_wf(d) && d.m == signed_mantissa(s) && d.e
                    == num_scale(s),
                None => !num_within(s),
            }
        }),
{
    let ghost s = eq@.subrange(lo as int, hi as int);
    let mut neg = false;
    let mut bstart = lo;
    if lo < hi {
        let c0 = eq.get_char(lo);
        if c0 == '+' || c0 == '-' {
            neg = c0 == '-';
            bstart = lo + 1;
        }
    }
    let ghost b = eq@.subrange(bstart as int, hi as int);
    proof {
        if has_sign(s) {
            assert(s.drop_first() =~= eq@.subrange(lo as int + 1, hi as int));
        }
        assert(b =~= num_body(s));
        assert(neg == is_neg(s));
        lemma_pow10_9();
    }
    let mut j = bstart;
    let mut mant: i128 = 0;
    let mut digs: u32 = 0;
    let mut fl: u32 = 0;
    let mut seen_dot = false;
    while j < hi
        invariant
            lo <= bstart <= j <= hi <= eq@.len(),
            b == eq@.subrange(bstart as int, hi as int),
            b == num_body(eq@.subrange(lo as int, hi as int)),
            neg == is_neg(eq@.subrange(lo as int, hi as int)),
            mant == mantissa_of(b.subrange(0, j - bstart)),
            0 <= mant < pow10(digs as nat),
            digs == count_digits(b.subrange(0, j - bstart)),
            digs <= MAX_DIGITS,
            fl == frac_len(b.subrange(0, j - bstart)),
            fl <= digs,
            count_dots(b.subrange(0, j - bstart)) == if seen_dot {
                1int
            } else {
                0int
            },
            all_num_chars(b.subrange(0, j - bstart)),
            pow10(9) == 1_000_000_000,
        decreases hi - j,
    {
        let c = eq.get_char(j);
        let ghost k = j - bstart;
        proof {
            assert(b.subrange(0, k + 1).drop_last() =~= b.subrange(0, k));
            assert(b.subrange(0, k + 1).last() == c);
        }
        if digit_char(c) {
            if digs == MAX_DIGITS {
                proof {
                    lemma_prefix_counts(b, k + 1);
                }
                return None;
            }
            let d: u32 = c as u32 - '0' as u32;
            proof {
                lemma_pow10_increases(digs as nat, 8);
                reveal_with_fuel(pow10, 12);
            }
            mant = mant * 10 + d as i128;
            digs = digs + 1;
            if seen_dot {
                fl = fl + 1;
            }
        } else if c == '.' {
            if seen_dot {
                proof {
                    lemma_prefix_counts(b, k + 1);
                }
                return None;
            }
            seen_dot = true;
        } else {
            proof {
                assert(!(is_digit(b[k]) || b[k] == '.'));
            }
            return None;
        }
        j = j + 1;
    }
    proof {
        assert(b.subrange(0, hi - bstart) =~= b);
        lemma_pow10_increases(digs as nat, 9);
        lemma_pow10_9();
    }
    if digs == 0 {
        return None;
    }
    let m: i128 = if neg {
        -mant
    } else {
        mant
    };
    Some(Dec { m, e: fl })
}

} // verus!
