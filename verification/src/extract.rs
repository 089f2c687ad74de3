//! Coefficient extraction for the quadratic shape `ax + bx + c`.
//!
//! With the two validated position lists in hand, the three coefficient
//! slices are cut out of the text along explicit boundaries: the first
//! coefficient runs from the start of the text to the first marker, the
//! second from just past the first operator to the second marker, and
//! the constant from just past the second operator to the end.  An empty
//! coefficient slice stands for an implicit coefficient of one.  The
//! sign written between a term and the term after it negates the later
//! term's coefficient.

use vstd::prelude::*;
use vstd::string::StrSliceExecFns;

use crate::num::{
    dec_wf, num_scale, num_within, parse_number, signed_mantissa, trim_bounds, trim_seq, Dec,
};
use crate::scan::{
    lemma_op_positions_props, lemma_x_positions_props, op_positions, placement_ok, x_positions,
};

verus! {

/// The trimmed slice of the first coefficient: start of text up to the
/// first variable marker.
pub open spec fn slice_a(s: Seq<char>) -> Seq<char> {
    trim_seq(s.subrange(0, x_positions(s)[0]))
}

/// The trimmed slice of the second coefficient: just past the first
/// operator up to the second variable marker.
pub open spec fn slice_b(s: Seq<char>) -> Seq<char> {
    trim_seq(s.subrange(op_positions(s)[0] + 1, x_positions(s)[1]))
}

/// The trimmed slice of the constant term: just past the second
/// operator up to the end of the text.
pub open spec fn slice_c(s: Seq<char>) -> Seq<char> {
    trim_seq(s.subrange(op_positions(s)[1] + 1, s.len() as int))
}

/// Whether the sign slice behind variable term `i` — the characters
/// after the marker up to and including operator `i` — carries a minus,
/// which negates the term that follows.
pub open spec fn neg_after(s: Seq<char>, i: int) -> bool {
    exists|j: int| x_positions(s)[i] < j <= op_positions(s)[i] && s[j] == '-'
}

/// The mantissa a coefficient slice denotes: an empty slice stands for
/// an implicit one; a preceding minus sign negates it.
pub open spec fn term_mantissa(slice: Seq<char>, negate: bool) -> int {
    let base = if slice.len() == 0 {
        1int
    } else {
        signed_mantissa(slice)
    };
    if negate {
        -base
    } else {
        base
    }
}

/// The scale of a coefficient slice; an empty slice is the integer one.
pub open spec fn term_scale(slice: Seq<char>) -> nat {
    if slice.len() == 0 {
        0
    } else {
        num_scale(slice)
    }
}

/// A coefficient slice is acceptable when it is empty (implicit one) or
/// a well-formed decimal number within the digit budget.
pub open spec fn coef_ok(slice: Seq<char>) -> bool {
    slice.len() == 0 || num_within(slice)
}

/// All three slices of a two-term equation are acceptable numbers; the
/// constant slice may not be empty.
pub open spec fn inputs_ok(s: Seq<char>) -> bool {
    coef_ok(slice_a(s)) && coef_ok(slice_b(s)) && num_within(slice_c(s))
}

/// A bare variable term — one whose coefficient slice is empty — is
/// treated as having coefficient one: its mantissa is `1` (or `-1`
/// under a preceding minus sign) at scale zero.
pub proof fn lemma_bare_term_is_one(slice: Seq<char>, negate: bool)
    requires
        slice.len() == 0,
    ensures
        term_mantissa(slice, negate) == if negate {
            -1int
        } else {
            1int
        },
        term_scale(slice) == 0,
{
}

/// Scans `(from, to]` of `eq` for a minus sign.
fn has_minus_between(eq: &str, from: usize, to: usize) -> (r: bool)
    requires
        from < eq@.len(),
        to < eq@.len(),
        from < usize::MAX,
        to < usize::MAX,
    ensures
        r == exists|j: int| from < j <= to && eq@[j] == '-',
{
    let mut j = from + 1;
    while j <= to
        invariant
            from < j,
            to < eq@.len(),
            to < usize::MAX,
            forall|k: int| from < k < j ==> eq@[k] != '-',
        decreases to + 1 - j,
    {
        if eq.get_char(j) == '-' {
            return true;
        }
        j = j + 1;
    }
    false
}

/// Extracts the three coefficients of a validated two-term equation as
/// exact decimals, in the order quadratic, linear, constant.  Returns
/// `None` exactly when one of the slices is not an acceptable number.
pub fn get_coef(eq: &str, x_inds: &Vec<usize>, op_inds: &Vec<usize>) -> (r: Option<
    (Dec, Dec, Dec),
>)
    requires
        x_inds@.map_values(|u: usize| u as int) == x_positions(eq@),
        op_inds@.map_values(|u: usize| u as int) == op_positions(eq@),
        x_inds@.len() == 2,
        op_inds@.len() == 2,
        placement_ok(x_positions(eq@), op_positions(eq@)),
    ensures
        ({
            let s = eq@;
            match r {
                Some(t) => inputs_ok(s) && dec_wf(t.0) && dec_wf(t.1) && dec_wf(t.2) && t.0.m
                    == term_mantissa(slice_a(s), false) && t.0.e == term_scale(slice_a(s)) && t.1.m
                    == term_mantissa(slice_b(s), neg_after(s, 0)) && t.1.e == term_scale(
                    slice_b(s),
                ) && t.2.m == term_mantissa(slice_c(s), neg_after(s, 1)) && t.2.e == term_scale(
                    slice_c(s),
                ),
                None => !inputs_ok(s),
            }
        }),
{
    let n = eq.unicode_len();
    let x0 = x_inds[0];
    let x1 = x_inds[1];
    let o0 = op_inds[0];
    let o1 = op_inds[1];
    proof {
        lemma_x_positions_props(eq@);
        lemma_op_positions_props(eq@);
        assert(x_positions(eq@)[0] == x_inds@[0] as int);
        assert(x_positions(eq@)[1] == x_inds@[1] as int);
        assert(op_positions(eq@)[0] == op_inds@[0] as int);
        assert(op_positions(eq@)[1] == op_inds@[1] as int);
        assert(x_positions(eq@)[0] <= op_positions(eq@)[0] && op_positions(eq@)[0]
            <= x_positions(eq@)[1]);
        assert(eq@[x0 as int] == 'x' && eq@[x1 as int] == 'x');
        assert(eq@[o0 as int] == '+' || eq@[o0 as int] == '-');
        assert(x0 < o0 && o0 < x1);
        assert(x0 < n && x1 < n && o0 < n && o1 < n);
    }
    let (al, ah) = trim_bounds(eq, 0, x0);
    let a = if al == ah {
        proof {
            assert(slice_a(eq@) =~= Seq::<char>::empty());
        }
        Dec { m: 1, e: 0 }
    } else {
        match parse_number(eq, al, ah) {
            Some(d) => d,
            None => {
                return None;
            },
        }
    };
    let negb = has_minus_between(eq, x0, o0);
    let (bl, bh) = trim_bounds(eq, o0 + 1, x1);
    let b0 = if bl == bh {
        proof {
            assert(slice_b(eq@) =~= Seq::<char>::empty());
        }
        Dec { m: 1, e: 0 }
    } else {
        match parse_number(eq, bl, bh) {
            Some(d) => d,
            None => {
                return None;
            },
        }
    };
    let b = Dec {
        m: if negb {
            -b0.m
        } else {
            b0.m
        },
        e: b0.e,
    };
    let negc = has_minus_between(eq, x1, o1);
    let (cl, ch) = trim_bounds(eq, o1 + 1, n);
    let c0 = match parse_number(eq, cl, ch) {
        Some(d) => d,
        None => {
            return None;
        },
    };
    let c = Dec {
        m: if negc {
            -c0.m
        } else {
            c0.m
        },
        e: c0.e,
    };
    Some((a, b, c))
}

} // verus!
