//! Scanning the equation text for term markers and operators, and
//! validating the operator placement.
//!
//! A single left-to-right pass records the zero-based character offset
//! of every variable marker `x` and of every `+`/`-` operator.  The
//! validator then checks that each operator stands between the variable
//! term it follows and the one it precedes.

use vstd::prelude::*;
use vstd::string::StrSliceExecFns;

verus! {

/// The ordered positions of the variable marker `x` in `s`.
pub open spec fn x_positions(s: Seq<char>) -> Seq<int>
    decreases s.len(),
{
    if s.len() == 0 {
        Seq::empty()
    } else if s.last() == 'x' {
        x_positions(s.drop_last()).push(s.len() - 1)
    } else {
        x_positions(s.drop_last())
    }
}

/// The ordered positions of the operators `+` and `-` in `s`.
pub open spec fn op_positions(s: Seq<char>) -> Seq<int>
    decreases s.len(),
{
    if s.len() == 0 {
        Seq::empty()
    } else if s.last() == '+' || s.last() == '-' {
        op_positions(s.drop_last()).push(s.len() - 1)
    } else {
        op_positions(s.drop_last())
    }
}

/// Structural validity of operator placement: as many operators as
/// variable terms, and every operator except the last lies between the
/// variable term it follows and the next one.
pub open spec fn placement_ok(x: Seq<int>, o: Seq<int>) -> bool {
    &&& x.len() == o.len()
    &&& forall|i: int|
        0 <= i && i + 1 < x.len() ==> x[i] <= #[trigger] o[i] && o[i] <= x[i + 1]
}

/// Every recorded marker position is a position of `'x'` in `s`, and
/// the positions are strictly increasing.
pub proof fn lemma_x_positions_props(s: Seq<char>)
    ensures
        forall|i: int|
            0 <= i < x_positions(s).len() ==> 0 <= #[trigger] x_positions(s)[i] < s.len()
                && s[x_positions(s)[i]] == 'x',
        forall|i: int, j: int|
            0 <= i < j < x_positions(s).len() ==> #[trigger] x_positions(s)[i]
                < #[trigger] x_positions(s)[j],
    decreases s.len(),
{
    if s.len() > 0 {
        lemma_x_positions_props(s.drop_last());
        let pre = x_positions(s.drop_last());
        let cur = x_positions(s);
        assert forall|i: int| 0 <= i < cur.len() implies 0 <= cur[i] < s.len() && s[cur[i]]
            == 'x' by {
            if i < pre.len() {
                assert(cur[i] == pre[i]);
                assert(s.drop_last()[pre[i]] == s[pre[i]]);
            }
        }
        assert forall|i: int, j: int| 0 <= i < j < cur.len() implies cur[i] < cur[j] by {
            if j < pre.len() {
                assert(cur[i] == pre[i] && cur[j] == pre[j]);
            } else {
                assert(cur[i] == pre[i] && pre[i] < s.drop_last().len());
            }
        }
    }
}

/// Every recorded operator position is a position of `'+'` or `'-'` in
/// `s`, and the positions are strictly increasing.
pub proof fn lemma_op_positions_props(s: Seq<char>)
    ensures
        forall|i: int|
            0 <= i < op_positions(s).len() ==> 0 <= #[trigger] op_positions(s)[i] < s.len() && (
            s[op_positions(s)[i]] == '+' || s[op_positions(s)[i]] == '-'),
        forall|i: int, j: int|
            0 <= i < j < op_positions(s).len() ==> #[trigger] op_positions(s)[i]
                < #[trigger] op_positions(s)[j],
    decreases s.len(),
{
    if s.len() > 0 {
        lemma_op_positions_props(s.drop_last());
        let pre = op_positions(s.drop_last());
        let cur = op_positions(s);
        assert forall|i: int| 0 <= i < cur.len() implies 0 <= cur[i] < s.len() && (s[cur[i]] == '+'
            || s[cur[i]] == '-') by {
            if i < pre.len() {
                assert(cur[i] == pre[i]);
                assert(s.drop_last()[pre[i]] == s[pre[i]]);
            }
        }
        assert forall|i: int, j: int| 0 <= i < j < cur.len() implies cur[i] < cur[j] by {
            if j < pre.len() {
                assert(cur[i] == pre[i] && cur[j] == pre[j]);
            } else {
                assert(cur[i] == pre[i] && pre[i] < s.drop_last().len());
            }
        }
    }
}

/// Scans `eq` once and returns the marker positions and the operator
/// positions, each in order of appearance.
pub fn scan(eq: &str) -> (r: (Vec<usize>, Vec<usize>))
    ensures
        r.0@.map_values(|u: usize| u as int) == x_positions(eq@),
        r.1@.map_values(|u: usize| u as int) == op_positions(eq@),
{
    let n = eq.unicode_len();
    let mut x_inds: Vec<usize> = Vec::new();
    let mut op_inds: Vec<usize> = Vec::new();
    let mut i: usize = 0;
    while i < n
        invariant
            i <= n == eq@.len(),
            x_inds@.map_values(|u: usize| u as int) == x_positions(eq@.subrange(0, i as int)),
            op_inds@.map_values(|u: usize| u as int) == op_positions(eq@.subrange(0, i as int)),
        decreases n - i,
    {
        let c = eq.get_char(i);
        proof {
            assert(eq@.subrange(0, i as int + 1).drop_last() =~= eq@.subrange(0, i as int));
            assert(eq@.subrange(0, i as int + 1).last() == c);
        }
        if c == 'x' {
            x_inds.push(i);
            proof {
                assert(x_inds@.map_values(|u: usize| u as int) =~= x_positions(
                    eq@.subrange(0, i as int + 1),
                ));
            }
        } else if c == '+' || c == '-' {
            op_inds.push(i);
            proof {
                assert(op_inds@.map_values(|u: usize| u as int) =~= op_positions(
                    eq@.subrange(0, i as int + 1),
                ));
            }
        }
        i = i + 1;
    }
    proof {
        assert(eq@.subrange(0, n as int) =~= eq@);
    }
    (x_inds, op_inds)
}

/// Decides whether the operator placement is structurally valid
/// relative to the variable-term placement.
pub fn verify(x_inds: &Vec<usize>, op_inds: &Vec<usize>) -> (r: bool)
    ensures
        r == placement_ok(
            x_inds@.map_values(|u: usize| u as int),
            op_inds@.map_values(|u: usize| u as int),
        ),
{
    let ghost xm = x_inds@.map_values(|u: usize| u as int);
    let ghost om = op_inds@.map_values(|u: usize| u as int);
    if x_inds.len() != op_inds.len() {
        return false;
    }
    let n = x_inds.len();
    let mut i: usize = 0;
    while i < n && i + 1 < n
        invariant
            n == x_inds@.len(),
            xm == x_inds@.map_values(|u: usize| u as int),
            om == op_inds@.map_values(|u: usize| u as int),
            x_inds@.len() == op_inds@.len(),
            i <= x_inds@.len(),
            forall|j: int|
                0 <= j && j + 1 < xm.len() && j < i ==> xm[j] <= #[trigger] om[j] && om[j] <= xm[j
                    + 1],
        decreases x_inds@.len() - i,
    {
        if op_inds[i] < x_inds[i] || op_inds[i] > x_inds[i + 1] {
            proof {
                assert(xm[i as int] == x_inds@[i as int] as int);
                assert(om[i as int] == op_inds@[i as int] as int);
                assert(xm[i as int + 1] == x_inds@[i as int + 1] as int);
            }
            return false;
        }
        proof {
            assert(xm[i as int] == x_inds@[i as int] as int);
            assert(om[i as int] == op_inds@[i as int] as int);
            assert(xm[i as int + 1] == x_inds@[i as int + 1] as int);
        }
        i = i + 1;
    }
    true
}

} // verus!
