//! The determinant, computed from one forward reduction pass.
//!
//! For a square matrix the determinant is the product of the tracked pivot
//! values, negated once when the reduction recorded an odd number of row
//! swaps; a rank-deficient matrix has determinant zero.

use crate::matrix::{m_rows, m_wf, Matrix};
use crate::reduction::reduce_spec;
use crate::row_ops::RowEchelonOperation;
use crate::scalar::{lemma_wf_consts, mul_spec, neg_spec, one_s, s_wf, zero_s, Scalar};
use vstd::prelude::*;

verus! {

/// Product of the first `n` scalars, folded left from one.
pub open spec fn prod_prefix(ps: Seq<Scalar>, n: int) -> Option<Scalar>
    decreases n,
{
    if n <= 0 {
        Some(one_s())
    } else {
        match prod_prefix(ps, n - 1) {
            Some(s) => mul_spec(s, ps[n - 1]),
            None => None,
        }
    }
}

pub open spec fn prod_spec(ps: Seq<Scalar>) -> Option<Scalar> {
    prod_prefix(ps, ps.len() as int)
}

proof fn lemma_prod_none_sticks(ps: Seq<Scalar>, a: int, b: int)
    requires
        0 <= a <= b,
        prod_prefix(ps, a) is None,
    ensures
        prod_prefix(ps, b) is None,
    decreases b,
{
    if b > a {
        lemma_prod_none_sticks(ps, a, b - 1);
    }
}

/// How many of the first `n` operations are row swaps.
pub open spec fn swap_count(ops: Seq<RowEchelonOperation>, n: int) -> int
    decreases n,
{
    if n <= 0 {
        0
    } else {
        swap_count(ops, n - 1) + (if ops[n - 1] is Swap {
            1int
        } else {
            0int
        })
    }
}

/// The determinant of a square matrix, through the reduction mirror:
/// zero for the empty matrix and for fewer pivots than rows; otherwise the
/// signed product of the tracked pivots.  `None` when an exact value
/// overflows.
pub open spec fn det_spec(m: Seq<Seq<Scalar>>) -> Option<Scalar>
    recommends
        m.len() == m_rows(m),
{
    if m.len() == 0 {
        Some(zero_s())
    } else {
        let st = reduce_spec(m);
        if !st.ok {
            None
        } else if st.pivots.len() < m.len() {
            Some(zero_s())
        } else {
            match prod_spec(st.pivots) {
                Some(d) => if swap_count(st.ops, st.ops.len() as int) % 2 == 1 {
                    Some(neg_spec(d))
                } else {
                    Some(d)
                },
                None => None,
            }
        }
    }
}

impl Matrix {
    /// The determinant; the matrix must be square.  `None` when an exact
    /// intermediate value is not representable.
    pub fn determinant(&self) -> (r: Option<Scalar>)
        requires
            m_wf(self@),
            self@.len() == m_rows(self@),
        ensures
            r == det_spec(self@),
            r is Some ==> s_wf(r->Some_0),
    {
        proof {
            lemma_wf_consts();
        }
        let n: usize = self.cols();
        if n == 0 {
            return Some(Scalar::zero());
        }
        match self.row_echelon_with_details() {
            None => None,
            Some(p) => {
                let (_mat, details) = p;
                let pivots = details.tracked_pivots;
                let ops = details.operations;
                if pivots.len() < n {
                    return Some(Scalar::zero());
                }
                let ghost ps = pivots@;
                let m: usize = pivots.len();
                let mut acc: Scalar = Scalar::one();
                let mut i: usize = 0;
                while i < m
                    invariant
                        m_wf(self@),
                        self@.len() == m_rows(self@),
                        n == self@.len(),
                        0 < n <= ps.len(),
                        reduce_spec(self@).ok,
                        ps == reduce_spec(self@).pivots,
                        m == ps.len(),
                        ps == pivots@,
                        forall|j: int| 0 <= j < ps.len() ==> s_wf(#[trigger] ps[j]),
                        0 <= i <= m,
                        prod_prefix(ps, i as int) == Some(acc),
                        s_wf(acc),
                    decreases m - i,
                {
                    match acc.mul(pivots[i]) {
                        Some(v) => {
                            acc = v;
                        },
                        None => {
                            proof {
                                lemma_prod_none_sticks(ps, i as int + 1, ps.len() as int);
                            }
                            return None;
                        },
                    }
                    i += 1;
                }
                let k: usize = ops.len();
                let mut swaps: usize = 0;
                let mut j: usize = 0;
                while j < k
                    invariant
                        m_wf(self@),
                        self@.len() == m_rows(self@),
                        n == self@.len(),
                        0 < n <= reduce_spec(self@).pivots.len(),
                        reduce_spec(self@).ok,
                        ops@ == reduce_spec(self@).ops,
                        prod_spec(reduce_spec(self@).pivots) == Some(acc),
                        s_wf(acc),
                        k == ops@.len(),
                        0 <= j <= k,
                        swaps <= j,
                        swaps == swap_count(ops@, j as int),
                    decreases k - j,
                {
                    match ops[j] {
                        RowEchelonOperation::Swap(_a, _b) => {
                            swaps += 1;
                        },
                        _ => {},
                    }
                    j += 1;
                }
                if swaps % 2 == 1 {
                    Some(acc.neg())
                } else {
                    Some(acc)
                }
            },
        }
    }
}

} // verus!
