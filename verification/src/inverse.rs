//! The matrix inverse, by Gauss–Jordan elimination.
//!
//! Forward-reduce the matrix while logging the operations; a rank-deficient
//! matrix is reported as `SingularMatrix`.  Otherwise back-substitution
//! clears the entries above each pivot, and replaying the whole log — the
//! forward pass, then the back pass — onto the identity matrix yields the
//! inverse.

use crate::matrix::{identity_spec, m_rows, m_wf, Matrix};
use crate::reduction::{elim_one, reduce_spec, RowStep};
use crate::row_ops::{apply_ops_ok, apply_ops_spec, ops_valid, RowEchelonOperation};
use crate::scalar::Scalar;
use vstd::prelude::*;

verus! {

/// Why no inverse was returned.
#[derive(Clone, Copy, Debug, PartialEq, Eq, Structural)]
pub enum Error {
    /// The matrix is singular: it has no inverse.
    SingularMatrix,
    /// An exact intermediate value was not representable.
    Unrepresentable,
}

/// Clear rows `0 .. r` above the pivot at `(p, p)` by row additions.
pub open spec fn elim_above_upto(st: RowStep, p: int, r: int) -> RowStep
    decreases r,
{
    if r <= 0 {
        st
    } else {
        elim_one(elim_above_upto(st, p, r - 1), p, p, r - 1)
    }
}

/// Back-substitution over pivot columns `1 .. i`, left to right.
pub open spec fn back_upto(m: Seq<Seq<Scalar>>, i: int) -> RowStep
    decreases i,
{
    if i <= 1 {
        RowStep { ok: true, mat: m, ops: Seq::empty() }
    } else {
        elim_above_upto(back_upto(m, i - 1), i - 1, i - 1)
    }
}

/// The whole back-substitution pass over a square matrix.
pub open spec fn back_spec(m: Seq<Seq<Scalar>>) -> RowStep {
    back_upto(m, m.len() as int)
}

proof fn lemma_elim_above_fail_sticks(st: RowStep, p: int, r: int)
    requires
        !st.ok,
    ensures
        elim_above_upto(st, p, r) == st,
    decreases r,
{
    if r > 0 {
        lemma_elim_above_fail_sticks(st, p, r - 1);
    }
}

proof fn lemma_elim_above_fail_from(st: RowStep, p: int, mid: int, r: int)
    requires
        0 <= mid <= r,
        !elim_above_upto(st, p, mid).ok,
    ensures
        elim_above_upto(st, p, r) == elim_above_upto(st, p, mid),
    decreases r - mid,
{
    if r > mid {
        lemma_elim_above_fail_from(st, p, mid, r - 1);
    }
}

proof fn lemma_back_fail_from(m: Seq<Seq<Scalar>>, mid: int, i: int)
    requires
        1 <= mid <= i,
        !back_upto(m, mid).ok,
    ensures
        back_upto(m, i) == back_upto(m, mid),
    decreases i - mid,
{
    if i > mid {
        lemma_back_fail_from(m, mid, i - 1);
        lemma_elim_above_fail_sticks(back_upto(m, mid), i - 1, i - 1);
    }
}

/// The inverse through the mirror: the forward reduction must succeed and
/// find a full set of pivots, the back pass and the replay onto the
/// identity must stay representable.
pub open spec fn inverse_spec(m: Seq<Seq<Scalar>>) -> Result<Seq<Seq<Scalar>>, Error>
    recommends
        m.len() == m_rows(m),
{
    let st = reduce_spec(m);
    if !st.ok {
        Err(Error::Unrepresentable)
    } else if st.pivots.len() < m_rows(m) {
        Err(Error::SingularMatrix)
    } else {
        let bs = back_spec(st.mat);
        if !bs.ok {
            Err(Error::Unrepresentable)
        } else {
            let all = st.ops + bs.ops;
            if apply_ops_ok(identity_spec(m.len() as int), all) {
                Ok(apply_ops_spec(identity_spec(m.len() as int), all))
            } else {
                Err(Error::Unrepresentable)
            }
        }
    }
}

impl Matrix {
    /// Clear every entry above the pivot at `(p, p)` by row additions,
    /// appending the operations performed to `ops`.
    fn nullify_rows_above_pivot(&mut self, p: usize, ops: &mut Vec<RowEchelonOperation>) -> (ok:
        bool)
        requires
            m_wf(old(self)@),
            p < old(self)@.len(),
            p < m_rows(old(self)@),
            ops_valid(old(ops)@, m_rows(old(self)@)),
        ensures
            ({
                let e = elim_above_upto(
                    RowStep { ok: true, mat: old(self)@, ops: old(ops)@ },
                    p as int,
                    p as int,
                );
                &&& ok == e.ok
                &&& ok ==> final(self)@ == e.mat && final(ops)@ == e.ops && m_wf(final(self)@)
                    && final(self)@.len() == old(self)@.len() && m_rows(final(self)@) == m_rows(
                    old(self)@,
                ) && ops_valid(final(ops)@, m_rows(old(self)@))
            }),
    {
        let ghost st0 = RowStep { ok: true, mat: self@, ops: ops@ };
        let mut r: usize = 0;
        while r < p
            invariant
                m_wf(self@),
                p < self@.len(),
                p < m_rows(self@),
                self@.len() == old(self)@.len(),
                m_rows(self@) == m_rows(old(self)@),
                st0 == (RowStep { ok: true, mat: old(self)@, ops: old(ops)@ }),
                ops_valid(ops@, m_rows(old(self)@)),
                0 <= r <= p,
                elim_above_upto(st0, p as int, r as int) == (RowStep {
                    ok: true,
                    mat: self@,
                    ops: ops@,
                }),
            decreases p - r,
        {
            let ghost prev = RowStep { ok: true, mat: self@, ops: ops@ };
            let factor = self.get(p, r);
            if !factor.is_zero() {
                let k = factor.neg();
                match self.add_scaled_row(r, p, k) {
                    Some(op) => {
                        ops.push(op);
                    },
                    None => {
                        proof {
                            let failed = elim_one(prev, p as int, p as int, r as int);
                            assert(!failed.ok);
                            assert(elim_above_upto(st0, p as int, r as int + 1) == failed);
                            lemma_elim_above_fail_from(st0, p as int, r as int + 1, p as int);
                        }
                        return false;
                    },
                }
            }
            proof {
                assert(elim_above_upto(st0, p as int, r as int + 1) == elim_one(
                    prev,
                    p as int,
                    p as int,
                    r as int,
                ));
            }
            r += 1;
        }
        true
    }

    /// The back-substitution pass: clear the entries above every pivot of a
    /// square forward-reduced matrix, returning the operations this takes
    /// (the matrix itself is not changed).  `None` when an exact value is
    /// not representable.
    pub fn back_substitution(&self) -> (r: Option<Vec<RowEchelonOperation>>)
        requires
            m_wf(self@),
            self@.len() == m_rows(self@),
        ensures
            match r {
                Some(ops) => back_spec(self@).ok && ops@ == back_spec(self@).ops && ops_valid(
                    ops@,
                    m_rows(self@),
                ),
                None => !back_spec(self@).ok,
            },
    {
        let n: usize = self.cols();
        let mut work = self.duplicate();
        let mut ops: Vec<RowEchelonOperation> = Vec::new();
        let mut i: usize = 1;
        if n <= 1 {
            return Some(ops);
        }
        while i < n
            invariant
                m_wf(self@),
                self@.len() == m_rows(self@),
                n == self@.len(),
                1 <= i <= n,
                m_wf(work@),
                work@.len() == self@.len(),
                m_rows(work@) == m_rows(self@),
                ops_valid(ops@, m_rows(self@)),
                back_upto(self@, i as int) == (RowStep { ok: true, mat: work@, ops: ops@ }),
            decreases n - i,
        {
            let ok = work.nullify_rows_above_pivot(i, &mut ops);
            proof {
                assert(back_upto(self@, i as int + 1) == elim_above_upto(
                    back_upto(self@, i as int),
                    i as int,
                    i as int,
                ));
            }
            if !ok {
                proof {
                    lemma_back_fail_from(self@, i as int + 1, n as int);
                }
                return None;
            }
            i += 1;
        }
        Some(ops)
    }

    /// The inverse of a square matrix, or `SingularMatrix` when it has
    /// none; `Unrepresentable` when an exact intermediate value overflows.
    /// The input is never mutated.
    pub fn inverse(&self) -> (r: Result<Matrix, Error>)
        requires
            m_wf(self@),
            self@.len() == m_rows(self@),
        ensures
            match r {
                Ok(m) => inverse_spec(self@) is Ok && m@ == inverse_spec(self@)->Ok_0 && m_wf(m@),
                Err(e) => inverse_spec(self@) == Err::<Seq<Seq<Scalar>>, Error>(e),
            },
    {
        let n: usize = self.cols();
        match self.row_echelon_with_details() {
            None => Err(Error::Unrepresentable),
            Some(p) => {
                let (reduced, details) = p;
                if details.tracked_pivots.len() < n {
                    return Err(Error::SingularMatrix);
                }
                let mut ops = details.operations;
                let ghost fwd = ops@;
                match reduced.back_substitution() {
                    None => Err(Error::Unrepresentable),
                    Some(back_ops) => {
                        let k: usize = back_ops.len();
                        let mut j: usize = 0;
                        while j < k
                            invariant
                                k == back_ops@.len(),
                                0 <= j <= k,
                                ops@ == fwd + back_ops@.take(j as int),
                            decreases k - j,
                        {
                            ops.push(back_ops[j]);
                            proof {
                                assert(fwd + back_ops@.take(j as int + 1) =~= (fwd
                                    + back_ops@.take(j as int)).push(back_ops@[j as int]));
                            }
                            j += 1;
                        }
                        proof {
                            assert(back_ops@.take(k as int) =~= back_ops@);
                        }
                        let mut id = Matrix::identity(n);
                        proof {
                            assert(ops_valid(ops@, m_rows(id@))) by {
                                assert(m_rows(id@) == m_rows(self@));
                                assert(forall|q: int|
                                    0 <= q < ops@.len() ==> #[trigger] ops@[q] == (if q < fwd.len() {
                                        fwd[q]
                                    } else {
                                        back_ops@[q - fwd.len()]
                                    }));
                            }
                        }
                        let ok = id.apply_all(&ops);
                        if ok {
                            Ok(id)
                        } else {
                            Err(Error::Unrepresentable)
                        }
                    },
                }
            },
        }
    }
}

} // verus!
