//! Dense matrices as ordered sequences of equal-length column vectors.
//!
//! The entry at column `c`, row `r` is `m@[c][r]`.  A matrix with no columns
//! is the empty matrix.

use crate::scalar::{add_spec, eqv, lemma_wf_consts, one_s, s_wf, zero_s, Scalar};
use crate::vector::{
    lc_spec, linear_combination, seq_wf, vadd, vadd_ok, views_of, vscl, vscl_ok, vsub, vsub_ok,
    Vector,
};
use vstd::prelude::*;

verus! {

#[derive(Debug)]
pub struct Matrix {
    pub(crate) vectors: Vec<Vector>,
}

impl View for Matrix {
    type V = Seq<Seq<Scalar>>;

    closed spec fn view(&self) -> Seq<Seq<Scalar>> {
        views_of(self.vectors@)
    }
}

/// Number of rows: the length of the first column (0 for no columns).
pub open spec fn m_rows(m: Seq<Seq<Scalar>>) -> int {
    if m.len() == 0 {
        0
    } else {
        m[0].len() as int
    }
}

/// All columns have the same length.
pub open spec fn m_rect(m: Seq<Seq<Scalar>>) -> bool {
    forall|c: int| 0 <= c < m.len() ==> (#[trigger] m[c]).len() == m_rows(m)
}

/// Well-formed matrix: rectangular, well-formed entries, machine-sized.
pub open spec fn m_wf(m: Seq<Seq<Scalar>>) -> bool {
    &&& m_rect(m)
    &&& forall|c: int| 0 <= c < m.len() ==> seq_wf(#[trigger] m[c])
    &&& m.len() <= usize::MAX
    &&& m_rows(m) <= usize::MAX
}

/// The `n` by `n` identity.
pub open spec fn identity_spec(n: int) -> Seq<Seq<Scalar>> {
    Seq::new(
        n as nat,
        |c: int|
            Seq::new(
                n as nat,
                |r: int|
                    if r == c {
                        one_s()
                    } else {
                        zero_s()
                    },
            ),
    )
}

/// Columns and rows exchanged.
pub open spec fn transpose_spec(m: Seq<Seq<Scalar>>) -> Seq<Seq<Scalar>> {
    Seq::new(m_rows(m) as nat, |r: int| Seq::new(m.len(), |c: int| m[c][r]))
}

/// Sum of the first `n` diagonal entries.
pub open spec fn trace_prefix(m: Seq<Seq<Scalar>>, n: int) -> Option<Scalar>
    decreases n,
{
    if n <= 0 {
        Some(zero_s())
    } else {
        match trace_prefix(m, n - 1) {
            Some(s) => add_spec(s, m[n - 1][n - 1]),
            None => None,
        }
    }
}

pub open spec fn trace_spec(m: Seq<Seq<Scalar>>) -> Option<Scalar> {
    trace_prefix(m, m.len() as int)
}

proof fn lemma_trace_none_sticks(m: Seq<Seq<Scalar>>, a: int, b: int)
    requires
        0 <= a <= b,
        trace_prefix(m, a) is None,
    ensures
        trace_prefix(m, b) is None,
    decreases b,
{
    if b > a {
        lemma_trace_none_sticks(m, a, b - 1);
    }
}

/// Matrix equality: same shape, equal rational entries.
pub open spec fn meq(a: Seq<Seq<Scalar>>, b: Seq<Seq<Scalar>>) -> bool {
    &&& a.len() == b.len()
    &&& forall|c: int|
        0 <= c < a.len() ==> (#[trigger] a[c]).len() == b[c].len() && (forall|r: int|
            0 <= r < a[c].len() ==> eqv(#[trigger] a[c][r], b[c][r]))
}

impl Matrix {
    /// A matrix made of the given columns, which must agree in length.
    pub fn new(vectors: Vec<Vector>) -> (r: Matrix)
        requires
            forall|i: int|
                0 <= i < vectors@.len() ==> (#[trigger] vectors@[i]@).len() == vectors@[0]@.len(),
        ensures
            r@ == views_of(vectors@),
    {
        Matrix { vectors }
    }

    /// The number of columns.
    pub fn size(&self) -> (r: usize)
        ensures
            r == self@.len(),
    {
        self.vectors.len()
    }

    /// The number of columns.
    pub fn cols(&self) -> (r: usize)
        ensures
            r == self@.len(),
    {
        self.vectors.len()
    }

    /// The number of rows.
    pub fn rows(&self) -> (r: usize)
        ensures
            r == m_rows(self@),
    {
        if self.vectors.len() == 0 {
            0
        } else {
            self.vectors[0].len()
        }
    }

    pub fn is_empty(&self) -> (r: bool)
        ensures
            r == (self@.len() == 0),
    {
        self.vectors.len() == 0
    }

    /// Whether row and column counts agree.
    pub fn is_square(&self) -> (r: bool)
        ensures
            r == (self@.len() == m_rows(self@)),
    {
        let c = self.cols();
        let rw = self.rows();
        c == rw
    }

    /// The columns, in order.
    pub fn vectors(&self) -> (r: &Vec<Vector>)
        ensures
            views_of(r@) == self@,
    {
        &self.vectors
    }

    /// Append a column; it must match the length of the columns present.
    pub fn push(&mut self, vector: Vector)
        requires
            old(self)@.len() > 0 ==> vector@.len() == m_rows(old(self)@),
        ensures
            final(self)@ == old(self)@.push(vector@),
    {
        self.vectors.push(vector);
        assert(final(self)@ =~= old(self)@.push(vector@));
    }

    /// The entry at column `c`, row `r`.
    pub fn get(&self, c: usize, r: usize) -> (v: Scalar)
        requires
            c < self@.len(),
            r < self@[c as int].len(),
        ensures
            v == self@[c as int][r as int],
    {
        self.vectors[c].get(r)
    }

    /// Replace the entry at column `c`, row `r`.
    pub fn set(&mut self, c: usize, r: usize, v: Scalar)
        requires
            c < old(self)@.len(),
            r < old(self)@[c as int].len(),
        ensures
            final(self)@ == old(self)@.update(c as int, old(self)@[c as int].update(r as int, v)),
    {
        self.vectors[c].set(r, v);
        assert(final(self)@ =~= old(self)@.update(
            c as int,
            old(self)@[c as int].update(r as int, v),
        ));
    }

    /// An independent copy.
    pub fn duplicate(&self) -> (r: Matrix)
        ensures
            r@ == self@,
    {
        let n: usize = self.vectors.len();
        let mut out: Vec<Vector> = Vec::new();
        let mut i: usize = 0;
        while i < n
            invariant
                n == self.vectors@.len(),
                0 <= i <= n,
                out@.len() == i,
                forall|j: int| 0 <= j < i ==> (#[trigger] out@[j])@ == self.vectors@[j]@,
            decreases n - i,
        {
            out.push(self.vectors[i].duplicate());
            i += 1;
        }
        let r = Matrix { vectors: out };
        assert(r@ =~= self@);
        r
    }

    /// The `n` by `n` identity matrix.
    pub fn identity(n: usize) -> (r: Matrix)
        ensures
            r@ == identity_spec(n as int),
            m_wf(r@),
    {
        proof {
            lemma_wf_consts();
        }
        let mut cols: Vec<Vector> = Vec::new();
        let mut c: usize = 0;
        while c < n
            invariant
                0 <= c <= n,
                cols@.len() == c,
                forall|i: int| 0 <= i < c ==> (#[trigger] cols@[i])@ == identity_spec(n as int)[i],
            decreases n - c,
        {
            let mut col: Vec<Scalar> = Vec::new();
            let mut r: usize = 0;
            while r < n
                invariant
                    0 <= r <= n,
                    c < n,
                    col@.len() == r,
                    forall|j: int|
                        0 <= j < r ==> col@[j] == (if j == c {
                            one_s()
                        } else {
                            zero_s()
                        }),
                decreases n - r,
            {
                if r == c {
                    col.push(Scalar::one());
                } else {
                    col.push(Scalar::zero());
                }
                r += 1;
            }
            let v = Vector::new(col);
            assert(v@ =~= identity_spec(n as int)[c as int]);
            cols.push(v);
            c += 1;
        }
        let m = Matrix { vectors: cols };
        assert(m@ =~= identity_spec(n as int));
        proof {
            assert forall|i: int| 0 <= i < m@.len() implies seq_wf(#[trigger] m@[i]) by {
                assert(forall|r: int| 0 <= r < m@[i].len() ==> s_wf(#[trigger] m@[i][r]));
            }
        }
        m
    }

    /// Columns and rows exchanged.
    pub fn transpose(&self) -> (r: Matrix)
        requires
            m_rect(self@),
        ensures
            r@ == transpose_spec(self@),
            m_wf(self@) ==> m_wf(r@),
    {
        let rows: usize = self.rows();
        let cols: usize = self.cols();
        let mut out: Vec<Vector> = Vec::new();
        let mut r: usize = 0;
        while r < rows
            invariant
                rows == m_rows(self@),
                cols == self@.len(),
                m_rect(self@),
                0 <= r <= rows,
                out@.len() == r,
                forall|i: int| 0 <= i < r ==> (#[trigger] out@[i])@ == transpose_spec(self@)[i],
            decreases rows - r,
        {
            let mut row: Vec<Scalar> = Vec::new();
            let mut c: usize = 0;
            while c < cols
                invariant
                    rows == m_rows(self@),
                    cols == self@.len(),
                    m_rect(self@),
                    r < rows,
                    0 <= c <= cols,
                    row@.len() == c,
                    forall|j: int| 0 <= j < c ==> row@[j] == self@[j][r as int],
                decreases cols - c,
            {
                proof {
                    assert(self.vectors@[c as int]@ == self@[c as int]);
                }
                row.push(self.vectors[c].get(r));
                c += 1;
            }
            let v = Vector::new(row);
            assert(v@ =~= transpose_spec(self@)[r as int]);
            out.push(v);
            r += 1;
        }
        let m = Matrix { vectors: out };
        assert(m@ =~= transpose_spec(self@));
        proof {
            if m_wf(self@) {
                assert forall|i: int| 0 <= i < m@.len() implies seq_wf(#[trigger] m@[i]) by {
                    assert(forall|c: int| 0 <= c < m@[i].len() ==> s_wf(#[trigger] m@[i][c]));
                }
            }
        }
        m
    }

    /// Sum of the diagonal entries; the matrix must be square.
    pub fn trace(&self) -> (r: Option<Scalar>)
        requires
            m_wf(self@),
            self@.len() == m_rows(self@),
        ensures
            r == trace_spec(self@),
            r is Some ==> s_wf(r->Some_0),
    {
        let n: usize = self.cols();
        let mut acc: Scalar = Scalar::zero();
        proof {
            lemma_wf_consts();
        }
        let mut i: usize = 0;
        while i < n
            invariant
                n == self@.len(),
                m_wf(self@),
                self@.len() == m_rows(self@),
                0 <= i <= n,
                trace_prefix(self@, i as int) == Some(acc),
                s_wf(acc),
            decreases n - i,
        {
            let d = self.get(i, i);
            match acc.add(d) {
                Some(s) => {
                    acc = s;
                },
                None => {
                    proof {
                        lemma_trace_none_sticks(self@, i as int + 1, n as int);
                    }
                    return None;
                },
            }
            i += 1;
        }
        Some(acc)
    }

    /// Component-wise sum, in place; `false` leaves it unchanged.
    pub fn add(&mut self, other: &Matrix) -> (ok: bool)
        requires
            m_wf(old(self)@),
            m_wf(other@),
            old(self)@.len() == other@.len(),
            m_rows(old(self)@) == m_rows(other@),
        ensures
            ok == (forall|c: int|
                0 <= c < old(self)@.len() ==> vadd_ok(#[trigger] old(self)@[c], other@[c])),
            ok ==> final(self)@ == Seq::new(
                old(self)@.len(),
                |c: int| vadd(old(self)@[c], other@[c]),
            ) && m_wf(final(self)@),
            !ok ==> final(self)@ == old(self)@,
    {
        let n: usize = self.vectors.len();
        let mut out: Vec<Vector> = Vec::new();
        let mut i: usize = 0;
        while i < n
            invariant
                n == self@.len(),
                m_wf(self@),
                m_wf(other@),
                self@.len() == other@.len(),
                m_rows(self@) == m_rows(other@),
                0 <= i <= n,
                out@.len() == i,
                forall|j: int|
                    0 <= j < i ==> vadd_ok(#[trigger] self@[j], other@[j]) && out@[j]@ == vadd(
                        self@[j],
                        other@[j],
                    ) && seq_wf(out@[j]@),
            decreases n - i,
        {
            proof {
                assert(self.vectors@[i as int]@ == self@[i as int]);
                assert(other.vectors@[i as int]@ == other@[i as int]);
            }
            let mut col = self.vectors[i].duplicate();
            if !col.add(&other.vectors[i]) {
                assert(!vadd_ok(self@[i as int], other@[i as int]));
                return false;
            }
            out.push(col);
            i += 1;
        }
        let ghost prev = self@;
        self.vectors = out;
        assert(self@ =~= Seq::new(prev.len(), |c: int| vadd(prev[c], other@[c])));
        proof {
            assert(m_rect(self@)) by {
                assert(forall|c: int|
                    0 <= c < self@.len() ==> (#[trigger] self@[c]).len() == prev[c].len());
            }
        }
        true
    }

    /// Component-wise difference, in place; `false` leaves it unchanged.
    pub fn sub(&mut self, other: &Matrix) -> (ok: bool)
        requires
            m_wf(old(self)@),
            m_wf(other@),
            old(self)@.len() == other@.len(),
            m_rows(old(self)@) == m_rows(other@),
        ensures
            ok == (forall|c: int|
                0 <= c < old(self)@.len() ==> vsub_ok(#[trigger] old(self)@[c], other@[c])),
            ok ==> final(self)@ == Seq::new(
                old(self)@.len(),
                |c: int| vsub(old(self)@[c], other@[c]),
            ) && m_wf(final(self)@),
            !ok ==> final(self)@ == old(self)@,
    {
        let n: usize = self.vectors.len();
        let mut out: Vec<Vector> = Vec::new();
        let mut i: usize = 0;
        while i < n
            invariant
                n == self@.len(),
                m_wf(self@),
                m_wf(other@),
                self@.len() == other@.len(),
                m_rows(self@) == m_rows(other@),
                0 <= i <= n,
                out@.len() == i,
                forall|j: int|
                    0 <= j < i ==> vsub_ok(#[trigger] self@[j], other@[j]) && out@[j]@ == vsub(
                        self@[j],
                        other@[j],
                    ) && seq_wf(out@[j]@),
            decreases n - i,
        {
            proof {
                assert(self.vectors@[i as int]@ == self@[i as int]);
                assert(other.vectors@[i as int]@ == other@[i as int]);
            }
            let mut col = self.vectors[i].duplicate();
            if !col.sub(&other.vectors[i]) {
                assert(!vsub_ok(self@[i as int], other@[i as int]));
                return false;
            }
            out.push(col);
            i += 1;
        }
        let ghost prev = self@;
        self.vectors = out;
        assert(self@ =~= Seq::new(prev.len(), |c: int| vsub(prev[c], other@[c])));
        proof {
            assert(m_rect(self@)) by {
                assert(forall|c: int|
                    0 <= c < self@.len() ==> (#[trigger] self@[c]).len() == prev[c].len());
            }
        }
        true
    }

    /// Scale every entry by `k`, in place; `false` leaves it unchanged.
    pub fn scl(&mut self, k: Scalar) -> (ok: bool)
        requires
            m_wf(old(self)@),
            s_wf(k),
        ensures
            ok == (forall|c: int| 0 <= c < old(self)@.len() ==> vscl_ok(#[trigger] old(self)@[c], k)),
            ok ==> final(self)@ == Seq::new(old(self)@.len(), |c: int| vscl(old(self)@[c], k))
                && m_wf(final(self)@),
            !ok ==> final(self)@ == old(self)@,
    {
        let n: usize = self.vectors.len();
        let mut out: Vec<Vector> = Vec::new();
        let mut i: usize = 0;
        while i < n
            invariant
                n == self@.len(),
                m_wf(self@),
                s_wf(k),
                0 <= i <= n,
                out@.len() == i,
                forall|j: int|
                    0 <= j < i ==> vscl_ok(#[trigger] self@[j], k) && out@[j]@ == vscl(self@[j], k)
                        && seq_wf(out@[j]@),
            decreases n - i,
        {
            proof {
                assert(self.vectors@[i as int]@ == self@[i as int]);
            }
            let mut col = self.vectors[i].duplicate();
            if !col.scl(k) {
                assert(!vscl_ok(self@[i as int], k));
                return false;
            }
            out.push(col);
            i += 1;
        }
        let ghost prev = self@;
        self.vectors = out;
        assert(self@ =~= Seq::new(prev.len(), |c: int| vscl(prev[c], k)));
        proof {
            assert(m_rect(self@)) by {
                assert(forall|c: int|
                    0 <= c < self@.len() ==> (#[trigger] self@[c]).len() == prev[c].len());
            }
        }
        true
    }

    /// The product of this matrix with a vector of coefficients: the linear
    /// combination of the columns weighted by `vec`.
    pub fn mul_vec(&self, vec: &Vector) -> (r: Option<Vector>)
        requires
            m_wf(self@),
            seq_wf(vec@),
            self@.len() > 0,
            vec@.len() == self@.len(),
        ensures
            match r {
                Some(v) => lc_spec(self@, vec@) == Some(v@) && seq_wf(v@) && v@.len() == m_rows(
                    self@,
                ),
                None => lc_spec(self@, vec@) is None,
            },
    {
        proof {
            assert forall|k: int| 0 <= k < self.vectors@.len() implies (#[trigger] self.vectors@[k])@
                == self@[k] by {}
        }
        linear_combination(&self.vectors, vec.scalars())
    }

    /// Matrix product: column `i` of the result is the linear combination of
    /// `other`'s columns weighted by column `i` of `self`.
    pub fn mul_mat(&self, other: &Matrix) -> (r: Option<Matrix>)
        requires
            m_wf(self@),
            m_wf(other@),
            other@.len() > 0,
            m_rows(self@) == other@.len(),
        ensures
            match r {
                Some(m) => (forall|i: int|
                    0 <= i < self@.len() ==> lc_spec(other@, self@[i]) == Some(#[trigger] m@[i]))
                    && m@.len() == self@.len() && m_wf(m@) && (self@.len() > 0 ==> m_rows(m@)
                    == m_rows(other@)),
                None => exists|i: int|
                    0 <= i < self@.len() && lc_spec(other@, #[trigger] self@[i]) is None,
            },
    {
        let n: usize = self.vectors.len();
        let mut out: Vec<Vector> = Vec::new();
        let mut i: usize = 0;
        while i < n
            invariant
                n == self@.len(),
                m_wf(self@),
                m_wf(other@),
                other@.len() > 0,
                m_rows(self@) == other@.len(),
                0 <= i <= n,
                out@.len() == i,
                forall|j: int|
                    0 <= j < i ==> lc_spec(other@, self@[j]) == Some((#[trigger] out@[j])@)
                        && seq_wf(out@[j]@) && out@[j]@.len() == m_rows(other@),
            decreases n - i,
        {
            proof {
                assert(self.vectors@[i as int]@ == self@[i as int]);
                assert forall|k: int| 0 <= k < other.vectors@.len() implies (
                #[trigger] other.vectors@[k])@ == other@[k] by {}
            }
            match linear_combination(&other.vectors, self.vectors[i].scalars()) {
                Some(col) => {
                    out.push(col);
                },
                None => {
                    return None;
                },
            }
            i += 1;
        }
        let m = Matrix { vectors: out };
        proof {
            assert(forall|j: int| 0 <= j < m@.len() ==> #[trigger] m@[j] == out@[j]@);
            if m@.len() > 0 {
                assert(m_rect(m@)) by {
                    assert(forall|c: int|
                        0 <= c < m@.len() ==> (#[trigger] m@[c]).len() == m_rows(other@));
                }
            }
        }
        Some(m)
    }

    /// Equality test used by `==` (see `PartialEq`).
    pub fn eq_mat(&self, other: &Matrix) -> (r: bool)
        ensures
            r == meq(self@, other@),
    {
        if self.vectors.len() != other.vectors.len() {
            return false;
        }
        let n: usize = self.vectors.len();
        let mut i: usize = 0;
        while i < n
            invariant
                n == self@.len(),
                self@.len() == other@.len(),
                0 <= i <= n,
                forall|j: int|
                    0 <= j < i ==> (#[trigger] self@[j]).len() == other@[j].len() && (forall|r: int|
                        0 <= r < self@[j].len() ==> eqv(#[trigger] self@[j][r], other@[j][r])),
            decreases n - i,
        {
            proof {
                assert(self.vectors@[i as int]@ == self@[i as int]);
                assert(other.vectors@[i as int]@ == other@[i as int]);
            }
            if !(self.vectors[i] == other.vectors[i]) {
                return false;
            }
            i += 1;
        }
        true
    }
}

impl PartialEq for Matrix {
    /// Equality of shape and of the denoted rational entries.
    fn eq(&self, other: &Matrix) -> (r: bool) {
        self.eq_mat(other)
    }
}

impl vstd::std_specs::cmp::PartialEqSpecImpl for Matrix {
    open spec fn obeys_eq_spec() -> bool {
        true
    }

    open spec fn eq_spec(&self, other: &Matrix) -> bool {
        meq(self@, other@)
    }
}

} // verus!
