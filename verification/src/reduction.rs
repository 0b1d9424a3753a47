//! The row-reduction engine.
//!
//! `row_echelon_with_details` transforms a matrix into row echelon form by
//! Gaussian elimination with partial pivoting: for each pivot step the
//! largest-magnitude candidate in the leftmost eligible column is chosen,
//! swapped into place, normalized to one, and used to clear the entries
//! below it.  The whole computation is mirrored, step for step, by the spec
//! function `reduce_spec`, and the contracts pin the executable results to
//! that mirror — the returned matrix, the tracked pivots, and the operation
//! log alike.

use crate::matrix::{m_rows, m_wf, Matrix};
use crate::row_ops::{
    add_row_ok, add_row_spec, div_row_ok, div_row_spec, ops_valid, swap_rows_spec,
    RowEchelonOperation,
};
use crate::scalar::{mag_gt_spec, neg_spec, s_wf, Scalar};
use vstd::prelude::*;

verus! {

// ---------------------------------------------------------------------------
// Pivot search
// ---------------------------------------------------------------------------

/// One step of the column scan: take `i` as the new best candidate when its
/// entry is nonzero and strictly larger in magnitude than the best so far.
pub open spec fn scan_step(col: Seq<Scalar>, best: Option<int>, i: int) -> Option<int> {
    if col[i].num == 0 {
        best
    } else {
        match best {
            None => Some(i),
            Some(j) => if mag_gt_spec(col[i], col[j]) {
                Some(i)
            } else {
                best
            },
        }
    }
}

/// Scan rows `i .. upto` of a column, carrying the best candidate so far.
pub open spec fn scan_col(col: Seq<Scalar>, best: Option<int>, i: int, upto: int) -> Option<int>
    decreases upto - i,
{
    if i >= upto {
        best
    } else {
        scan_col(col, scan_step(col, best, i), i + 1, upto)
    }
}

/// The first column at index `c` or later holding a nonzero entry in rows
/// `min_row` and below, with its largest-magnitude row.
pub open spec fn find_pivot_from(m: Seq<Seq<Scalar>>, min_row: int, c: int) -> Option<(int, int)>
    decreases m.len() - c,
{
    if c < 0 || c >= m.len() {
        None
    } else {
        match scan_col(m[c], None, min_row, m_rows(m)) {
            Some(r) => Some((c, r)),
            None => find_pivot_from(m, min_row, c + 1),
        }
    }
}

pub open spec fn find_pivot_spec(m: Seq<Seq<Scalar>>, min_row: int) -> Option<(int, int)> {
    find_pivot_from(m, min_row, 0)
}

/// A selected candidate lies in range and is nonzero.
pub proof fn lemma_scan_props(col: Seq<Scalar>, best: Option<int>, i: int, upto: int)
    requires
        best is Some ==> 0 <= best->Some_0 < i && col[best->Some_0].num != 0,
        0 <= i,
    ensures
        scan_col(col, best, i, upto) is Some ==> {
            let r = scan_col(col, best, i, upto)->Some_0;
            0 <= r < upto || (best is Some && r == best->Some_0 && r < i)
        },
        scan_col(col, best, i, upto) is Some ==> col[scan_col(col, best, i, upto)->Some_0].num
            != 0,
        scan_col(col, best, i, upto) is Some ==> scan_col(col, best, i, upto)->Some_0 >= (
        match best {
            Some(j) => j,
            None => i,
        }),
        best is Some ==> scan_col(col, best, i, upto) is Some,
    decreases upto - i,
{
    if i < upto {
        lemma_scan_props(col, scan_step(col, best, i), i + 1, upto);
    }
}

/// When the scan finds nothing, every entry in the range is zero.
pub proof fn lemma_scan_none(col: Seq<Scalar>, best: Option<int>, i: int, upto: int)
    requires
        scan_col(col, best, i, upto) is None,
    ensures
        best is None,
        forall|r: int| i <= r < upto ==> col[r].num == 0,
    decreases upto - i,
{
    if i < upto {
        lemma_scan_none(col, scan_step(col, best, i), i + 1, upto);
    }
}

/// When the pivot search finds nothing, every remaining entry is zero.
pub proof fn lemma_find_pivot_none(m: Seq<Seq<Scalar>>, min_row: int, c: int)
    requires
        find_pivot_from(m, min_row, c) is None,
        0 <= c,
    ensures
        forall|cc: int, r: int|
            c <= cc < m.len() && min_row <= r < m_rows(m) ==> m[cc][r].num == 0,
    decreases m.len() - c,
{
    if c < m.len() {
        lemma_scan_none(m[c], None, min_row, m_rows(m));
        lemma_find_pivot_none(m, min_row, c + 1);
        assert forall|cc: int, r: int|
            c <= cc < m.len() && min_row <= r < m_rows(m) implies m[cc][r].num == 0 by {
            if cc == c {
                assert(m[c][r].num == 0);
            }
        }
    }
}

/// What a found pivot guarantees: in range, nonzero, and every column to its
/// left is zero from `min_row` down.
pub proof fn lemma_find_pivot_some(m: Seq<Seq<Scalar>>, min_row: int, c: int)
    requires
        0 <= c,
        0 <= min_row,
        find_pivot_from(m, min_row, c) is Some,
    ensures
        ({
            let (pc, pr) = find_pivot_from(m, min_row, c)->Some_0;
            &&& c <= pc < m.len()
            &&& min_row <= pr < m_rows(m)
            &&& m[pc][pr].num != 0
            &&& forall|cc: int, r: int|
                c <= cc < pc && min_row <= r < m_rows(m) ==> m[cc][r].num == 0
        }),
    decreases m.len() - c,
{
    let (pc, pr) = find_pivot_from(m, min_row, c)->Some_0;
    if c < m.len() {
        if scan_col(m[c], None, min_row, m_rows(m)) is Some {
            lemma_scan_props(m[c], None, min_row, m_rows(m));
        } else {
            lemma_scan_none(m[c], None, min_row, m_rows(m));
            lemma_find_pivot_some(m, min_row, c + 1);
            assert forall|cc: int, r: int|
                c <= cc < pc && min_row <= r < m_rows(m) implies m[cc][r].num == 0 by {
                if cc == c {
                    assert(m[c][r].num == 0);
                }
            }
        }
    }
}

// ---------------------------------------------------------------------------
// The mirror of one pivot step
// ---------------------------------------------------------------------------

/// Spec-level snapshot of an elimination in progress.
pub struct RowStep {
    pub ok: bool,
    pub mat: Seq<Seq<Scalar>>,
    pub ops: Seq<RowEchelonOperation>,
}

/// Clear the entry of row `r` in the pivot column by adding
/// `-entry` times the (normalized) pivot row `prow`.
pub open spec fn elim_one(st: RowStep, pcol: int, prow: int, r: int) -> RowStep {
    if !st.ok {
        st
    } else {
        let f = st.mat[pcol][r];
        if f.num == 0 {
            st
        } else {
            let k = neg_spec(f);
            if add_row_ok(st.mat, r, prow, k) {
                RowStep {
                    ok: true,
                    mat: add_row_spec(st.mat, r, prow, k),
                    ops: st.ops.push(
                        RowEchelonOperation::AddScaledRow(r as usize, prow as usize, k),
                    ),
                }
            } else {
                RowStep { ok: false, mat: st.mat, ops: st.ops }
            }
        }
    }
}

/// Eliminate rows `prow + 1 .. j` below the pivot at `(pcol, prow)`.
pub open spec fn elim_below_upto(st: RowStep, pcol: int, prow: int, j: int) -> RowStep
    decreases j - prow,
{
    if j <= prow + 1 {
        st
    } else {
        elim_one(elim_below_upto(st, pcol, prow, j - 1), pcol, prow, j - 1)
    }
}

/// Spec-level snapshot of a whole reduction in progress.
pub struct ReduceState {
    /// No unrepresentable exact value has been hit.
    pub ok: bool,
    /// The pivot search found nothing: the reduction is over early.
    pub stopped: bool,
    pub mat: Seq<Seq<Scalar>>,
    pub pivots: Seq<Scalar>,
    /// The pivot columns, in step order.
    pub pcols: Seq<int>,
    pub ops: Seq<RowEchelonOperation>,
}

pub open spec fn init_state(m: Seq<Seq<Scalar>>) -> ReduceState {
    ReduceState {
        ok: true,
        stopped: false,
        mat: m,
        pivots: Seq::empty(),
        pcols: Seq::empty(),
        ops: Seq::empty(),
    }
}

/// One pivot step at row index `k`: find the pivot, swap it into place,
/// record it, normalize its row to one, and clear the entries below it.
pub open spec fn reduce_step(st: ReduceState, k: int) -> ReduceState {
    if !st.ok || st.stopped {
        st
    } else {
        match find_pivot_spec(st.mat, k) {
            None => ReduceState { stopped: true, ..st },
            Some(pcpr) => {
                let pc = pcpr.0;
                let pr = pcpr.1;
                let m1 = if pr != k {
                    swap_rows_spec(st.mat, pr, k)
                } else {
                    st.mat
                };
                let ops1 = if pr != k {
                    st.ops.push(RowEchelonOperation::Swap(pr as usize, k as usize))
                } else {
                    st.ops
                };
                let p = m1[pc][k];
                if div_row_ok(m1, k, p) {
                    let e = elim_below_upto(
                        RowStep {
                            ok: true,
                            mat: div_row_spec(m1, k, p),
                            ops: ops1.push(RowEchelonOperation::Divide(k as usize, p)),
                        },
                        pc,
                        k,
                        m_rows(st.mat),
                    );
                    ReduceState {
                        ok: e.ok,
                        stopped: false,
                        mat: e.mat,
                        pivots: st.pivots.push(p),
                        pcols: st.pcols.push(pc),
                        ops: e.ops,
                    }
                } else {
                    ReduceState {
                        ok: false,
                        stopped: false,
                        mat: m1,
                        pivots: st.pivots.push(p),
                        pcols: st.pcols.push(pc),
                        ops: ops1,
                    }
                }
            },
        }
    }
}

/// The state after the first `n` pivot steps.
pub open spec fn reduce_upto(m: Seq<Seq<Scalar>>, n: int) -> ReduceState
    decreases n,
{
    if n <= 0 {
        init_state(m)
    } else {
        reduce_step(reduce_upto(m, n - 1), n - 1)
    }
}

/// The number of pivot steps attempted: `min(rows, cols)`.
pub open spec fn steps_of(m: Seq<Seq<Scalar>>) -> int {
    if m_rows(m) < m.len() {
        m_rows(m)
    } else {
        m.len() as int
    }
}

/// The complete reduction of `m`: the mirror the contracts refer to.
pub open spec fn reduce_spec(m: Seq<Seq<Scalar>>) -> ReduceState {
    reduce_upto(m, steps_of(m))
}

/// A stopped or failed state never changes again.
pub proof fn lemma_reduce_frozen(m: Seq<Seq<Scalar>>, a: int, b: int)
    requires
        0 <= a <= b,
        !reduce_upto(m, a).ok || reduce_upto(m, a).stopped,
    ensures
        reduce_upto(m, b) == reduce_upto(m, a),
    decreases b,
{
    if b > a {
        lemma_reduce_frozen(m, a, b - 1);
    }
}

// ---------------------------------------------------------------------------
// The tracked details of one reduction pass
// ---------------------------------------------------------------------------

/// What one reduction pass accumulated: the elementary operations in
/// application order, and the pivot value met at each successful pivot step.
#[derive(Debug)]
pub struct RowEchelonDetails {
    pub tracked_pivots: Vec<Scalar>,
    pub operations: Vec<RowEchelonOperation>,
}

// ---------------------------------------------------------------------------
// The engine
// ---------------------------------------------------------------------------

impl Matrix {
    /// The row of largest magnitude at or below `min_row` in the leftmost
    /// column that still holds a nonzero entry there.
    fn find_pivot(&self, min_row: usize) -> (r: Option<(usize, usize)>)
        requires
            m_wf(self@),
            min_row <= m_rows(self@),
        ensures
            match r {
                Some(p) => find_pivot_spec(self@, min_row as int) == Some(
                    (p.0 as int, p.1 as int),
                ) && p.0 < self@.len() && min_row <= p.1 < m_rows(self@)
                    && self@[p.0 as int][p.1 as int].num != 0,
                None => find_pivot_spec(self@, min_row as int) is None,
            },
    {
        let cols: usize = self.cols();
        let rows: usize = self.rows();
        let mut c: usize = 0;
        while c < cols
            invariant
                m_wf(self@),
                cols == self@.len(),
                rows == m_rows(self@),
                min_row <= rows,
                0 <= c <= cols,
                find_pivot_from(self@, min_row as int, 0) == find_pivot_from(
                    self@,
                    min_row as int,
                    c as int,
                ),
            decreases cols - c,
        {
            let mut best: Option<usize> = None;
            let mut r: usize = min_row;
            while r < rows
                invariant
                    m_wf(self@),
                    cols == self@.len(),
                    rows == m_rows(self@),
                    c < cols,
                    min_row <= r <= rows,
                    match best {
                        Some(j) => min_row <= j < r && self@[c as int][j as int].num != 0,
                        None => true,
                    },
                    scan_col(
                        self@[c as int],
                        match best {
                            Some(j) => Some(j as int),
                            None => None,
                        },
                        r as int,
                        rows as int,
                    ) == scan_col(self@[c as int], None, min_row as int, rows as int),
                decreases rows - r,
            {
                let cur = self.get(c, r);
                if !cur.is_zero() {
                    match best {
                        Some(j) => {
                            let bv = self.get(c, j);
                            if cur.mag_gt(&bv) {
                                best = Some(r);
                            }
                        },
                        None => {
                            best = Some(r);
                        },
                    }
                }
                r += 1;
            }
            match best {
                Some(j) => {
                    return Some((c, j));
                },
                None => {},
            }
            c += 1;
        }
        None
    }

    /// Clear every entry below the pivot at `(pcol, prow)` by row additions,
    /// appending the operations performed to `ops`.  On `false` an exact
    /// entry overflowed; the matrix holds the rows cleared so far.
    fn nullify_rows_below_pivot(
        &mut self,
        pcol: usize,
        prow: usize,
        ops: &mut Vec<RowEchelonOperation>,
    ) -> (ok: bool)
        requires
            m_wf(old(self)@),
            pcol < old(self)@.len(),
            prow < m_rows(old(self)@),
            ops_valid(old(ops)@, m_rows(old(self)@)),
        ensures
            ({
                let e = elim_below_upto(
                    RowStep { ok: true, mat: old(self)@, ops: old(ops)@ },
                    pcol as int,
                    prow as int,
                    m_rows(old(self)@),
                );
                &&& ok == e.ok
                &&& ok ==> final(self)@ == e.mat && final(ops)@ == e.ops && m_wf(final(self)@)
                    && final(self)@.len() == old(self)@.len() && m_rows(final(self)@) == m_rows(
                    old(self)@,
                ) && ops_valid(final(ops)@, m_rows(old(self)@))
            }),
    {
        let rows: usize = self.rows();
        let ghost st0 = RowStep { ok: true, mat: self@, ops: ops@ };
        let mut r: usize = prow + 1;
        if rows <= r {
            return true;
        }
        while r < rows
            invariant
                m_wf(self@),
                pcol < self@.len(),
                prow < m_rows(self@),
                rows == m_rows(old(self)@),
                self@.len() == old(self)@.len(),
                m_rows(self@) == m_rows(old(self)@),
                st0 == (RowStep { ok: true, mat: old(self)@, ops: old(ops)@ }),
                ops_valid(ops@, m_rows(old(self)@)),
                prow + 1 <= r <= rows,
                elim_below_upto(st0, pcol as int, prow as int, r as int) == (RowStep {
                    ok: true,
                    mat: self@,
                    ops: ops@,
                }),
            decreases rows - r,
        {
            let ghost prev = RowStep { ok: true, mat: self@, ops: ops@ };
            let factor = self.get(pcol, r);
            if !factor.is_zero() {
                let k = factor.neg();
                match self.add_scaled_row(r, prow, k) {
                    Some(op) => {
                        ops.push(op);
                    },
                    None => {
                        proof {
                            let failed = elim_one(prev, pcol as int, prow as int, r as int);
                            assert(!failed.ok);
                            assert(elim_below_upto(st0, pcol as int, prow as int, r as int + 1)
                                == failed);
                            lemma_elim_fail_from(
                                st0,
                                pcol as int,
                                prow as int,
                                r as int + 1,
                                m_rows(old(self)@),
                            );
                        }
                        return false;
                    },
                }
            }
            proof {
                assert(elim_below_upto(st0, pcol as int, prow as int, r as int + 1) == elim_one(
                    prev,
                    pcol as int,
                    prow as int,
                    r as int,
                ));
            }
            r += 1;
        }
        true
    }

    /// Reduce to row echelon form, tracking pivots and the operation log.
    /// `None` when an exact intermediate value is not representable.
    pub fn row_echelon_with_details(&self) -> (r: Option<(Matrix, RowEchelonDetails)>)
        requires
            m_wf(self@),
        ensures
            match r {
                Some(p) => {
                    let st = reduce_spec(self@);
                    &&& st.ok
                    &&& p.0@ == st.mat
                    &&& p.1.tracked_pivots@ == st.pivots
                    &&& p.1.operations@ == st.ops
                    &&& m_wf(p.0@)
                    &&& p.0@.len() == self@.len()
                    &&& m_rows(p.0@) == m_rows(self@)
                    &&& ops_valid(p.1.operations@, m_rows(self@))
                    &&& forall|i: int|
                        0 <= i < p.1.tracked_pivots@.len() ==> s_wf(
                            #[trigger] p.1.tracked_pivots@[i],
                        ) && p.1.tracked_pivots@[i].num != 0
                },
                None => !reduce_spec(self@).ok,
            },
    {
        let mut matrix = self.duplicate();
        let mut pivots: Vec<Scalar> = Vec::new();
        let mut ops: Vec<RowEchelonOperation> = Vec::new();
        let rows: usize = matrix.rows();
        let cols: usize = matrix.cols();
        let maxit: usize = if rows < cols {
            rows
        } else {
            cols
        };
        let mut k: usize = 0;
        while k < maxit
            invariant_except_break
                m_wf(self@),
                matrix@.len() == self@.len(),
                m_rows(matrix@) == m_rows(self@),
                m_wf(matrix@),
                rows == m_rows(self@),
                cols == self@.len(),
                maxit == steps_of(self@),
                0 <= k <= maxit,
                ops_valid(ops@, m_rows(self@)),
                forall|i: int|
                    0 <= i < pivots@.len() ==> s_wf(#[trigger] pivots@[i]) && pivots@[i].num != 0,
                reduce_upto(self@, k as int) == (ReduceState {
                    ok: true,
                    stopped: false,
                    mat: matrix@,
                    pivots: pivots@,
                    pcols: reduce_upto(self@, k as int).pcols,
                    ops: ops@,
                }),
            ensures
                reduce_spec(self@).ok,
                matrix@ == reduce_spec(self@).mat,
                pivots@ == reduce_spec(self@).pivots,
                ops@ == reduce_spec(self@).ops,
                m_wf(matrix@),
                matrix@.len() == self@.len(),
                m_rows(matrix@) == m_rows(self@),
                ops_valid(ops@, m_rows(self@)),
                forall|i: int|
                    0 <= i < pivots@.len() ==> s_wf(#[trigger] pivots@[i]) && pivots@[i].num != 0,
            decreases maxit - k,
        {
            let ghost st = reduce_upto(self@, k as int);
            match matrix.find_pivot(k) {
                None => {
                    proof {
                        assert(reduce_upto(self@, k as int + 1) == (ReduceState {
                            stopped: true,
                            ..st
                        }));
                        lemma_reduce_frozen(self@, k as int + 1, steps_of(self@));
                    }
                    break ;
                },
                Some(pivot) => {
                    let (pc, pr) = pivot;
                    if pr != k {
                        let op = matrix.swap(pr, k);
                        ops.push(op);
                    }
                    let ghost m1 = if pr != k {
                        swap_rows_spec(st.mat, pr as int, k as int)
                    } else {
                        st.mat
                    };
                    proof {
                        assert(matrix@ == m1);
                        if pr != k {
                            assert(m1[pc as int] == st.mat[pc as int].update(
                                pr as int,
                                st.mat[pc as int][k as int],
                            ).update(k as int, st.mat[pc as int][pr as int]));
                            assert(m1[pc as int][k as int] == st.mat[pc as int][pr as int]);
                        }
                    }
                    let p = matrix.get(pc, k);
                    pivots.push(p);
                    match matrix.divide(k, p) {
                        Some(op) => {
                            ops.push(op);
                        },
                        None => {
                            proof {
                                assert(!reduce_upto(self@, k as int + 1).ok);
                                lemma_reduce_frozen(self@, k as int + 1, steps_of(self@));
                            }
                            return None;
                        },
                    }
                    let ok = matrix.nullify_rows_below_pivot(pc, k, &mut ops);
                    if !ok {
                        proof {
                            assert(!reduce_upto(self@, k as int + 1).ok);
                            lemma_reduce_frozen(self@, k as int + 1, steps_of(self@));
                        }
                        return None;
                    }
                    proof {
                        assert(reduce_upto(self@, k as int + 1) == (ReduceState {
                            ok: true,
                            stopped: false,
                            mat: matrix@,
                            pivots: pivots@,
                            pcols: reduce_upto(self@, k as int + 1).pcols,
                            ops: ops@,
                        }));
                    }
                },
            }
            k += 1;
        }
        Some((matrix, RowEchelonDetails { tracked_pivots: pivots, operations: ops }))
    }

    /// Reduce to row echelon form; `None` when an exact intermediate value
    /// is not representable.  The input is never mutated.
    pub fn row_echelon(&self) -> (r: Option<Matrix>)
        requires
            m_wf(self@),
        ensures
            match r {
                Some(m) => reduce_spec(self@).ok && m@ == reduce_spec(self@).mat && m_wf(m@)
                    && m@.len() == self@.len() && m_rows(m@) == m_rows(self@),
                None => !reduce_spec(self@).ok,
            },
    {
        match self.row_echelon_with_details() {
            Some(p) => {
                let (m, _d) = p;
                Some(m)
            },
            None => None,
        }
    }

    /// The rank: the number of pivots the reduction finds.  `None` when an
    /// exact intermediate value is not representable.
    pub fn rank(&self) -> (r: Option<usize>)
        requires
            m_wf(self@),
        ensures
            match r {
                Some(n) => reduce_spec(self@).ok && n == reduce_spec(self@).pivots.len(),
                None => !reduce_spec(self@).ok,
            },
    {
        match self.row_echelon_with_details() {
            Some(p) => {
                let (_m, d) = p;
                Some(d.tracked_pivots.len())
            },
            None => None,
        }
    }
}

/// Helper: once an elimination has failed by some row, it stays failed and
/// unchanged through the remaining rows.
proof fn lemma_elim_fail_from(st: RowStep, pcol: int, prow: int, mid: int, j: int)
    requires
        prow < mid <= j,
        !elim_below_upto(st, pcol, prow, mid).ok,
    ensures
        elim_below_upto(st, pcol, prow, j) == elim_below_upto(st, pcol, prow, mid),
    decreases j - mid,
{
    if j > mid {
        lemma_elim_fail_from(st, pcol, prow, mid, j - 1);
    }
}

// ---------------------------------------------------------------------------
// The row-echelon-form validator
// ---------------------------------------------------------------------------

/// Row `r` of the matrix, read across the columns.
pub open spec fn row_of(m: Seq<Seq<Scalar>>, r: int) -> Seq<Scalar> {
    Seq::new(m.len(), |c: int| m[c][r])
}

/// The index of the first nonzero entry at position `i` or later.
pub open spec fn first_nz_from(row: Seq<Scalar>, i: int) -> Option<int>
    decreases row.len() - i,
{
    if i < 0 || i >= row.len() {
        None
    } else if row[i].num != 0 {
        Some(i)
    } else {
        first_nz_from(row, i + 1)
    }
}

pub open spec fn first_nz(row: Seq<Scalar>) -> Option<int> {
    first_nz_from(row, 0)
}

/// Rows `r` and `r + 1` are ordered as echelon form demands: a zero row is
/// never followed by a nonzero row, and leading entries move strictly right.
pub open spec fn echelon_pair(m: Seq<Seq<Scalar>>, r: int) -> bool {
    match first_nz(row_of(m, r)) {
        None => first_nz(row_of(m, r + 1)) is None,
        Some(i) => match first_nz(row_of(m, r + 1)) {
            None => true,
            Some(j) => j > i,
        },
    }
}

/// The matrix is in row echelon form: every consecutive pair of rows is
/// ordered.
pub open spec fn is_echelon_spec(m: Seq<Seq<Scalar>>) -> bool {
    forall|r: int| 0 <= r < m_rows(m) - 1 ==> echelon_pair(m, r)
}

pub proof fn lemma_first_nz_skip(row: Seq<Scalar>, i: int, c: int)
    requires
        0 <= i <= c,
        forall|j: int| i <= j < c ==> row[j].num == 0,
    ensures
        first_nz_from(row, i) == first_nz_from(row, c),
    decreases c - i,
{
    if i < c {
        lemma_first_nz_skip(row, i + 1, c);
    }
}

impl Matrix {
    /// The column of the first nonzero entry of row `r`, if any.
    fn first_nonzero_in_row(&self, r: usize) -> (res: Option<usize>)
        requires
            m_wf(self@),
            r < m_rows(self@),
        ensures
            match res {
                Some(c) => first_nz(row_of(self@, r as int)) == Some(c as int) && c < self@.len(),
                None => first_nz(row_of(self@, r as int)) is None,
            },
    {
        let ghost row = row_of(self@, r as int);
        let cols: usize = self.cols();
        let mut c: usize = 0;
        while c < cols
            invariant
                m_wf(self@),
                r < m_rows(self@),
                row == row_of(self@, r as int),
                cols == self@.len(),
                0 <= c <= cols,
                forall|j: int| 0 <= j < c ==> row[j].num == 0,
            decreases cols - c,
        {
            let v = self.get(c, r);
            if !v.is_zero() {
                proof {
                    assert(row[c as int] == self@[c as int][r as int]);
                    lemma_first_nz_skip(row, 0, c as int);
                }
                return Some(c);
            }
            proof {
                assert(row[c as int] == self@[c as int][r as int]);
            }
            c += 1;
        }
        proof {
            lemma_first_nz_skip(row, 0, cols as int);
        }
        None
    }

    /// Whether the matrix is in row echelon form: the leading entries of
    /// nonzero rows move strictly right from one row to the next, and all
    /// zero rows sit at the bottom.
    pub fn is_row_echelon_form(&self) -> (res: bool)
        requires
            m_wf(self@),
        ensures
            res == is_echelon_spec(self@),
    {
        let rows: usize = self.rows();
        if rows == 0 {
            return true;
        }
        let mut prev: Option<usize> = self.first_nonzero_in_row(0);
        let mut r: usize = 1;
        while r < rows
            invariant
                m_wf(self@),
                rows == m_rows(self@),
                1 <= r <= rows,
                forall|q: int| 0 <= q < r - 1 ==> echelon_pair(self@, q),
                match prev {
                    Some(i) => first_nz(row_of(self@, r as int - 1)) == Some(i as int),
                    None => first_nz(row_of(self@, r as int - 1)) is None,
                },
            decreases rows - r,
        {
            let cur = self.first_nonzero_in_row(r);
            match prev {
                None => {
                    match cur {
                        Some(_) => {
                            assert(!echelon_pair(self@, r as int - 1));
                            return false;
                        },
                        None => {},
                    }
                },
                Some(i) => {
                    match cur {
                        Some(j) => {
                            if j <= i {
                                assert(!echelon_pair(self@, r as int - 1));
                                return false;
                            }
                        },
                        None => {},
                    }
                },
            }
            assert(echelon_pair(self@, r as int - 1));
            prev = cur;
            r += 1;
        }
        true
    }
}

} // verus!
