//! Elementary row operations and their replay.
//!
//! Each primitive mutates a matrix in place and returns the
//! `RowEchelonOperation` record describing what was done, so a reduction can
//! log it.  `apply` dispatches a stored record back onto a matrix and
//! `apply_all` replays a whole log in order — that is how the inverse is
//! built from the log of a reduction.

use crate::matrix::{m_rect, m_rows, m_wf, Matrix};
use crate::scalar::{add_spec, div_spec, mul_spec, s_wf, Scalar};
use crate::vector::seq_wf;
use vstd::prelude::*;

verus! {

/// One elementary row operation, as applied during a reduction.
#[derive(Clone, Copy, Debug)]
pub enum RowEchelonOperation {
    /// Exchange two rows.
    Swap(usize, usize),
    /// Multiply a row by a scalar.
    Scale(usize, Scalar),
    /// Divide a row by a (nonzero) scalar.
    Divide(usize, Scalar),
    /// Add `source * factor` to `target`: `AddScaledRow(target, source, factor)`.
    AddScaledRow(usize, usize, Scalar),
}

// ---------------------------------------------------------------------------
// Spec semantics of the operations
// ---------------------------------------------------------------------------

pub open spec fn swap_rows_spec(m: Seq<Seq<Scalar>>, a: int, b: int) -> Seq<Seq<Scalar>> {
    Seq::new(m.len(), |c: int| m[c].update(a, m[c][b]).update(b, m[c][a]))
}

pub open spec fn scale_row_ok(m: Seq<Seq<Scalar>>, r: int, k: Scalar) -> bool {
    forall|c: int| 0 <= c < m.len() ==> (#[trigger] mul_spec(m[c][r], k)) is Some
}

pub open spec fn scale_row_spec(m: Seq<Seq<Scalar>>, r: int, k: Scalar) -> Seq<Seq<Scalar>> {
    Seq::new(m.len(), |c: int| m[c].update(r, mul_spec(m[c][r], k)->Some_0))
}

pub open spec fn div_row_ok(m: Seq<Seq<Scalar>>, r: int, k: Scalar) -> bool {
    forall|c: int| 0 <= c < m.len() ==> (#[trigger] div_spec(m[c][r], k)) is Some
}

pub open spec fn div_row_spec(m: Seq<Seq<Scalar>>, r: int, k: Scalar) -> Seq<Seq<Scalar>> {
    Seq::new(m.len(), |c: int| m[c].update(r, div_spec(m[c][r], k)->Some_0))
}

pub open spec fn add_row_ok(m: Seq<Seq<Scalar>>, t: int, s: int, k: Scalar) -> bool {
    forall|c: int|
        0 <= c < m.len() ==> (#[trigger] mul_spec(m[c][s], k)) is Some && add_spec(
            m[c][t],
            mul_spec(m[c][s], k)->Some_0,
        ) is Some
}

pub open spec fn add_row_spec(m: Seq<Seq<Scalar>>, t: int, s: int, k: Scalar) -> Seq<
    Seq<Scalar>,
> {
    Seq::new(
        m.len(),
        |c: int| m[c].update(t, add_spec(m[c][t], mul_spec(m[c][s], k)->Some_0)->Some_0),
    )
}

/// The operation's indices are in range, its factor well-formed, and a
/// divisor nonzero — the caller obligations of the primitives.
pub open spec fn op_valid(op: RowEchelonOperation, rows: int) -> bool {
    match op {
        RowEchelonOperation::Swap(a, b) => a < rows && b < rows,
        RowEchelonOperation::Scale(r, k) => r < rows && s_wf(k),
        RowEchelonOperation::Divide(r, k) => r < rows && s_wf(k) && k.num != 0,
        RowEchelonOperation::AddScaledRow(t, s, k) => t < rows && s < rows && s_wf(k),
    }
}

pub open spec fn ops_valid(ops: Seq<RowEchelonOperation>, rows: int) -> bool {
    forall|i: int| 0 <= i < ops.len() ==> op_valid(#[trigger] ops[i], rows)
}

/// Every exact entry of the operation's result is representable.
pub open spec fn op_ok(m: Seq<Seq<Scalar>>, op: RowEchelonOperation) -> bool {
    match op {
        RowEchelonOperation::Swap(a, b) => true,
        RowEchelonOperation::Scale(r, k) => scale_row_ok(m, r as int, k),
        RowEchelonOperation::Divide(r, k) => div_row_ok(m, r as int, k),
        RowEchelonOperation::AddScaledRow(t, s, k) => add_row_ok(m, t as int, s as int, k),
    }
}

pub open spec fn apply_op_spec(m: Seq<Seq<Scalar>>, op: RowEchelonOperation) -> Seq<Seq<Scalar>> {
    match op {
        RowEchelonOperation::Swap(a, b) => swap_rows_spec(m, a as int, b as int),
        RowEchelonOperation::Scale(r, k) => scale_row_spec(m, r as int, k),
        RowEchelonOperation::Divide(r, k) => div_row_spec(m, r as int, k),
        RowEchelonOperation::AddScaledRow(t, s, k) => add_row_spec(m, t as int, s as int, k),
    }
}

/// Replaying `ops` in order never hits an unrepresentable entry.
pub open spec fn apply_ops_ok(m: Seq<Seq<Scalar>>, ops: Seq<RowEchelonOperation>) -> bool
    decreases ops.len(),
{
    if ops.len() == 0 {
        true
    } else {
        op_ok(m, ops[0]) && apply_ops_ok(apply_op_spec(m, ops[0]), ops.drop_first())
    }
}

/// The matrix after replaying `ops` in order.
pub open spec fn apply_ops_spec(m: Seq<Seq<Scalar>>, ops: Seq<RowEchelonOperation>) -> Seq<
    Seq<Scalar>,
>
    decreases ops.len(),
{
    if ops.len() == 0 {
        m
    } else {
        apply_ops_spec(apply_op_spec(m, ops[0]), ops.drop_first())
    }
}

/// Appending one operation to a log replays as the log, then the operation.
pub proof fn lemma_apply_ops_snoc(
    m: Seq<Seq<Scalar>>,
    ops: Seq<RowEchelonOperation>,
    op: RowEchelonOperation,
)
    ensures
        apply_ops_ok(m, ops.push(op)) == (apply_ops_ok(m, ops) && op_ok(
            apply_ops_spec(m, ops),
            op,
        )),
        apply_ops_ok(m, ops) ==> apply_ops_spec(m, ops.push(op)) == apply_op_spec(
            apply_ops_spec(m, ops),
            op,
        ),
    decreases ops.len(),
{
    reveal_with_fuel(apply_ops_ok, 3);
    reveal_with_fuel(apply_ops_spec, 3);
    let p = ops.push(op);
    if ops.len() == 0 {
        assert(p[0] == op);
        assert(p.drop_first() =~= Seq::<RowEchelonOperation>::empty());
        assert(apply_ops_ok(apply_op_spec(m, op), p.drop_first()));
        assert(apply_ops_ok(m, p) == op_ok(m, op));
        assert(apply_ops_spec(m, ops) == m);
        if op_ok(m, op) {
            assert(apply_ops_spec(m, p) == apply_op_spec(m, op));
        }
    } else {
        assert(p[0] == ops[0]);
        assert(p.drop_first() =~= ops.drop_first().push(op));
        let m1 = apply_op_spec(m, ops[0]);
        lemma_apply_ops_snoc(m1, ops.drop_first(), op);
        assert(apply_ops_ok(m, p) == (op_ok(m, p[0]) && apply_ops_ok(m1, p.drop_first())));
        assert(apply_ops_ok(m, ops) == (op_ok(m, ops[0]) && apply_ops_ok(m1, ops.drop_first())));
        if apply_ops_ok(m, ops) {
            assert(apply_ops_spec(m, p) == apply_ops_spec(m1, p.drop_first()));
            assert(apply_ops_spec(m, ops) == apply_ops_spec(m1, ops.drop_first()));
        }
    }
}

/// A log that replays in full replays on every prefix.
pub proof fn lemma_apply_ops_ok_prefix(
    m: Seq<Seq<Scalar>>,
    ops: Seq<RowEchelonOperation>,
    k: int,
)
    requires
        0 <= k <= ops.len(),
        apply_ops_ok(m, ops),
    ensures
        apply_ops_ok(m, ops.take(k)),
    decreases ops.len(),
{
    if k == 0 {
        assert(ops.take(0) =~= Seq::<RowEchelonOperation>::empty());
    } else {
        assert(ops.take(k)[0] == ops[0]);
        assert(ops.take(k).drop_first() =~= ops.drop_first().take(k - 1));
        lemma_apply_ops_ok_prefix(apply_op_spec(m, ops[0]), ops.drop_first(), k - 1);
    }
}

/// Concatenated logs replay one after the other.
pub proof fn lemma_apply_ops_concat(
    m: Seq<Seq<Scalar>>,
    a: Seq<RowEchelonOperation>,
    b: Seq<RowEchelonOperation>,
)
    ensures
        apply_ops_ok(m, a + b) == (apply_ops_ok(m, a) && apply_ops_ok(apply_ops_spec(m, a), b)),
        (apply_ops_ok(m, a) && apply_ops_ok(apply_ops_spec(m, a), b)) ==> apply_ops_spec(m, a + b)
            == apply_ops_spec(apply_ops_spec(m, a), b),
    decreases a.len(),
{
    if a.len() == 0 {
        assert(a + b =~= b);
    } else {
        assert((a + b)[0] == a[0]);
        assert((a + b).drop_first() =~= a.drop_first() + b);
        lemma_apply_ops_concat(apply_op_spec(m, a[0]), a.drop_first(), b);
    }
}

// ---------------------------------------------------------------------------
// Executable primitives
// ---------------------------------------------------------------------------

impl Matrix {
    /// Exchange rows `a` and `b` across every column; returns the record.
    pub fn swap(&mut self, a: usize, b: usize) -> (op: RowEchelonOperation)
        requires
            m_rect(old(self)@),
            a < m_rows(old(self)@),
            b < m_rows(old(self)@),
        ensures
            final(self)@ == swap_rows_spec(old(self)@, a as int, b as int),
            op == RowEchelonOperation::Swap(a, b),
            m_wf(old(self)@) ==> m_wf(final(self)@),
    {
        let n: usize = self.cols();
        let mut c: usize = 0;
        while c < n
            invariant
                n == self@.len(),
                self@.len() == old(self)@.len(),
                m_rect(old(self)@),
                a < m_rows(old(self)@),
                b < m_rows(old(self)@),
                0 <= c <= n,
                forall|j: int|
                    0 <= j < c ==> self@[j] == old(self)@[j].update(
                        a as int,
                        old(self)@[j][b as int],
                    ).update(b as int, old(self)@[j][a as int]),
                forall|j: int| c <= j < n ==> self@[j] == old(self)@[j],
            decreases n - c,
        {
            let x = self.get(c, a);
            let y = self.get(c, b);
            self.set(c, a, y);
            self.set(c, b, x);
            c += 1;
        }
        assert(self@ =~= swap_rows_spec(old(self)@, a as int, b as int));
        proof {
            if m_wf(old(self)@) {
                assert forall|j: int| 0 <= j < self@.len() implies seq_wf(#[trigger] self@[j])
                    && self@[j].len() == m_rows(self@) by {
                    assert(forall|r: int|
                        0 <= r < self@[j].len() ==> s_wf(#[trigger] self@[j][r]));
                }
            }
        }
        RowEchelonOperation::Swap(a, b)
    }

    /// Multiply row `r` by `factor`; on `None` nothing changed.
    pub fn scale(&mut self, r: usize, factor: Scalar) -> (op: Option<RowEchelonOperation>)
        requires
            m_wf(old(self)@),
            r < m_rows(old(self)@),
            s_wf(factor),
        ensures
            op is Some <==> scale_row_ok(old(self)@, r as int, factor),
            op is Some ==> op->Some_0 == RowEchelonOperation::Scale(r, factor) && final(self)@
                == scale_row_spec(old(self)@, r as int, factor) && m_wf(final(self)@),
            op is None ==> final(self)@ == old(self)@,
    {
        let n: usize = self.cols();
        let mut vals: Vec<Scalar> = Vec::new();
        let mut c: usize = 0;
        while c < n
            invariant
                n == self@.len(),
                self@ == old(self)@,
                m_wf(old(self)@),
                r < m_rows(old(self)@),
                s_wf(factor),
                0 <= c <= n,
                vals@.len() == c,
                forall|j: int| 0 <= j < c ==> s_wf(#[trigger] vals@[j]),
                forall|j: int|
                    0 <= j < c ==> (#[trigger] mul_spec(old(self)@[j][r as int], factor)) is Some
                        && vals@[j] == mul_spec(old(self)@[j][r as int], factor)->Some_0 && s_wf(
                        vals@[j],
                    ),
            decreases n - c,
        {
            let cur = self.get(c, r);
            match cur.mul(factor) {
                Some(v) => {
                    vals.push(v);
                },
                None => {
                    assert(!scale_row_ok(self@, r as int, factor));
                    return None;
                },
            }
            c += 1;
        }
        self.commit_row(r, &vals);
        assert(self@ =~= scale_row_spec(old(self)@, r as int, factor));
        Some(RowEchelonOperation::Scale(r, factor))
    }

    /// Divide row `r` by `factor`, which must be nonzero; on `None` nothing
    /// changed.
    pub fn divide(&mut self, r: usize, factor: Scalar) -> (op: Option<RowEchelonOperation>)
        requires
            m_wf(old(self)@),
            r < m_rows(old(self)@),
            s_wf(factor),
            factor.num != 0,
        ensures
            op is Some <==> div_row_ok(old(self)@, r as int, factor),
            op is Some ==> op->Some_0 == RowEchelonOperation::Divide(r, factor) && final(self)@
                == div_row_spec(old(self)@, r as int, factor) && m_wf(final(self)@),
            op is None ==> final(self)@ == old(self)@,
    {
        let n: usize = self.cols();
        let mut vals: Vec<Scalar> = Vec::new();
        let mut c: usize = 0;
        while c < n
            invariant
                n == self@.len(),
                self@ == old(self)@,
                m_wf(old(self)@),
                r < m_rows(old(self)@),
                s_wf(factor),
                factor.num != 0,
                0 <= c <= n,
                vals@.len() == c,
                forall|j: int| 0 <= j < c ==> s_wf(#[trigger] vals@[j]),
                forall|j: int|
                    0 <= j < c ==> (#[trigger] div_spec(old(self)@[j][r as int], factor)) is Some
                        && vals@[j] == div_spec(old(self)@[j][r as int], factor)->Some_0 && s_wf(
                        vals@[j],
                    ),
            decreases n - c,
        {
            let cur = self.get(c, r);
            match cur.div(factor) {
                Some(v) => {
                    vals.push(v);
                },
                None => {
                    assert(!div_row_ok(self@, r as int, factor));
                    return None;
                },
            }
            c += 1;
        }
        self.commit_row(r, &vals);
        assert(self@ =~= div_row_spec(old(self)@, r as int, factor));
        Some(RowEchelonOperation::Divide(r, factor))
    }

    /// `row target += row source * factor`; on `None` nothing changed.
    pub fn add_scaled_row(&mut self, target: usize, source: usize, factor: Scalar) -> (op: Option<
        RowEchelonOperation,
    >)
        requires
            m_wf(old(self)@),
            target < m_rows(old(self)@),
            source < m_rows(old(self)@),
            s_wf(factor),
        ensures
            op is Some <==> add_row_ok(old(self)@, target as int, source as int, factor),
            op is Some ==> op->Some_0 == RowEchelonOperation::AddScaledRow(target, source, factor)
                && final(self)@ == add_row_spec(old(self)@, target as int, source as int, factor)
                && m_wf(final(self)@),
            op is None ==> final(self)@ == old(self)@,
    {
        let n: usize = self.cols();
        let mut vals: Vec<Scalar> = Vec::new();
        let mut c: usize = 0;
        while c < n
            invariant
                n == self@.len(),
                self@ == old(self)@,
                m_wf(old(self)@),
                target < m_rows(old(self)@),
                source < m_rows(old(self)@),
                s_wf(factor),
                0 <= c <= n,
                vals@.len() == c,
                forall|j: int| 0 <= j < c ==> s_wf(#[trigger] vals@[j]),
                forall|j: int|
                    0 <= j < c ==> (#[trigger] mul_spec(old(self)@[j][source as int], factor))
                        is Some && add_spec(
                        old(self)@[j][target as int],
                        mul_spec(old(self)@[j][source as int], factor)->Some_0,
                    ) is Some && vals@[j] == add_spec(
                        old(self)@[j][target as int],
                        mul_spec(old(self)@[j][source as int], factor)->Some_0,
                    )->Some_0 && s_wf(vals@[j]),
            decreases n - c,
        {
            let t = self.get(c, target);
            let s = self.get(c, source);
            match s.mul(factor) {
                Some(p) => {
                    match t.add(p) {
                        Some(v) => {
                            vals.push(v);
                        },
                        None => {
                            assert(!add_row_ok(self@, target as int, source as int, factor));
                            return None;
                        },
                    }
                },
                None => {
                    assert(!add_row_ok(self@, target as int, source as int, factor));
                    return None;
                },
            }
            c += 1;
        }
        self.commit_row(target, &vals);
        assert(self@ =~= add_row_spec(old(self)@, target as int, source as int, factor));
        Some(RowEchelonOperation::AddScaledRow(target, source, factor))
    }

    /// Overwrite row `r` with the given values, one per column.
    fn commit_row(&mut self, r: usize, vals: &Vec<Scalar>)
        requires
            m_wf(old(self)@),
            r < m_rows(old(self)@),
            vals@.len() == old(self)@.len(),
            forall|j: int| 0 <= j < vals@.len() ==> s_wf(#[trigger] vals@[j]),
        ensures
            final(self)@ == Seq::new(
                old(self)@.len(),
                |c: int| old(self)@[c].update(r as int, vals@[c]),
            ),
            m_wf(final(self)@),
    {
        let n: usize = self.cols();
        let mut c: usize = 0;
        while c < n
            invariant
                n == self@.len(),
                self@.len() == old(self)@.len(),
                m_wf(old(self)@),
                r < m_rows(old(self)@),
                vals@.len() == old(self)@.len(),
                forall|j: int| 0 <= j < vals@.len() ==> s_wf(#[trigger] vals@[j]),
                0 <= c <= n,
                forall|j: int|
                    0 <= j < c ==> self@[j] == old(self)@[j].update(r as int, vals@[j]),
                forall|j: int| c <= j < n ==> self@[j] == old(self)@[j],
            decreases n - c,
        {
            self.set(c, r, vals[c]);
            c += 1;
        }
        assert(self@ =~= Seq::new(
            old(self)@.len(),
            |c: int| old(self)@[c].update(r as int, vals@[c]),
        ));
        proof {
            assert forall|j: int| 0 <= j < self@.len() implies seq_wf(#[trigger] self@[j])
                && self@[j].len() == m_rows(self@) by {
                assert(forall|i: int| 0 <= i < self@[j].len() ==> s_wf(#[trigger] self@[j][i]));
            }
        }
    }

    /// Apply one recorded operation; on `false` nothing changed (some exact
    /// entry of the result is not representable).
    pub fn apply(&mut self, op: RowEchelonOperation) -> (ok: bool)
        requires
            m_wf(old(self)@),
            op_valid(op, m_rows(old(self)@)),
        ensures
            ok == op_ok(old(self)@, op),
            ok ==> final(self)@ == apply_op_spec(old(self)@, op) && m_wf(final(self)@)
                && final(self)@.len() == old(self)@.len() && m_rows(final(self)@) == m_rows(
                old(self)@,
            ),
            !ok ==> final(self)@ == old(self)@,
    {
        let ghost before = self@;
        let ok: bool;
        match op {
            RowEchelonOperation::Swap(a, b) => {
                self.swap(a, b);
                ok = true;
            },
            RowEchelonOperation::Scale(r, k) => {
                ok = self.scale(r, k).is_some();
            },
            RowEchelonOperation::Divide(r, k) => {
                ok = self.divide(r, k).is_some();
            },
            RowEchelonOperation::AddScaledRow(t, s, k) => {
                ok = self.add_scaled_row(t, s, k).is_some();
            },
        }
        proof {
            if ok {
                assert(self@.len() == before.len());
                assert(m_rows(self@) == m_rows(before)) by {
                    if before.len() > 0 {
                        assert(self@[0].len() == before[0].len());
                    }
                }
            }
        }
        ok
    }

    /// Replay a whole log in order; on `false` the log was applied up to the
    /// first operation whose exact result is unrepresentable.
    pub fn apply_all(&mut self, ops: &Vec<RowEchelonOperation>) -> (ok: bool)
        requires
            m_wf(old(self)@),
            ops_valid(ops@, m_rows(old(self)@)),
        ensures
            ok == apply_ops_ok(old(self)@, ops@),
            ok ==> final(self)@ == apply_ops_spec(old(self)@, ops@) && m_wf(final(self)@),
    {
        let n: usize = ops.len();
        let mut i: usize = 0;
        while i < n
            invariant
                n == ops@.len(),
                m_wf(old(self)@),
                ops_valid(ops@, m_rows(old(self)@)),
                0 <= i <= n,
                m_wf(self@),
                self@.len() == old(self)@.len(),
                m_rows(self@) == m_rows(old(self)@),
                apply_ops_ok(old(self)@, ops@.take(i as int)),
                self@ == apply_ops_spec(old(self)@, ops@.take(i as int)),
            decreases n - i,
        {
            let op = ops[i];
            let ghost prefix = ops@.take(i as int);
            let ok = self.apply(op);
            proof {
                lemma_apply_ops_snoc(old(self)@, prefix, op);
                assert(ops@.take(i as int + 1) =~= prefix.push(op));
            }
            if !ok {
                proof {
                    if apply_ops_ok(old(self)@, ops@) {
                        lemma_apply_ops_ok_prefix(old(self)@, ops@, i as int + 1);
                    }
                }
                return false;
            }
            i += 1;
        }
        assert(ops@.take(n as int) =~= ops@);
        true
    }
}

} // verus!
