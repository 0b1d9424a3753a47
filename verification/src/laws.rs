//! The laws of the reduction engine.
//!
//! This module proves, from the spec mirror alone, the properties that hold
//! of every reduction: the echelon shape of the result, idempotence of the
//! reduction, preservation of rank, the determinant/rank connection, and
//! that replaying the recorded operations reproduces the reduced matrix.

use crate::determinant::{det_spec, prod_prefix, prod_spec};
use crate::inverse::{back_spec, back_upto, elim_above_upto};
use crate::matrix::identity_spec;
use crate::matrix::{m_rect, m_rows, m_wf};
use crate::reduction::{
    echelon_pair, elim_below_upto, elim_one, find_pivot_from, find_pivot_spec, first_nz,
    init_state, is_echelon_spec, lemma_find_pivot_none, lemma_find_pivot_some,
    lemma_first_nz_skip, reduce_spec, reduce_step, reduce_upto, row_of, scan_col, scan_step,
    steps_of, ReduceState, RowStep,
};
use crate::row_ops::{
    add_row_ok, add_row_spec, apply_ops_ok, apply_ops_spec, div_row_ok, div_row_spec,
    lemma_apply_ops_concat, lemma_apply_ops_snoc, op_ok, op_valid, ops_valid, swap_rows_spec,
    RowEchelonOperation,
};
use crate::scalar::{
    add_spec, div_spec, lemma_add_opp, lemma_add_props, lemma_add_zero, lemma_div_one,
    lemma_div_props, lemma_div_self, lemma_div_zero, lemma_mul_one, lemma_mul_props,
    lemma_mul_zero, lemma_wf_consts, lemma_wf_zero_is_zero, mul_spec, neg_spec, one_s, s_wf,
    zero_s, Scalar,
};
use crate::vector::seq_wf;
use vstd::prelude::*;

verus! {

/// What one elimination pass below a normalized pivot guarantees, when it
/// succeeds: rows at or above the pivot are untouched, columns whose pivot
/// row entry is zero are untouched, the pivot column is cleared, and the
/// appended operations replay to the result.
proof fn lemma_elim_props(
    m0: Seq<Seq<Scalar>>,
    st: RowStep,
    pc: int,
    prow: int,
    j: int,
)
    requires
        st.ok,
        m_wf(st.mat),
        0 <= pc < st.mat.len(),
        0 <= prow < m_rows(st.mat),
        prow + 1 <= j <= m_rows(st.mat),
        st.mat[pc][prow] == one_s(),
        apply_ops_ok(m0, st.ops),
        apply_ops_spec(m0, st.ops) == st.mat,
        ops_valid(st.ops, m_rows(st.mat)),
    ensures
        ({
            let e = elim_below_upto(st, pc, prow, j);
            e.ok ==> {
                &&& e.mat.len() == st.mat.len()
                &&& m_rows(e.mat) == m_rows(st.mat)
                &&& m_wf(e.mat)
                &&& forall|c: int, r: int|
                    0 <= c < st.mat.len() && 0 <= r <= prow ==> #[trigger] e.mat[c][r]
                        == st.mat[c][r]
                &&& forall|c: int, r: int|
                    0 <= c < st.mat.len() && j <= r < m_rows(st.mat) ==> #[trigger] e.mat[c][r]
                        == st.mat[c][r]
                &&& forall|c: int|
                    0 <= c < st.mat.len() && st.mat[c][prow].num == 0 ==> #[trigger] e.mat[c]
                        == st.mat[c]
                &&& forall|r: int| prow < r < j ==> #[trigger] e.mat[pc][r].num == 0
                &&& apply_ops_ok(m0, e.ops)
                &&& apply_ops_spec(m0, e.ops) == e.mat
                &&& ops_valid(e.ops, m_rows(st.mat))
            }
        }),
    decreases j - prow,
{
    let rows = m_rows(st.mat);
    let cols = st.mat.len() as int;
    if j == prow + 1 {
        return ;
    }
    lemma_elim_props(m0, st, pc, prow, j - 1);
    let e1 = elim_below_upto(st, pc, prow, j - 1);
    let e = elim_one(e1, pc, prow, j - 1);
    assert(elim_below_upto(st, pc, prow, j) == e);
    if !e1.ok {
        return ;
    }
    let f = e1.mat[pc][j - 1];
    assert(f == st.mat[pc][j - 1]);
    if f.num == 0 {
        assert(e == e1);
        return ;
    }
    let k = neg_spec(f);
    if !add_row_ok(e1.mat, j - 1, prow, k) {
        return ;
    }
    assert(s_wf(f));
    assert(s_wf(k)) by {
        assert(f.den >= 1);
    }
    assert(e.mat == add_row_spec(e1.mat, j - 1, prow, k));
    // Per-column effects of the row addition.
    assert forall|c: int| 0 <= c < cols implies #[trigger] e.mat[c] == e1.mat[c].update(
        j - 1,
        add_spec(e1.mat[c][j - 1], mul_spec(e1.mat[c][prow], k)->Some_0)->Some_0,
    ) by {}
    // The pivot column entry at row j - 1 becomes zero.
    assert(e1.mat[pc][prow] == st.mat[pc][prow]);
    assert(mul_spec(e1.mat[pc][prow], k) == Some(k)) by {
        lemma_mul_one(k);
    }
    assert(add_spec(f, k) == Some(zero_s())) by {
        lemma_add_opp(f);
    }
    assert(e.mat[pc][j - 1] == zero_s());
    // Columns whose pivot-row entry is zero are unchanged.
    assert forall|c: int| 0 <= c < cols && st.mat[c][prow].num == 0 implies #[trigger] e.mat[c]
        == st.mat[c] by {
        assert(e1.mat[c] == st.mat[c]);
        assert(e1.mat[c][prow] == st.mat[c][prow]);
        lemma_wf_zero_is_zero(st.mat[c][prow]);
        assert(mul_spec(e1.mat[c][prow], k) == Some(zero_s())) by {
            lemma_mul_zero(k);
        }
        assert(add_spec(e1.mat[c][j - 1], zero_s()) == Some(e1.mat[c][j - 1])) by {
            lemma_add_zero(e1.mat[c][j - 1]);
        }
        assert(e.mat[c] =~= st.mat[c]);
    }
    // Well-formedness of the updated entries.
    assert forall|c: int| 0 <= c < cols implies seq_wf(#[trigger] e.mat[c]) && e.mat[c].len()
        == rows by {
        assert(seq_wf(e1.mat[c]));
        lemma_mul_props(e1.mat[c][prow], k);
        lemma_add_props(e1.mat[c][j - 1], mul_spec(e1.mat[c][prow], k)->Some_0);
        assert forall|r: int| 0 <= r < e.mat[c].len() implies s_wf(#[trigger] e.mat[c][r]) by {
            if r != j - 1 {
                assert(e.mat[c][r] == e1.mat[c][r]);
            }
        }
    }
    assert(m_rows(e.mat) == rows) by {
        assert(e.mat[0].len() == rows);
    }
    assert(m_rect(e.mat));
    // Replay of the appended operation.
    let op = RowEchelonOperation::AddScaledRow((j - 1) as usize, prow as usize, k);
    assert(e.ops == e1.ops.push(op));
    assert(op_ok(e1.mat, op) && apply_op_spec_matches(e1.mat, op, j - 1, prow, k));
    lemma_apply_ops_snoc(m0, e1.ops, op);
    assert(apply_ops_spec(m0, e.ops) == e.mat);
    assert(op_valid(op, rows));
    assert forall|i: int| 0 <= i < e.ops.len() implies op_valid(#[trigger] e.ops[i], rows) by {
        if i < e1.ops.len() {
            assert(op_valid(e1.ops[i], rows));
        }
    }
}

/// The recorded `AddScaledRow` applies as the `add_row_spec` transformation.
spec fn apply_op_spec_matches(
    m: Seq<Seq<Scalar>>,
    op: RowEchelonOperation,
    t: int,
    s: int,
    k: Scalar,
) -> bool {
    crate::row_ops::apply_op_spec(m, op) == add_row_spec(m, t, s, k)
}


/// A strictly increasing integer sequence grows at least as fast as its
/// index.
proof fn lemma_increasing_lower(ps: Seq<int>, k: int)
    requires
        0 <= k <= ps.len(),
        forall|a: int, b: int| 0 <= a < b < ps.len() ==> #[trigger] ps[a] < #[trigger] ps[b],
        forall|j: int| 0 <= j < ps.len() ==> 0 <= #[trigger] ps[j],
    ensures
        forall|j: int| 0 <= j < k ==> #[trigger] ps[j] >= j,
    decreases k,
{
    if k > 0 {
        lemma_increasing_lower(ps, k - 1);
        if k >= 2 {
            assert(ps[k - 2] < ps[k - 1]);
        }
    }
}

/// The structural invariant of a successful reduction with `k` pivots
/// fixed: pivot columns strictly increase, each pivot is one with zeros
/// below it, everything left of a pivot is zero from that pivot's row
/// down, the tracked pivots are nonzero, and the recorded log replays the
/// original matrix to the current one.
pub open spec fn inv_at(m: Seq<Seq<Scalar>>, st: ReduceState, k: int) -> bool {
    let rows = m_rows(m);
    let cols = m.len() as int;
    &&& st.pivots.len() == k
    &&& st.pcols.len() == k
    &&& st.mat.len() == cols
    &&& m_rows(st.mat) == rows
    &&& m_wf(st.mat)
    &&& 0 <= k <= rows
    &&& k <= cols
    &&& forall|j: int| 0 <= j < k ==> 0 <= #[trigger] st.pcols[j] < cols
    &&& forall|a: int, b: int| 0 <= a < b < k ==> #[trigger] st.pcols[a] < #[trigger] st.pcols[b]
    &&& forall|j: int| 0 <= j < k ==> st.mat[#[trigger] st.pcols[j]][j] == one_s()
    &&& forall|j: int, r: int|
        #![trigger st.mat[st.pcols[j]][r]]
        0 <= j < k && j < r < rows ==> st.mat[st.pcols[j]][r].num == 0
    &&& forall|j: int, c: int, r: int|
        #![trigger st.pcols[j], st.mat[c][r]]
        0 <= j < k && 0 <= c < st.pcols[j] && j <= r < rows ==> st.mat[c][r].num == 0
    &&& forall|j: int| 0 <= j < k ==> s_wf(#[trigger] st.pivots[j]) && st.pivots[j].num != 0
    &&& apply_ops_ok(m, st.ops)
    &&& apply_ops_spec(m, st.ops) == st.mat
    &&& ops_valid(st.ops, rows)
}

/// All rows from `p` down are entirely zero.
pub open spec fn tail_zero(mat: Seq<Seq<Scalar>>, p: int) -> bool {
    forall|c: int, r: int|
        0 <= c < mat.len() && p <= r < m_rows(mat) ==> (#[trigger] mat[c][r]).num == 0
}

/// Every successful reduction state satisfies the structural invariant;
/// when the reduction stopped early, the remaining rows are all zero.
pub proof fn lemma_reduce_inv(m: Seq<Seq<Scalar>>, k: int)
    requires
        m_wf(m),
        0 <= k,
    ensures
        ({
            let st = reduce_upto(m, k);
            st.ok ==> {
                &&& inv_at(m, st, st.pivots.len() as int)
                &&& st.stopped ==> tail_zero(st.mat, st.pivots.len() as int)
                &&& !st.stopped ==> st.pivots.len() == k
            }
        }),
    decreases k,
{
    let rows = m_rows(m);
    let cols = m.len() as int;
    if k == 0 {
        let st = reduce_upto(m, 0);
        assert(st == init_state(m));
        assert(apply_ops_ok(m, st.ops) && apply_ops_spec(m, st.ops) == m);
        assert(inv_at(m, st, 0));
        return ;
    }
    lemma_reduce_inv(m, k - 1);
    let st = reduce_upto(m, k - 1);
    let st2 = reduce_upto(m, k);
    assert(st2 == reduce_step(st, k - 1));
    if !st.ok {
        return ;
    }
    if st.stopped {
        assert(st2 == st);
        return ;
    }
    let kk = k - 1;
    assert(st.pivots.len() == kk);
    match find_pivot_spec(st.mat, kk) {
        None => {
            lemma_find_pivot_none(st.mat, kk, 0);
            assert(st2 == (ReduceState { stopped: true, ..st }));
            assert(inv_at(m, st2, kk));
            assert(tail_zero(st2.mat, kk));
        },
        Some(pcpr) => {
            let pc = pcpr.0;
            let pr = pcpr.1;
            lemma_find_pivot_some(st.mat, kk, 0);
            assert(0 <= pc < cols && kk <= pr < rows && st.mat[pc][pr].num != 0);
            assert(forall|cc: int, r: int|
                0 <= cc < pc && kk <= r < rows ==> st.mat[cc][r].num == 0);
            // --- the swap, if any ---
            let m1 = if pr != kk {
                swap_rows_spec(st.mat, pr, kk)
            } else {
                st.mat
            };
            assert forall|c: int, x: int| 0 <= c < cols && 0 <= x < rows implies
                #[trigger] m1[c][x] == (if pr != kk && x == kk {
                    st.mat[c][pr]
                } else if pr != kk && x == pr {
                    st.mat[c][kk]
                } else {
                    st.mat[c][x]
                }) by {
                if pr != kk {
                    assert(m1[c] == st.mat[c].update(pr, st.mat[c][kk]).update(
                        kk,
                        st.mat[c][pr],
                    ));
                }
            }
            assert(m1.len() == cols);
            assert forall|c: int| 0 <= c < cols implies (#[trigger] m1[c]).len() == rows
                && seq_wf(m1[c]) by {
                if pr != kk {
                    assert(m1[c] == st.mat[c].update(pr, st.mat[c][kk]).update(
                        kk,
                        st.mat[c][pr],
                    ));
                    assert(seq_wf(st.mat[c]));
                    assert forall|x: int| 0 <= x < m1[c].len() implies s_wf(
                        #[trigger] m1[c][x],
                    ) by {
                        assert(m1[c][x] == (if x == kk {
                            st.mat[c][pr]
                        } else if x == pr {
                            st.mat[c][kk]
                        } else {
                            st.mat[c][x]
                        }));
                    }
                }
            }
            assert(m_rows(m1) == rows);
            assert(m_wf(m1));
            let p = m1[pc][kk];
            assert(p == st.mat[pc][pr]);
            assert(p.num != 0 && s_wf(p));
            // left columns are zero at rows kk and below, in m1 too
            assert forall|cc: int, r: int| 0 <= cc < pc && kk <= r < rows implies
                #[trigger] m1[cc][r].num == 0 by {
                assert(m1[cc][r] == (if pr != kk && r == kk {
                    st.mat[cc][pr]
                } else if pr != kk && r == pr {
                    st.mat[cc][kk]
                } else {
                    st.mat[cc][r]
                }));
            }
            // prior pivot structure survives the swap (it touches rows >= kk)
            assert forall|j: int| 0 <= j < kk implies m1[#[trigger] st.pcols[j]][j]
                == one_s() by {
                assert(m1[st.pcols[j]][j] == st.mat[st.pcols[j]][j]);
            }
            assert forall|j: int, r: int|
                #![trigger m1[st.pcols[j]][r]]
                0 <= j < kk && j < r < rows implies m1[st.pcols[j]][r].num == 0 by {
                let c = st.pcols[j];
                assert(m1[c][r] == (if pr != kk && r == kk {
                    st.mat[c][pr]
                } else if pr != kk && r == pr {
                    st.mat[c][kk]
                } else {
                    st.mat[c][r]
                }));
                assert(st.mat[c][pr].num == 0 && st.mat[c][kk].num == 0 && st.mat[c][r].num
                    == 0);
            }
            assert forall|j: int, c: int, r: int|
                #![trigger st.pcols[j], m1[c][r]]
                0 <= j < kk && 0 <= c < st.pcols[j] && j <= r < rows implies m1[c][r].num
                == 0 by {
                assert(m1[c][r] == (if pr != kk && r == kk {
                    st.mat[c][pr]
                } else if pr != kk && r == pr {
                    st.mat[c][kk]
                } else {
                    st.mat[c][r]
                }));
                assert(st.mat[c][pr].num == 0 && st.mat[c][kk].num == 0 && st.mat[c][r].num
                    == 0);
            }
            // --- the division of the pivot row ---
            if !div_row_ok(m1, kk, p) {
                assert(!st2.ok);
                return ;
            }
            let m2 = div_row_spec(m1, kk, p);
            assert forall|c: int, x: int| 0 <= c < cols && 0 <= x < rows implies
                #[trigger] m2[c][x] == (if x == kk {
                    div_spec(m1[c][kk], p)->Some_0
                } else {
                    m1[c][x]
                }) by {
                assert(m2[c] == m1[c].update(kk, div_spec(m1[c][kk], p)->Some_0));
            }
            assert(m2.len() == cols);
            assert forall|c: int| 0 <= c < cols implies (#[trigger] m2[c]).len() == rows
                && seq_wf(m2[c]) by {
                assert(m2[c] == m1[c].update(kk, div_spec(m1[c][kk], p)->Some_0));
                lemma_div_props(m1[c][kk], p);
                assert forall|x: int| 0 <= x < m2[c].len() implies s_wf(
                    #[trigger] m2[c][x],
                ) by {
                    if x != kk {
                        assert(m2[c][x] == m1[c][x]);
                    }
                }
            }
            assert(m_rows(m2) == rows);
            assert(m_wf(m2));
            assert(m2[pc][kk] == one_s()) by {
                lemma_div_self(p);
            }
            assert forall|cc: int| 0 <= cc < pc implies #[trigger] m2[cc][kk] == zero_s() by {
                assert(m1[cc][kk].num == 0);
                lemma_wf_zero_is_zero(m1[cc][kk]);
                lemma_div_zero(p);
            }
            assert forall|cc: int, r: int| 0 <= cc < pc && kk <= r < rows implies
                #[trigger] m2[cc][r].num == 0 by {
                if r == kk {
                    assert(m2[cc][kk] == zero_s());
                } else {
                    assert(m2[cc][r] == m1[cc][r]);
                }
            }
            // prior pivot structure survives the division (row kk only)
            assert forall|j: int| 0 <= j < kk implies m2[#[trigger] st.pcols[j]][j]
                == one_s() by {
                assert(m2[st.pcols[j]][j] == m1[st.pcols[j]][j]);
            }
            assert forall|j: int, r: int|
                #![trigger m2[st.pcols[j]][r]]
                0 <= j < kk && j < r < rows implies m2[st.pcols[j]][r].num == 0 by {
                let c = st.pcols[j];
                if r == kk {
                    assert(m1[c][kk].num == 0);
                    lemma_wf_zero_is_zero(m1[c][kk]);
                    lemma_div_zero(p);
                    assert(m2[c][kk] == div_spec(m1[c][kk], p)->Some_0);
                } else {
                    assert(m2[c][r] == m1[c][r]);
                }
            }
            assert forall|j: int, c: int, r: int|
                #![trigger st.pcols[j], m2[c][r]]
                0 <= j < kk && 0 <= c < st.pcols[j] && j <= r < rows implies m2[c][r].num
                == 0 by {
                if r == kk {
                    assert(c < pc);
                    assert(m2[c][kk] == zero_s());
                } else {
                    assert(m2[c][r] == m1[c][r]);
                    assert(m1[c][r].num == 0);
                }
            }
            // --- replay through the swap and divide operations ---
            let ops1 = if pr != kk {
                st.ops.push(RowEchelonOperation::Swap(pr as usize, kk as usize))
            } else {
                st.ops
            };
            if pr != kk {
                let op = RowEchelonOperation::Swap(pr as usize, kk as usize);
                lemma_apply_ops_snoc(m, st.ops, op);
                assert(crate::row_ops::apply_op_spec(st.mat, op) == swap_rows_spec(
                    st.mat,
                    pr,
                    kk,
                ));
            }
            assert(apply_ops_ok(m, ops1) && apply_ops_spec(m, ops1) == m1);
            assert forall|i: int| 0 <= i < ops1.len() implies op_valid(
                #[trigger] ops1[i],
                rows,
            ) by {
                if i < st.ops.len() {
                    assert(op_valid(st.ops[i], rows));
                }
            }
            let dop = RowEchelonOperation::Divide(kk as usize, p);
            let ops2 = ops1.push(dop);
            lemma_apply_ops_snoc(m, ops1, dop);
            assert(crate::row_ops::apply_op_spec(m1, dop) == div_row_spec(m1, kk, p));
            assert(op_ok(m1, dop));
            assert(apply_ops_ok(m, ops2) && apply_ops_spec(m, ops2) == m2);
            assert forall|i: int| 0 <= i < ops2.len() implies op_valid(
                #[trigger] ops2[i],
                rows,
            ) by {
                if i < ops1.len() {
                    assert(op_valid(ops1[i], rows));
                }
            }
            // --- the elimination below the pivot ---
            let est = RowStep { ok: true, mat: m2, ops: ops2 };
            lemma_elim_props(m, est, pc, kk, rows);
            let e = elim_below_upto(est, pc, kk, rows);
            assert(st2 == (ReduceState {
                ok: e.ok,
                stopped: false,
                mat: e.mat,
                pivots: st.pivots.push(p),
                pcols: st.pcols.push(pc),
                ops: e.ops,
            }));
            if !e.ok {
                return ;
            }
            let pcols2 = st.pcols.push(pc);
            // sortedness of the pivot columns
            assert forall|j: int| 0 <= j < kk implies #[trigger] st.pcols[j] < pc by {
                if kk >= 1 {
                    if pc < st.pcols[kk - 1] {
                        assert(st.mat[pc][pr].num == 0);
                    } else if pc == st.pcols[kk - 1] {
                        assert(st.mat[st.pcols[kk - 1]][pr].num == 0);
                    }
                    assert(st.pcols[kk - 1] < pc);
                    if j < kk - 1 {
                        assert(st.pcols[j] < st.pcols[kk - 1]);
                    }
                }
            }
            // the new state satisfies the invariant
            assert forall|j: int| 0 <= j < k implies 0 <= #[trigger] pcols2[j] < cols by {
                if j < kk {
                    assert(pcols2[j] == st.pcols[j]);
                }
            }
            assert forall|a: int, b: int| 0 <= a < b < k implies #[trigger] pcols2[a]
                < #[trigger] pcols2[b] by {
                if b < kk {
                    assert(st.pcols[a] < st.pcols[b]);
                } else {
                    assert(pcols2[b] == pc);
                    assert(st.pcols[a] < pc);
                }
            }
            assert forall|j: int| 0 <= j < k implies e.mat[#[trigger] pcols2[j]][j]
                == one_s() by {
                if j < kk {
                    let c = st.pcols[j];
                    assert(m2[c][kk].num == 0);
                    assert(e.mat[c] == m2[c]);
                    assert(m2[c][j] == one_s());
                } else {
                    assert(e.mat[pc][kk] == m2[pc][kk]);
                }
            }
            assert forall|j: int, r: int|
                #![trigger e.mat[pcols2[j]][r]]
                0 <= j < k && j < r < rows implies e.mat[pcols2[j]][r].num == 0 by {
                if j < kk {
                    let c = st.pcols[j];
                    assert(m2[c][kk].num == 0);
                    assert(e.mat[c] == m2[c]);
                    assert(m2[c][r].num == 0);
                } else {
                    assert(pcols2[j] == pc && j == kk);
                    assert(e.mat[pc][r].num == 0);
                }
            }
            assert forall|j: int, c: int, r: int|
                #![trigger pcols2[j], e.mat[c][r]]
                0 <= j < k && 0 <= c < pcols2[j] && j <= r < rows implies e.mat[c][r].num
                == 0 by {
                assert(pcols2[j] <= pc);
                assert(c < pc);
                assert(m2[c][kk] == zero_s());
                assert(e.mat[c] == m2[c]);
                if j < kk {
                    assert(c < st.pcols[j]);
                    assert(m2[c][r].num == 0);
                } else {
                    assert(j == kk);
                    assert(m2[c][r].num == 0);
                }
            }
            // machine bounds for the new pivot count
            assert(k <= rows);
            lemma_increasing_lower(pcols2, k);
            assert(pcols2[k - 1] >= k - 1);
            assert(k <= cols);
            assert(inv_at(m, st2, k));
        },
    }
}



/// Columns left of pivot column `i` are zero from row `i` down.
proof fn lemma_left_zero(m: Seq<Seq<Scalar>>, st: ReduceState, k: int, i: int, c: int, r: int)
    requires
        inv_at(m, st, k),
        0 <= i < k,
        0 <= c < st.pcols[i],
        i <= r < m_rows(m),
    ensures
        st.mat[c][r].num == 0,
    decreases i,
{
    if i == 0 || c < st.pcols[0] {
        assert(0 <= c < st.pcols[0] && 0 <= r < m_rows(m) && st.mat[c][r].num == 0) by {
            if i > 0 {
                assert(st.pcols[0] < st.pcols[i]);
            }
        }
    } else if c < st.pcols[i - 1] {
        lemma_left_zero(m, st, k, i - 1, c, r);
    } else if c == st.pcols[i - 1] {
        assert(st.mat[st.pcols[i - 1]][r].num == 0);
    } else {
        assert(st.mat[c][r].num == 0);
    }
}

/// A scan over zero entries keeps its best candidate.
proof fn lemma_scan_stays(col: Seq<Scalar>, best: Option<int>, a: int, upto: int)
    requires
        forall|r: int| a <= r < upto ==> (#[trigger] col[r]).num == 0,
    ensures
        scan_col(col, best, a, upto) == best,
    decreases upto - a,
{
    if a < upto {
        assert(scan_step(col, best, a) == best);
        lemma_scan_stays(col, best, a + 1, upto);
    }
}

/// Where the pivot search lands on a reduced matrix: the pivot column of
/// step `i` itself, at row `i`.
proof fn lemma_find_from(
    m: Seq<Seq<Scalar>>,
    st: ReduceState,
    k: int,
    i: int,
    c: int,
)
    requires
        inv_at(m, st, k),
        0 <= i < k,
        0 <= c <= st.pcols[i],
    ensures
        find_pivot_from(st.mat, i, c) == Some((st.pcols[i], i)),
    decreases st.pcols[i] - c,
{
    let rows = m_rows(m);
    if c == st.pcols[i] {
        assert(st.mat[c][i] == one_s());
        assert(scan_step(st.mat[c], None, i) == Some(i));
        assert forall|r: int| i + 1 <= r < rows implies (#[trigger] st.mat[c][r]).num == 0 by {
            assert(st.mat[st.pcols[i]][r].num == 0);
        }
        lemma_scan_stays(st.mat[c], Some(i), i + 1, rows);
        assert(scan_col(st.mat[c], None, i, rows) == Some(i));
    } else {
        assert forall|r: int| i <= r < rows implies (#[trigger] st.mat[c][r]).num == 0 by {
            lemma_left_zero(m, st, k, i, c, r);
        }
        lemma_scan_stays(st.mat[c], None, i, rows);
        lemma_find_from(m, st, k, i, c + 1);
    }
}

/// On a matrix whose rows from `p` down are zero, the pivot search from
/// row `p` finds nothing.
proof fn lemma_find_none_of_tail(mat: Seq<Seq<Scalar>>, p: int, c: int)
    requires
        tail_zero(mat, p),
        0 <= c,
        0 <= p,
    ensures
        find_pivot_from(mat, p, c) is None,
    decreases mat.len() - c,
{
    if c < mat.len() {
        assert forall|r: int| p <= r < m_rows(mat) implies (#[trigger] mat[c][r]).num == 0 by {}
        lemma_scan_stays(mat[c], None, p, m_rows(mat));
        lemma_find_none_of_tail(mat, p, c + 1);
    }
}

/// An elimination below a pivot whose column is already clear does nothing.
proof fn lemma_elim_noop(st: RowStep, pcol: int, prow: int, j: int)
    requires
        st.ok,
        forall|r: int| prow < r < j ==> (#[trigger] st.mat[pcol][r]).num == 0,
    ensures
        elim_below_upto(st, pcol, prow, j) == st,
    decreases j - prow,
{
    if j > prow + 1 {
        lemma_elim_noop(st, pcol, prow, j - 1);
    }
}

/// After a successful reduction, every row below the last pivot is zero.
pub proof fn lemma_reduce_tail_zero(m: Seq<Seq<Scalar>>)
    requires
        m_wf(m),
        reduce_spec(m).ok,
    ensures
        tail_zero(reduce_spec(m).mat, reduce_spec(m).pivots.len() as int),
{
    let st = reduce_spec(m);
    let p = st.pivots.len() as int;
    let rows = m_rows(m);
    let cols = m.len() as int;
    lemma_reduce_inv(m, steps_of(m));
    if st.stopped {
    } else {
        assert(p == steps_of(m));
        if p == rows {
            assert(tail_zero(st.mat, p));
        } else {
            assert(p == cols && cols < rows);
            // with as many pivots as columns, the pivot columns are exactly
            // 0, 1, ..., cols - 1
            lemma_increasing_lower(st.pcols, p);
            lemma_increasing_upper(st.pcols, p, cols);
            assert forall|c: int, r: int|
                0 <= c < st.mat.len() && p <= r < m_rows(st.mat) implies (
                #[trigger] st.mat[c][r]).num == 0 by {
                assert(st.pcols[c] == c);
                assert(st.mat[st.pcols[c]][r].num == 0);
            }
        }
    }
}

/// A strictly increasing sequence of `k` values below `bound == k` is the
/// identity.
proof fn lemma_increasing_upper(ps: Seq<int>, k: int, bound: int)
    requires
        0 <= k <= ps.len(),
        k == bound,
        forall|a: int, b: int| 0 <= a < b < ps.len() ==> #[trigger] ps[a] < #[trigger] ps[b],
        forall|j: int| 0 <= j < ps.len() ==> 0 <= #[trigger] ps[j],
        forall|j: int| 0 <= j < k ==> #[trigger] ps[j] < bound,
    ensures
        forall|j: int| 0 <= j < k ==> #[trigger] ps[j] == j,
{
    lemma_increasing_lower(ps, k);
    assert forall|j: int| 0 <= j < k implies #[trigger] ps[j] == j by {
        lemma_increasing_gap(ps, j, k - 1);
        assert(ps[k - 1] <= bound - 1);
    }
}

/// In a strictly increasing sequence, later entries exceed earlier ones by
/// at least the index gap.
proof fn lemma_increasing_gap(ps: Seq<int>, a: int, b: int)
    requires
        0 <= a <= b < ps.len(),
        forall|x: int, y: int| 0 <= x < y < ps.len() ==> #[trigger] ps[x] < #[trigger] ps[y],
    ensures
        ps[b] - ps[a] >= b - a,
    decreases b - a,
{
    if a < b {
        lemma_increasing_gap(ps, a, b - 1);
        assert(ps[b - 1] < ps[b]);
    }
}

// ---------------------------------------------------------------------------
// The public laws
// ---------------------------------------------------------------------------

/// Replaying the recorded operations against the original matrix
/// reproduces exactly the reduced matrix, and the number of tracked pivots
/// never exceeds either dimension.
pub proof fn law_replay_reproduces_reduction(m: Seq<Seq<Scalar>>)
    requires
        m_wf(m),
        reduce_spec(m).ok,
    ensures
        apply_ops_ok(m, reduce_spec(m).ops),
        apply_ops_spec(m, reduce_spec(m).ops) == reduce_spec(m).mat,
        reduce_spec(m).pivots.len() <= m_rows(m),
        reduce_spec(m).pivots.len() <= m.len(),
{
    lemma_reduce_inv(m, steps_of(m));
}

/// The reduction always produces a matrix in row echelon form.
pub proof fn law_reduction_gives_echelon_form(m: Seq<Seq<Scalar>>)
    requires
        m_wf(m),
        reduce_spec(m).ok,
    ensures
        is_echelon_spec(reduce_spec(m).mat),
{
    let st = reduce_spec(m);
    let p = st.pivots.len() as int;
    let rows = m_rows(m);
    let cols = m.len() as int;
    lemma_reduce_inv(m, steps_of(m));
    lemma_reduce_tail_zero(m);
    assert forall|r: int| 0 <= r < p implies first_nz(row_of(st.mat, r)) == Some(
        st.pcols[r],
    ) by {
        let row = row_of(st.mat, r);
        assert(row.len() == cols);
        assert forall|c: int| 0 <= c < st.pcols[r] implies (#[trigger] row[c]).num == 0 by {
            assert(row[c] == st.mat[c][r]);
            lemma_left_zero(m, st, p, r, c, r);
        }
        lemma_first_nz_skip(row, 0, st.pcols[r]);
        assert(row[st.pcols[r]] == one_s());
    }
    assert forall|r: int| p <= r < rows implies first_nz(row_of(st.mat, r)) is None by {
        let row = row_of(st.mat, r);
        assert(row.len() == cols);
        assert forall|c: int| 0 <= c < cols implies (#[trigger] row[c]).num == 0 by {
            assert(row[c] == st.mat[c][r]);
        }
        lemma_first_nz_skip(row, 0, cols);
    }
    assert forall|r: int| 0 <= r < m_rows(st.mat) - 1 implies echelon_pair(st.mat, r) by {
        if r + 1 < p {
            assert(first_nz(row_of(st.mat, r)) == Some(st.pcols[r]));
            assert(first_nz(row_of(st.mat, r + 1)) == Some(st.pcols[r + 1]));
            assert(st.pcols[r] < st.pcols[r + 1]);
        } else if r < p {
            assert(first_nz(row_of(st.mat, r + 1)) is None);
        } else {
            assert(first_nz(row_of(st.mat, r)) is None);
            assert(first_nz(row_of(st.mat, r + 1)) is None);
        }
    }
}

/// Reducing an already reduced matrix changes nothing: the matrix comes
/// back exactly, with the same number of pivots (so the rank is preserved
/// by reduction as well).
pub proof fn law_reduction_idempotent(m: Seq<Seq<Scalar>>)
    requires
        m_wf(m),
        reduce_spec(m).ok,
    ensures
        reduce_spec(reduce_spec(m).mat).ok,
        reduce_spec(reduce_spec(m).mat).mat == reduce_spec(m).mat,
        reduce_spec(reduce_spec(m).mat).pivots.len() == reduce_spec(m).pivots.len(),
{
    let st = reduce_spec(m);
    let rm = st.mat;
    let p = st.pivots.len() as int;
    lemma_reduce_inv(m, steps_of(m));
    lemma_reduce_tail_zero(m);
    assert(steps_of(rm) == steps_of(m));
    lemma_second_run(m, p);
    let s2 = reduce_upto(rm, p);
    if p == steps_of(m) {
        assert(reduce_spec(rm) == s2);
    } else {
        assert(p < steps_of(m));
        assert(tail_zero(s2.mat, p));
        lemma_find_none_of_tail(s2.mat, p, 0);
        assert(reduce_upto(rm, p + 1) == (ReduceState { stopped: true, ..s2 }));
        crate::reduction::lemma_reduce_frozen(rm, p + 1, steps_of(rm));
    }
}

/// The second reduction pass walks the same pivots and changes nothing.
proof fn lemma_second_run(m: Seq<Seq<Scalar>>, i: int)
    requires
        m_wf(m),
        reduce_spec(m).ok,
        0 <= i <= reduce_spec(m).pivots.len(),
    ensures
        ({
            let st = reduce_spec(m);
            let s2 = reduce_upto(st.mat, i);
            &&& s2.ok
            &&& !s2.stopped
            &&& s2.mat == st.mat
            &&& s2.pivots.len() == i
        }),
    decreases i,
{
    let st = reduce_spec(m);
    let rm = st.mat;
    let p = st.pivots.len() as int;
    let rows = m_rows(m);
    lemma_reduce_inv(m, steps_of(m));
    if i == 0 {
        return ;
    }
    lemma_second_run(m, i - 1);
    let prev = reduce_upto(rm, i - 1);
    let s2 = reduce_upto(rm, i);
    assert(s2 == reduce_step(prev, i - 1));
    lemma_find_from(m, st, p, i - 1, 0);
    assert(find_pivot_spec(rm, i - 1) == Some((st.pcols[i - 1], i - 1)));
    let pc = st.pcols[i - 1];
    let one = rm[pc][i - 1];
    assert(one == one_s());
    // dividing by one is the identity on every entry
    assert forall|c: int| 0 <= c < rm.len() implies (#[trigger] div_spec(rm[c][i - 1], one))
        == Some(rm[c][i - 1]) by {
        lemma_div_one(rm[c][i - 1]);
    }
    assert(div_row_ok(rm, i - 1, one));
    let m2 = div_row_spec(rm, i - 1, one);
    assert forall|c: int| 0 <= c < rm.len() implies #[trigger] m2[c] == rm[c] by {
        assert(m2[c] == rm[c].update(i - 1, div_spec(rm[c][i - 1], one)->Some_0));
        assert(m2[c] =~= rm[c]);
    }
    assert(m2 =~= rm);
    // nothing below the pivot to clear
    let est = RowStep {
        ok: true,
        mat: m2,
        ops: prev.ops.push(RowEchelonOperation::Divide((i - 1) as usize, one)),
    };
    assert forall|r: int| i - 1 < r < rows implies (#[trigger] est.mat[pc][r]).num == 0 by {
        assert(rm[st.pcols[i - 1]][r].num == 0);
    }
    lemma_elim_noop(est, pc, i - 1, rows);
    assert(s2.mat == rm && s2.ok && !s2.stopped && s2.pivots.len() == i);
}

/// The product of well-formed nonzero scalars, when representable, is
/// well-formed and nonzero.
proof fn lemma_prod_nonzero(ps: Seq<Scalar>, n: int)
    requires
        0 <= n <= ps.len(),
        forall|j: int| 0 <= j < ps.len() ==> s_wf(#[trigger] ps[j]) && ps[j].num != 0,
    ensures
        prod_prefix(ps, n) is Some ==> s_wf(prod_prefix(ps, n)->Some_0) && prod_prefix(
            ps,
            n,
        )->Some_0.num != 0,
    decreases n,
{
    lemma_wf_consts();
    if n > 0 {
        lemma_prod_nonzero(ps, n - 1);
        if prod_prefix(ps, n - 1) is Some {
            lemma_mul_props(prod_prefix(ps, n - 1)->Some_0, ps[n - 1]);
        }
    }
}

/// For every nonempty square matrix whose reduction and determinant are
/// representable: the determinant is zero exactly when the rank falls
/// short of the size.
pub proof fn law_determinant_zero_iff_rank_deficient(m: Seq<Seq<Scalar>>)
    requires
        m_wf(m),
        m.len() == m_rows(m),
        m.len() >= 1,
        det_spec(m) is Some,
    ensures
        reduce_spec(m).ok,
        (det_spec(m)->Some_0.num == 0) <==> (reduce_spec(m).pivots.len() < m.len()),
{
    let st = reduce_spec(m);
    let n = m.len() as int;
    assert(st.ok);
    lemma_reduce_inv(m, steps_of(m));
    if st.pivots.len() < n {
        assert(det_spec(m) == Some(zero_s()));
    } else {
        assert(prod_spec(st.pivots) is Some);
        lemma_prod_nonzero(st.pivots, st.pivots.len() as int);
        let d = prod_spec(st.pivots)->Some_0;
        assert(d.num != 0);
        assert(neg_spec(d).num as int == -(d.num as int));
        assert(det_spec(m)->Some_0.num != 0);
    }
}



/// The analogue of `lemma_elim_props` for the back pass: clearing the rows
/// above a normalized pivot at `(p, p)` touches nothing at or below row
/// `j`, leaves columns whose pivot-row entry is zero alone, clears the
/// pivot column above the pivot, and replays.
proof fn lemma_elim_above_props(m0: Seq<Seq<Scalar>>, st: RowStep, p: int, j: int)
    requires
        st.ok,
        m_wf(st.mat),
        0 <= p < st.mat.len(),
        p < m_rows(st.mat),
        0 <= j <= p,
        st.mat[p][p] == one_s(),
        apply_ops_ok(m0, st.ops),
        apply_ops_spec(m0, st.ops) == st.mat,
        ops_valid(st.ops, m_rows(st.mat)),
    ensures
        ({
            let e = elim_above_upto(st, p, j);
            e.ok ==> {
                &&& e.mat.len() == st.mat.len()
                &&& m_rows(e.mat) == m_rows(st.mat)
                &&& m_wf(e.mat)
                &&& forall|c: int, r: int|
                    0 <= c < st.mat.len() && j <= r < m_rows(st.mat) ==> #[trigger] e.mat[c][r]
                        == st.mat[c][r]
                &&& forall|c: int|
                    0 <= c < st.mat.len() && st.mat[c][p].num == 0 ==> #[trigger] e.mat[c]
                        == st.mat[c]
                &&& forall|r: int| 0 <= r < j ==> #[trigger] e.mat[p][r].num == 0
                &&& apply_ops_ok(m0, e.ops)
                &&& apply_ops_spec(m0, e.ops) == e.mat
                &&& ops_valid(e.ops, m_rows(st.mat))
            }
        }),
    decreases j,
{
    let rows = m_rows(st.mat);
    let cols = st.mat.len() as int;
    if j == 0 {
        return ;
    }
    lemma_elim_above_props(m0, st, p, j - 1);
    let e1 = elim_above_upto(st, p, j - 1);
    let e = elim_one(e1, p, p, j - 1);
    assert(elim_above_upto(st, p, j) == e);
    if !e1.ok {
        return ;
    }
    let f = e1.mat[p][j - 1];
    assert(f == st.mat[p][j - 1]);
    if f.num == 0 {
        assert(e == e1);
        return ;
    }
    let k = neg_spec(f);
    if !add_row_ok(e1.mat, j - 1, p, k) {
        return ;
    }
    assert(s_wf(f));
    assert(s_wf(k)) by {
        assert(f.den >= 1);
    }
    assert(e.mat == add_row_spec(e1.mat, j - 1, p, k));
    assert forall|c: int| 0 <= c < cols implies #[trigger] e.mat[c] == e1.mat[c].update(
        j - 1,
        add_spec(e1.mat[c][j - 1], mul_spec(e1.mat[c][p], k)->Some_0)->Some_0,
    ) by {}
    assert(e1.mat[p][p] == st.mat[p][p]);
    assert(mul_spec(e1.mat[p][p], k) == Some(k)) by {
        lemma_mul_one(k);
    }
    assert(add_spec(f, k) == Some(zero_s())) by {
        lemma_add_opp(f);
    }
    assert(e.mat[p][j - 1] == zero_s());
    assert forall|c: int| 0 <= c < cols && st.mat[c][p].num == 0 implies #[trigger] e.mat[c]
        == st.mat[c] by {
        assert(e1.mat[c] == st.mat[c]);
        assert(e1.mat[c][p] == st.mat[c][p]);
        lemma_wf_zero_is_zero(st.mat[c][p]);
        assert(mul_spec(e1.mat[c][p], k) == Some(zero_s())) by {
            lemma_mul_zero(k);
        }
        assert(add_spec(e1.mat[c][j - 1], zero_s()) == Some(e1.mat[c][j - 1])) by {
            lemma_add_zero(e1.mat[c][j - 1]);
        }
        assert(e.mat[c] =~= st.mat[c]);
    }
    assert forall|c: int| 0 <= c < cols implies seq_wf(#[trigger] e.mat[c]) && e.mat[c].len()
        == rows by {
        assert(seq_wf(e1.mat[c]));
        lemma_mul_props(e1.mat[c][p], k);
        lemma_add_props(e1.mat[c][j - 1], mul_spec(e1.mat[c][p], k)->Some_0);
        assert forall|r: int| 0 <= r < e.mat[c].len() implies s_wf(#[trigger] e.mat[c][r]) by {
            if r != j - 1 {
                assert(e.mat[c][r] == e1.mat[c][r]);
            }
        }
    }
    assert(m_rows(e.mat) == rows) by {
        assert(e.mat[0].len() == rows);
    }
    assert(m_rect(e.mat));
    let op = RowEchelonOperation::AddScaledRow((j - 1) as usize, p as usize, k);
    assert(e.ops == e1.ops.push(op));
    assert(op_ok(e1.mat, op) && apply_op_spec_matches(e1.mat, op, j - 1, p, k));
    lemma_apply_ops_snoc(m0, e1.ops, op);
    assert(apply_ops_spec(m0, e.ops) == e.mat);
    assert(op_valid(op, rows));
    assert forall|i: int| 0 <= i < e.ops.len() implies op_valid(#[trigger] e.ops[i], rows) by {
        if i < e1.ops.len() {
            assert(op_valid(e1.ops[i], rows));
        }
    }
}

/// The invariant of the back pass over a full-rank square reduced matrix:
/// after clearing above pivots `1 .. i`, the first `i` columns are identity
/// columns, the rest keep a unit diagonal with zeros below it, and the
/// appended operations replay.
proof fn lemma_back_inv(m: Seq<Seq<Scalar>>, i: int)
    requires
        m_wf(m),
        m.len() == m_rows(m),
        m.len() >= 1,
        reduce_spec(m).ok,
        reduce_spec(m).pivots.len() == m.len(),
        1 <= i <= m.len(),
    ensures
        ({
            let rm = reduce_spec(m).mat;
            let st = back_upto(rm, i);
            let n = m.len() as int;
            st.ok ==> {
                &&& st.mat.len() == n
                &&& m_rows(st.mat) == n
                &&& m_wf(st.mat)
                &&& forall|c: int, r: int|
                    #![trigger st.mat[c][r]]
                    0 <= c < i && 0 <= r < n ==> st.mat[c][r] == (if r == c {
                        one_s()
                    } else {
                        zero_s()
                    })
                &&& forall|c: int| i <= c < n ==> #[trigger] st.mat[c][c] == one_s()
                &&& forall|c: int, r: int|
                    #![trigger st.mat[c][r]]
                    i <= c < n && c < r < n ==> st.mat[c][r].num == 0
                &&& apply_ops_ok(rm, st.ops)
                &&& apply_ops_spec(rm, st.ops) == st.mat
                &&& ops_valid(st.ops, n)
            }
        }),
    decreases i,
{
    let red = reduce_spec(m);
    let rm = red.mat;
    let n = m.len() as int;
    lemma_reduce_inv(m, steps_of(m));
    lemma_increasing_lower(red.pcols, n);
    lemma_increasing_upper(red.pcols, n, n);
    assert(forall|j: int| 0 <= j < n ==> #[trigger] red.pcols[j] == j);
    if i == 1 {
        let st = back_upto(rm, 1);
        assert(st == (RowStep { ok: true, mat: rm, ops: Seq::<RowEchelonOperation>::empty() }));
        assert(apply_ops_ok(rm, st.ops) && apply_ops_spec(rm, st.ops) == rm);
        assert forall|c: int, r: int|
            #![trigger st.mat[c][r]]
            0 <= c < 1 && 0 <= r < n implies st.mat[c][r] == (if r == c {
            one_s()
        } else {
            zero_s()
        }) by {
            assert(rm[red.pcols[0]][0] == one_s());
            if r > 0 {
                assert(rm[red.pcols[0]][r].num == 0);
                lemma_wf_zero_is_zero(rm[0][r]);
            }
        }
        assert forall|c: int| 1 <= c < n implies #[trigger] st.mat[c][c] == one_s() by {
            assert(rm[red.pcols[c]][c] == one_s());
        }
        assert forall|c: int, r: int|
            #![trigger st.mat[c][r]]
            1 <= c < n && c < r < n implies st.mat[c][r].num == 0 by {
            assert(rm[red.pcols[c]][r].num == 0);
        }
        return ;
    }
    lemma_back_inv(m, i - 1);
    let prev = back_upto(rm, i - 1);
    let st = back_upto(rm, i);
    assert(st == elim_above_upto(prev, i - 1, i - 1));
    if !prev.ok {
        assert(!st.ok) by {
            lemma_elim_above_fail(prev, i - 1, i - 1);
        }
        return ;
    }
    assert(prev.mat[i - 1][i - 1] == one_s());
    lemma_elim_above_props(rm, prev, i - 1, i - 1);
    if !st.ok {
        return ;
    }
    // identity columns stay identity: their pivot-row entry is zero
    assert forall|c: int, r: int|
        #![trigger st.mat[c][r]]
        0 <= c < i && 0 <= r < n implies st.mat[c][r] == (if r == c {
        one_s()
    } else {
        zero_s()
    }) by {
        if c < i - 1 {
            assert(prev.mat[c][i - 1] == zero_s());
            assert(st.mat[c] == prev.mat[c]);
        } else {
            // the column just cleared
            if r < i - 1 {
                assert(st.mat[c][r].num == 0);
                lemma_wf_zero_is_zero(st.mat[c][r]);
            } else {
                assert(st.mat[c][r] == prev.mat[c][r]);
                if r > c {
                    lemma_wf_zero_is_zero(prev.mat[c][r]);
                }
            }
        }
    }
    // untouched later columns keep their diagonal and their zeros below it
    assert forall|c: int| i <= c < n implies #[trigger] st.mat[c][c] == one_s() by {
        assert(st.mat[c][c] == prev.mat[c][c]);
    }
    assert forall|c: int, r: int|
        #![trigger st.mat[c][r]]
        i <= c < n && c < r < n implies st.mat[c][r].num == 0 by {
        assert(st.mat[c][r] == prev.mat[c][r]);
    }
}

/// A failed back-pass state stays failed through another pivot.
proof fn lemma_elim_above_fail(st: RowStep, p: int, j: int)
    requires
        !st.ok,
    ensures
        elim_above_upto(st, p, j) == st,
    decreases j,
{
    if j > 0 {
        lemma_elim_above_fail(st, p, j - 1);
    }
}

/// The Gauss–Jordan core: on a full-rank square matrix, the forward log
/// followed by the back-substitution log replays the matrix exactly to the
/// identity.
pub proof fn law_operations_reduce_to_identity(m: Seq<Seq<Scalar>>)
    requires
        m_wf(m),
        m.len() == m_rows(m),
        reduce_spec(m).ok,
        reduce_spec(m).pivots.len() == m.len(),
        back_spec(reduce_spec(m).mat).ok,
    ensures
        back_spec(reduce_spec(m).mat).mat == identity_spec(m.len() as int),
        apply_ops_ok(m, reduce_spec(m).ops + back_spec(reduce_spec(m).mat).ops),
        apply_ops_spec(m, reduce_spec(m).ops + back_spec(reduce_spec(m).mat).ops)
            == identity_spec(m.len() as int),
{
    let red = reduce_spec(m);
    let rm = red.mat;
    let n = m.len() as int;
    let bs = back_spec(rm);
    lemma_reduce_inv(m, steps_of(m));
    if n == 0 {
        assert(bs == (RowStep { ok: true, mat: rm, ops: Seq::<RowEchelonOperation>::empty() }));
        assert(rm =~= identity_spec(0));
        assert(m + Seq::<Seq<Scalar>>::empty() =~= m);
        lemma_apply_ops_concat(m, red.ops, bs.ops);
        assert(red.ops + bs.ops =~= red.ops);
        return ;
    }
    assert(rm.len() == n && m_rows(rm) == n);
    lemma_back_inv(m, n);
    assert(bs == back_upto(rm, n));
    assert forall|c: int| 0 <= c < n implies #[trigger] bs.mat[c] =~= identity_spec(n)[c] by {
        assert forall|r: int| 0 <= r < n implies bs.mat[c][r] == identity_spec(n)[c][r] by {
            assert(bs.mat[c][r] == (if r == c {
                one_s()
            } else {
                zero_s()
            }));
        }
    }
    assert(bs.mat =~= identity_spec(n));
    lemma_apply_ops_concat(m, red.ops, bs.ops);
}


} // verus!
