use vstd::prelude::*;
use vstd::arithmetic::div_mod::{lemma_mod_twice, lemma_sub_mod_noop};
use crate::arith::{divw, lemma_tq_bounds, lemma_wrap_cases, lemma_wrap_mod, wdiv, wmul, wrap, wsub};
use crate::errors::SprsError;
use crate::mat::{
    inds_below, lemma_take_push, lemma_val_at_absent, lemma_val_at_prefix_absent,
    lemma_val_at_push, unique_inds, val_at, CsMat, Entry, Storage,
};

verus! {

/// Sum of `value * x[index]` over the stored entries of `es` whose inner
/// index falls in `[lo, hi)`, in storage order.
pub open spec fn esum(es: Seq<Entry>, x: Seq<i64>, lo: int, hi: int) -> int
    decreases es.len(),
{
    if es.len() == 0 {
        0
    } else {
        esum(es.drop_last(), x, lo, hi) + (if lo <= es.last().ind < hi {
            es.last().val * x[es.last().ind as int]
        } else {
            0
        })
    }
}

/// The same sum, walked by inner index instead of storage order.
pub open spec fn vsum(es: Seq<Entry>, x: Seq<i64>, lo: int, hi: int) -> int
    decreases hi - lo,
{
    if hi <= lo {
        0
    } else {
        vsum(es, x, lo, hi - 1) + val_at(es, hi - 1) * x[hi - 1]
    }
}

/// Sum of `m[i][j] * x[j]` over columns `j` in `[lo, hi)`.
pub open spec fn row_sum(m: CsMat, i: int, x: Seq<i64>, lo: int, hi: int) -> int
    decreases hi - lo,
{
    if hi <= lo {
        0
    } else {
        row_sum(m, i, x, lo, hi - 1) + m.ent(i, hi - 1) * x[hi - 1]
    }
}

pub proof fn lemma_esum_push(es: Seq<Entry>, e: Entry, x: Seq<i64>, lo: int, hi: int)
    ensures
        esum(es.push(e), x, lo, hi) == esum(es, x, lo, hi) + (if lo <= e.ind < hi {
            e.val * x[e.ind as int]
        } else {
            0
        }),
{
    assert(es.push(e).drop_last() =~= es);
    assert(es.push(e).last() == e);
}

pub proof fn lemma_vsum_empty(x: Seq<i64>, lo: int, hi: int)
    ensures
        vsum(Seq::<Entry>::empty(), x, lo, hi) == 0,
    decreases hi - lo,
{
    if hi > lo {
        lemma_vsum_empty(x, lo, hi - 1);
        lemma_val_at_absent(Seq::<Entry>::empty(), hi - 1);
    }
}

pub proof fn lemma_vsum_push(es: Seq<Entry>, e: Entry, x: Seq<i64>, lo: int, hi: int)
    ensures
        vsum(es.push(e), x, lo, hi) == vsum(es, x, lo, hi) + (if lo <= e.ind < hi {
            e.val * x[e.ind as int]
        } else {
            0
        }),
    decreases hi - lo,
{
    if hi > lo {
        lemma_vsum_push(es, e, x, lo, hi - 1);
        lemma_val_at_push(es, e, hi - 1);
        assert((val_at(es, hi - 1) + (if e.ind == hi - 1 {
            e.val as int
        } else {
            0
        })) * x[hi - 1] == val_at(es, hi - 1) * x[hi - 1] + (if e.ind == hi - 1 {
            e.val as int
        } else {
            0
        }) * x[hi - 1]) by (nonlinear_arith);
    }
}

/// The storage-order sum and the index-order sum agree.
pub proof fn lemma_esum_vsum(es: Seq<Entry>, x: Seq<i64>, lo: int, hi: int)
    ensures
        esum(es, x, lo, hi) == vsum(es, x, lo, hi),
    decreases es.len(),
{
    if es.len() == 0 {
        lemma_vsum_empty(x, lo, hi);
        assert(es =~= Seq::<Entry>::empty());
    } else {
        lemma_esum_vsum(es.drop_last(), x, lo, hi);
        lemma_vsum_push(es.drop_last(), es.last(), x, lo, hi);
        assert(es.drop_last().push(es.last()) =~= es);
    }
}

/// For a row-major matrix, the logical row sum is the index-order sum over
/// the stored row.
pub proof fn lemma_row_sum_csr(m: CsMat, i: int, x: Seq<i64>, lo: int, hi: int)
    requires
        m.storage == Storage::Csr,
        0 <= i < m.outer@.len(),
    ensures
        row_sum(m, i, x, lo, hi) == vsum(m.outer@[i]@, x, lo, hi),
    decreases hi - lo,
{
    if hi > lo {
        lemma_row_sum_csr(m, i, x, lo, hi - 1);
    }
}

pub proof fn lemma_row_sum_agree(m: CsMat, i: int, x1: Seq<i64>, x2: Seq<i64>, lo: int, hi: int)
    requires
        forall|j: int| lo <= j < hi ==> x1[j] == x2[j],
    ensures
        row_sum(m, i, x1, lo, hi) == row_sum(m, i, x2, lo, hi),
    decreases hi - lo,
{
    if hi > lo {
        lemma_row_sum_agree(m, i, x1, x2, lo, hi - 1);
    }
}

/// The value vector after the first `k` steps of forward substitution on
/// the lower triangle: positions below `k` hold the solution, the rest
/// still hold `b`.
pub open spec fn lsolve_rec(m: CsMat, b: Seq<i64>, k: int) -> Seq<i64>
    decreases k,
{
    if k <= 0 {
        b
    } else {
        let p = lsolve_rec(m, b, k - 1);
        let xk = wdiv(wrap(b[k - 1] - row_sum(m, k - 1, p, 0, k - 1)), m.ent(k - 1, k - 1));
        p.update(k - 1, xk)
    }
}

/// The value vector once backward substitution on the upper triangle has
/// solved every position at or above `k`.
pub open spec fn usolve_rec(m: CsMat, b: Seq<i64>, k: int) -> Seq<i64>
    decreases b.len() - k,
{
    if k < 0 || k >= b.len() {
        b
    } else {
        let p = usolve_rec(m, b, k + 1);
        let xk = wdiv(wrap(b[k] - row_sum(m, k, p, k + 1, b.len() as int)), m.ent(k, k));
        p.update(k, xk)
    }
}

pub proof fn lemma_lsolve_rec_frame(m: CsMat, b: Seq<i64>, k: int)
    requires
        k <= b.len(),
    ensures
        lsolve_rec(m, b, k).len() == b.len(),
        forall|j: int| k <= j < b.len() ==> lsolve_rec(m, b, k)[j] == b[j],
    decreases k,
{
    if k > 0 {
        lemma_lsolve_rec_frame(m, b, k - 1);
    }
}

pub proof fn lemma_usolve_rec_frame(m: CsMat, b: Seq<i64>, k: int)
    ensures
        usolve_rec(m, b, k).len() == b.len(),
        forall|j: int| 0 <= j < k && j < b.len() ==> usolve_rec(m, b, k)[j] == b[j],
    decreases b.len() - k,
{
    if 0 <= k < b.len() {
        lemma_usolve_rec_frame(m, b, k + 1);
    }
}

/// Wrapping a wrapped value minus an exact integer equals wrapping the
/// exact difference.
pub proof fn lemma_wrap_sub_exact(xw: i64, x: int, y: int)
    requires
        xw == wrap(x),
    ensures
        wrap(xw as int - y) == wrap(x - y),
{
    let m: int = 0x1_0000_0000_0000_0000;
    lemma_wrap_mod(x);
    lemma_sub_mod_noop(xw as int, y, m);
    lemma_sub_mod_noop(x, y, m);
    crate::arith::lemma_wrap_congruent(xw as int - y, x - y);
}

/// Subtracting a wrapped product and wrapping equals wrapping the exact
/// difference.
pub proof fn lemma_wrap_sub_wrapped(a: int, y: int)
    ensures
        wrap(a - wrap(y) as int) == wrap(a - y),
{
    let m: int = 0x1_0000_0000_0000_0000;
    lemma_wrap_mod(y);
    lemma_sub_mod_noop(a, wrap(y) as int, m);
    lemma_sub_mod_noop(a, y, m);
    lemma_mod_twice(a, m);
    crate::arith::lemma_wrap_congruent(a - wrap(y) as int, a - y);
}

/// Whether `m` is square with dimension equal to `rhs`'s length — the
/// shape every dense solver demands of its inputs.
pub fn check_solver_dimensions(m: &CsMat, rhs: &Vec<i64>) -> (ok: bool)
    ensures
        ok == (m.is_square() && rhs@.len() == m.nrows),
{
    m.rows() == m.cols() && rhs.len() == m.rows()
}

/// Eliminate one column of a lower-triangular system: divide the pivot
/// position of `rhs` by the column's diagonal value, then subtract the
/// scaled column from every dependent position below the pivot.
///
/// Fails with `SingularMatrix`, touching nothing, when the diagonal entry
/// is missing or zero.
#[verifier::loop_isolation(false)]
pub fn lspsolve_csc_process_col(col: &Vec<Entry>, col_ind: usize, rhs: &mut Vec<i64>) -> (r:
    Result<(), SprsError>)
    requires
        unique_inds(col@),
        inds_below(col@, old(rhs)@.len() as int),
        col_ind < old(rhs)@.len(),
    ensures
        final(rhs)@.len() == old(rhs)@.len(),
        (r is Err) <==> val_at(col@, col_ind as int) == 0,
        r is Err ==> r == Err::<(), SprsError>(SprsError::SingularMatrix) && final(rhs)@ == old(
            rhs,
        )@,
        r is Ok ==> ({
            let x = wdiv(old(rhs)@[col_ind as int], val_at(col@, col_ind as int));
            &&& final(rhs)@[col_ind as int] == x
            &&& forall|i: int|
                0 <= i < old(rhs)@.len() && i != col_ind ==> final(rhs)@[i] == (if i > col_ind {
                    wrap(old(rhs)@[i] - val_at(col@, i) * x)
                } else {
                    old(rhs)@[i]
                })
        }),
{
    let ghost b0 = old(rhs)@;
    let mut diag: i64 = 0;
    let mut kk: usize = 0;
    while kk < col.len()
        invariant
            0 <= kk <= col@.len(),
            diag as int == val_at(col@.take(kk as int), col_ind as int),
        decreases col@.len() - kk,
    {
        let e = col[kk];
        proof {
            lemma_take_push(col@, kk as int);
            lemma_val_at_push(col@.take(kk as int), e, col_ind as int);
            if e.ind == col_ind {
                lemma_val_at_prefix_absent(col@, kk as int);
            }
        }
        if e.ind == col_ind {
            diag = e.val;
        }
        kk = kk + 1;
    }
    proof {
        assert(col@.take(col@.len() as int) =~= col@);
    }
    if diag == 0 {
        return Err(SprsError::SingularMatrix);
    }
    let b = rhs[col_ind];
    let xv = divw(b, diag);
    rhs.set(col_ind, xv);
    proof {
        assert forall|i: int| 0 <= i < b0.len() && i != col_ind implies rhs@[i] == wrap(
            b0[i] - val_at(col@.take(0), i) * xv,
        ) by {
            lemma_wrap_cases(b0[i] as int);
        }
    }
    let mut t: usize = 0;
    while t < col.len()
        invariant
            0 <= t <= col@.len(),
            rhs@.len() == b0.len(),
            rhs@[col_ind as int] == xv,
            forall|i: int|
                0 <= i < b0.len() && i != col_ind ==> rhs@[i] == (if i > col_ind {
                    wrap(b0[i] - val_at(col@.take(t as int), i) * xv)
                } else {
                    b0[i]
                }),
        decreases col@.len() - t,
    {
        let e = col[t];
        proof {
            lemma_take_push(col@, t as int);
        }
        if e.ind > col_ind {
            let prev = rhs[e.ind];
            let upd = wsub(prev, wmul(e.val, xv));
            rhs.set(e.ind, upd);
            proof {
                lemma_val_at_prefix_absent(col@, t as int);
                lemma_wrap_cases(b0[e.ind as int] as int);
                lemma_wrap_sub_wrapped(prev as int, e.val as int * xv as int);
                assert forall|i: int| 0 <= i < b0.len() && i != col_ind implies rhs@[i] == (if i
                    > col_ind {
                    wrap(b0[i] - val_at(col@.take(t as int + 1), i) * xv)
                } else {
                    b0[i]
                }) by {
                    lemma_val_at_push(col@.take(t as int), e, i);
                }
            }
        } else {
            proof {
                assert forall|i: int| 0 <= i < b0.len() && i != col_ind implies rhs@[i] == (if i
                    > col_ind {
                    wrap(b0[i] - val_at(col@.take(t as int + 1), i) * xv)
                } else {
                    b0[i]
                }) by {
                    lemma_val_at_push(col@.take(t as int), e, i);
                }
            }
        }
        t = t + 1;
    }
    proof {
        assert(col@.take(col@.len() as int) =~= col@);
    }
    Ok(())
}

/// Solve a lower triangular system with a row-major matrix and a dense
/// right-hand side, in place: forward substitution, rows ascending.
///
/// Entries above the diagonal are ignored, so the matrix need not actually
/// be triangular. On success `rhs` holds the solution exactly as
/// `lsolve_rec` states it; the first missing or zero diagonal aborts with
/// `SingularMatrix` and leaves `rhs` in an unspecified, discard-only state.
#[verifier::loop_isolation(false)]
pub fn lsolve_csr_dense_rhs(m: &CsMat, rhs: &mut Vec<i64>) -> (r: Result<(), SprsError>)
    requires
        m.wf(),
        m.is_square(),
        m.storage == Storage::Csr,
        old(rhs)@.len() == m.nrows,
    ensures
        final(rhs)@.len() == old(rhs)@.len(),
        (r is Err) <==> exists|i: int| 0 <= i < m.nrows && #[trigger] m.ent(i, i) == 0,
        r is Err ==> r == Err::<(), SprsError>(SprsError::SingularMatrix),
        r is Ok ==> final(rhs)@ == lsolve_rec(*m, old(rhs)@, m.nrows as int),
{
    let n = m.rows();
    let ghost b0 = old(rhs)@;
    let mut i: usize = 0;
    while i < n
        invariant
            0 <= i <= n,
            rhs@.len() == n,
            rhs@ == lsolve_rec(*m, b0, i as int),
            forall|t: int| 0 <= t < i ==> #[trigger] m.ent(t, t) != 0,
        decreases n - i,
    {
        proof {
            lemma_lsolve_rec_frame(*m, b0, i as int);
        }
        let ghost cur = rhs@;
        let row = &m.outer[i];
        let mut x: i64 = rhs[i];
        let mut diag: i64 = 0;
        let mut kk: usize = 0;
        while kk < row.len()
            invariant
                0 <= kk <= row@.len(),
                x == wrap(b0[i as int] - esum(row@.take(kk as int), cur, 0, i as int)),
                diag as int == val_at(row@.take(kk as int), i as int),
            decreases row@.len() - kk,
        {
            let e = row[kk];
            proof {
                lemma_take_push(row@, kk as int);
                lemma_val_at_push(row@.take(kk as int), e, i as int);
                lemma_esum_push(row@.take(kk as int), e, cur, 0, i as int);
                if e.ind == i {
                    lemma_val_at_prefix_absent(row@, kk as int);
                }
            }
            if e.ind == i {
                diag = e.val;
            } else if e.ind < i {
                let t = wmul(e.val, rhs[e.ind]);
                proof {
                    lemma_wrap_sub_wrapped(
                        x as int,
                        e.val as int * cur[e.ind as int] as int,
                    );
                    lemma_wrap_sub_exact(
                        x,
                        b0[i as int] - esum(row@.take(kk as int), cur, 0, i as int),
                        e.val as int * cur[e.ind as int] as int,
                    );
                }
                x = wsub(x, t);
            }
            kk = kk + 1;
        }
        proof {
            assert(row@.take(row@.len() as int) =~= row@);
            lemma_esum_vsum(row@, cur, 0, i as int);
            lemma_row_sum_csr(*m, i as int, cur, 0, i as int);
        }
        if diag == 0 {
            proof {
                assert(m.ent(i as int, i as int) == 0);
            }
            return Err(SprsError::SingularMatrix);
        }
        let xi = divw(x, diag);
        rhs.set(i, xi);
        proof {
            assert(rhs@ =~= lsolve_rec(*m, b0, i as int + 1));
        }
        i = i + 1;
    }
    Ok(())
}

/// The in-place state of the forward column-major solve after the first
/// `k` columns have been eliminated: solved values below `k`, partially
/// reduced right-hand side elsewhere.
pub open spec fn fstate(m: CsMat, b: Seq<i64>, k: int) -> Seq<i64> {
    let x = lsolve_rec(m, b, k);
    Seq::new(b.len(), |i: int| if i < k {
        x[i]
    } else {
        wrap(b[i] - row_sum(m, i, x, 0, k))
    })
}

/// Solve a lower triangular system with a column-major matrix and a dense
/// right-hand side, in place: columns ascending, each eliminated by
/// `lspsolve_csc_process_col`.
///
/// Computes exactly the same solution as the row-major forward solve.
#[verifier::loop_isolation(false)]
pub fn lsolve_csc_dense_rhs(m: &CsMat, rhs: &mut Vec<i64>) -> (r: Result<(), SprsError>)
    requires
        m.wf(),
        m.is_square(),
        m.storage == Storage::Csc,
        old(rhs)@.len() == m.nrows,
    ensures
        final(rhs)@.len() == old(rhs)@.len(),
        (r is Err) <==> exists|i: int| 0 <= i < m.nrows && #[trigger] m.ent(i, i) == 0,
        r is Err ==> r == Err::<(), SprsError>(SprsError::SingularMatrix),
        r is Ok ==> final(rhs)@ == lsolve_rec(*m, old(rhs)@, m.nrows as int),
{
    let n = m.rows();
    let ghost b0 = old(rhs)@;
    proof {
        assert forall|i: int| 0 <= i < b0.len() implies fstate(*m, b0, 0)[i] == b0[i] by {
            lemma_wrap_cases(b0[i] as int);
        }
        assert(fstate(*m, b0, 0) =~= b0);
    }
    let mut j: usize = 0;
    while j < n
        invariant
            0 <= j <= n,
            rhs@.len() == n,
            rhs@ == fstate(*m, b0, j as int),
            forall|t: int| 0 <= t < j ==> #[trigger] m.ent(t, t) != 0,
        decreases n - j,
    {
        let ghost prev = rhs@;
        let ghost xp = lsolve_rec(*m, b0, j as int);
        proof {
            lemma_lsolve_rec_frame(*m, b0, j as int);
        }
        let col = &m.outer[j];
        let res = lspsolve_csc_process_col(col, j, rhs);
        proof {
            assert(val_at(col@, j as int) == m.ent(j as int, j as int));
        }
        match res {
            Err(e) => {
                proof {
                    assert(m.ent(j as int, j as int) == 0);
                }
                return Err(e);
            },
            Ok(()) => {},
        }
        proof {
            let jj = j as int;
            let d = m.ent(jj, jj);
            let xnew = lsolve_rec(*m, b0, jj + 1);
            let xj = wdiv(wrap(b0[jj] - row_sum(*m, jj, xp, 0, jj)), d);
            assert(prev[jj] == wrap(b0[jj] - row_sum(*m, jj, xp, 0, jj)));
            assert(wdiv(prev[jj], val_at(col@, jj)) == xj) by {
                lemma_tq_bounds(prev[jj] as int, d);
            }
            assert(xnew == xp.update(jj, xj));
            assert forall|i: int| 0 <= i < b0.len() implies rhs@[i] == fstate(*m, b0, jj + 1)[i]
                by {
                if i < jj {
                } else if i == jj {
                    assert(rhs@[i] == xj);
                } else {
                    assert(rhs@[i] == wrap(prev[i] - val_at(col@, i) * xj));
                    assert(val_at(col@, i) == m.ent(i, jj));
                    assert(prev[i] == wrap(b0[i] - row_sum(*m, i, xp, 0, jj)));
                    lemma_wrap_sub_exact(
                        prev[i],
                        b0[i] - row_sum(*m, i, xp, 0, jj),
                        m.ent(i, jj) * xj as int,
                    );
                    lemma_row_sum_agree(*m, i, xp, xnew, 0, jj);
                    assert(row_sum(*m, i, xnew, 0, jj + 1) == row_sum(*m, i, xnew, 0, jj) + m.ent(
                        i,
                        jj,
                    ) * xnew[jj]);
                }
            }
            assert(rhs@ =~= fstate(*m, b0, jj + 1));
        }
        j = j + 1;
    }
    proof {
        lemma_lsolve_rec_frame(*m, b0, n as int);
        assert(rhs@ =~= lsolve_rec(*m, b0, n as int));
    }
    Ok(())
}

pub proof fn lemma_row_sum_peel_lo(m: CsMat, i: int, x: Seq<i64>, lo: int, hi: int)
    requires
        lo < hi,
    ensures
        row_sum(m, i, x, lo, hi) == m.ent(i, lo) * x[lo] + row_sum(m, i, x, lo + 1, hi),
    decreases hi - lo,
{
    if lo + 1 < hi {
        lemma_row_sum_peel_lo(m, i, x, lo, hi - 1);
    } else {
        assert(row_sum(m, i, x, lo, hi) == row_sum(m, i, x, lo, lo) + m.ent(i, lo) * x[lo]);
        assert(row_sum(m, i, x, lo, lo) == 0);
        assert(row_sum(m, i, x, lo + 1, hi) == 0);
    }
}

/// Solve an upper triangular system with a row-major matrix and a dense
/// right-hand side, in place: backward substitution, rows descending.
///
/// Entries below the diagonal are ignored. On success `rhs` holds the
/// solution exactly as `usolve_rec` states it; a missing or zero diagonal
/// aborts with `SingularMatrix`.
#[verifier::loop_isolation(false)]
pub fn usolve_csr_dense_rhs(m: &CsMat, rhs: &mut Vec<i64>) -> (r: Result<(), SprsError>)
    requires
        m.wf(),
        m.is_square(),
        m.storage == Storage::Csr,
        old(rhs)@.len() == m.nrows,
    ensures
        final(rhs)@.len() == old(rhs)@.len(),
        (r is Err) <==> exists|i: int| 0 <= i < m.nrows && #[trigger] m.ent(i, i) == 0,
        r is Err ==> r == Err::<(), SprsError>(SprsError::SingularMatrix),
        r is Ok ==> final(rhs)@ == usolve_rec(*m, old(rhs)@, 0),
{
    let n = m.rows();
    let ghost b0 = old(rhs)@;
    let mut ii: usize = n;
    while ii > 0
        invariant
            0 <= ii <= n,
            rhs@.len() == n,
            rhs@ == usolve_rec(*m, b0, ii as int),
            forall|t: int| ii <= t < n ==> #[trigger] m.ent(t, t) != 0,
        decreases ii,
    {
        let i = ii - 1;
        proof {
            lemma_usolve_rec_frame(*m, b0, ii as int);
        }
        let ghost cur = rhs@;
        let row = &m.outer[i];
        let mut x: i64 = rhs[i];
        let mut diag: i64 = 0;
        let mut kk: usize = 0;
        while kk < row.len()
            invariant
                0 <= kk <= row@.len(),
                x == wrap(b0[i as int] - esum(row@.take(kk as int), cur, i as int + 1, n as int)),
                diag as int == val_at(row@.take(kk as int), i as int),
            decreases row@.len() - kk,
        {
            let e = row[kk];
            proof {
                lemma_take_push(row@, kk as int);
                lemma_val_at_push(row@.take(kk as int), e, i as int);
                lemma_esum_push(row@.take(kk as int), e, cur, i as int + 1, n as int);
                if e.ind == i {
                    lemma_val_at_prefix_absent(row@, kk as int);
                }
            }
            if e.ind == i {
                diag = e.val;
            } else if e.ind > i {
                let t = wmul(e.val, rhs[e.ind]);
                proof {
                    lemma_wrap_sub_wrapped(
                        x as int,
                        e.val as int * cur[e.ind as int] as int,
                    );
                    lemma_wrap_sub_exact(
                        x,
                        b0[i as int] - esum(row@.take(kk as int), cur, i as int + 1, n as int),
                        e.val as int * cur[e.ind as int] as int,
                    );
                }
                x = wsub(x, t);
            }
            kk = kk + 1;
        }
        proof {
            assert(row@.take(row@.len() as int) =~= row@);
            lemma_esum_vsum(row@, cur, i as int + 1, n as int);
            lemma_row_sum_csr(*m, i as int, cur, i as int + 1, n as int);
        }
        if diag == 0 {
            proof {
                assert(m.ent(i as int, i as int) == 0);
            }
            return Err(SprsError::SingularMatrix);
        }
        let xi = divw(x, diag);
        rhs.set(i, xi);
        proof {
            assert(rhs@ =~= usolve_rec(*m, b0, i as int));
        }
        ii = i;
    }
    Ok(())
}

/// The in-place state of the backward column-major solve once every column
/// at or above `k` has been eliminated.
pub open spec fn bstate(m: CsMat, b: Seq<i64>, k: int) -> Seq<i64> {
    let x = usolve_rec(m, b, k);
    Seq::new(b.len(), |i: int| if i >= k {
        x[i]
    } else {
        wrap(b[i] - row_sum(m, i, x, k, b.len() as int))
    })
}

/// Solve an upper triangular system with a column-major matrix and a dense
/// right-hand side, in place: columns descending, each column's scaled
/// values subtracted from the positions above its pivot.
///
/// Computes exactly the same solution as the row-major backward solve.
#[verifier::loop_isolation(false)]
pub fn usolve_csc_dense_rhs(m: &CsMat, rhs: &mut Vec<i64>) -> (r: Result<(), SprsError>)
    requires
        m.wf(),
        m.is_square(),
        m.storage == Storage::Csc,
        old(rhs)@.len() == m.nrows,
    ensures
        final(rhs)@.len() == old(rhs)@.len(),
        (r is Err) <==> exists|i: int| 0 <= i < m.nrows && #[trigger] m.ent(i, i) == 0,
        r is Err ==> r == Err::<(), SprsError>(SprsError::SingularMatrix),
        r is Ok ==> final(rhs)@ == usolve_rec(*m, old(rhs)@, 0),
{
    let n = m.rows();
    let ghost b0 = old(rhs)@;
    proof {
        assert forall|i: int| 0 <= i < b0.len() implies bstate(*m, b0, n as int)[i] == b0[i] by {
            lemma_wrap_cases(b0[i] as int);
        }
        assert(bstate(*m, b0, n as int) =~= b0);
    }
    let mut jj: usize = n;
    while jj > 0
        invariant
            0 <= jj <= n,
            rhs@.len() == n,
            rhs@ == bstate(*m, b0, jj as int),
            forall|t: int| jj <= t < n ==> #[trigger] m.ent(t, t) != 0,
        decreases jj,
    {
        let j = jj - 1;
        let ghost prev = rhs@;
        let ghost xp = usolve_rec(*m, b0, jj as int);
        proof {
            lemma_usolve_rec_frame(*m, b0, jj as int);
        }
        let col = &m.outer[j];
        let mut diag: i64 = 0;
        let mut kk: usize = 0;
        while kk < col.len()
            invariant
                0 <= kk <= col@.len(),
                diag as int == val_at(col@.take(kk as int), j as int),
            decreases col@.len() - kk,
        {
            let e = col[kk];
            proof {
                lemma_take_push(col@, kk as int);
                lemma_val_at_push(col@.take(kk as int), e, j as int);
                if e.ind == j {
                    lemma_val_at_prefix_absent(col@, kk as int);
                }
            }
            if e.ind == j {
                diag = e.val;
            }
            kk = kk + 1;
        }
        proof {
            assert(col@.take(col@.len() as int) =~= col@);
            assert(val_at(col@, j as int) == m.ent(j as int, j as int));
        }
        if diag == 0 {
            return Err(SprsError::SingularMatrix);
        }
        let b = rhs[j];
        let xv = divw(b, diag);
        rhs.set(j, xv);
        let ghost xj = wdiv(prev[j as int], m.ent(j as int, j as int));
        proof {
            assert forall|i: int| 0 <= i < b0.len() && i != j implies rhs@[i] == (if i < j {
                wrap(prev[i] - val_at(col@.take(0), i) * xj)
            } else {
                prev[i]
            }) by {
                lemma_wrap_cases(prev[i] as int);
            }
        }
        let mut t: usize = 0;
        while t < col.len()
            invariant
                0 <= t <= col@.len(),
                rhs@.len() == n,
                rhs@[j as int] == xj,
                forall|i: int|
                    0 <= i < b0.len() && i != j ==> rhs@[i] == (if i < j {
                        wrap(prev[i] - val_at(col@.take(t as int), i) * xj)
                    } else {
                        prev[i]
                    }),
            decreases col@.len() - t,
        {
            let e = col[t];
            proof {
                lemma_take_push(col@, t as int);
            }
            if e.ind < j {
                let pv = rhs[e.ind];
                let upd = wsub(pv, wmul(e.val, xv));
                rhs.set(e.ind, upd);
                proof {
                    lemma_val_at_prefix_absent(col@, t as int);
                    lemma_wrap_cases(prev[e.ind as int] as int);
                    lemma_wrap_sub_wrapped(pv as int, e.val as int * xj as int);
                    assert forall|i: int| 0 <= i < b0.len() && i != j implies rhs@[i] == (if i
                        < j {
                        wrap(prev[i] - val_at(col@.take(t as int + 1), i) * xj)
                    } else {
                        prev[i]
                    }) by {
                        lemma_val_at_push(col@.take(t as int), e, i);
                    }
                }
            } else {
                proof {
                    assert forall|i: int| 0 <= i < b0.len() && i != j implies rhs@[i] == (if i
                        < j {
                        wrap(prev[i] - val_at(col@.take(t as int + 1), i) * xj)
                    } else {
                        prev[i]
                    }) by {
                        lemma_val_at_push(col@.take(t as int), e, i);
                    }
                }
            }
            t = t + 1;
        }
        proof {
            assert(col@.take(col@.len() as int) =~= col@);
            let ji = j as int;
            let d = m.ent(ji, ji);
            let xnew = usolve_rec(*m, b0, ji);
            assert(prev[ji] == wrap(b0[ji] - row_sum(*m, ji, xp, jj as int, n as int)));
            assert(xnew == xp.update(ji, wdiv(wrap(b0[ji] - row_sum(*m, ji, xp, ji + 1, n as int)), d)));
            assert(xj == xnew[ji]);
            assert forall|i: int| 0 <= i < b0.len() implies rhs@[i] == bstate(*m, b0, ji)[i] by {
                if i > ji {
                } else if i == ji {
                } else {
                    assert(rhs@[i] == wrap(prev[i] - val_at(col@, i) * xj));
                    assert(val_at(col@, i) == m.ent(i, ji));
                    assert(prev[i] == wrap(b0[i] - row_sum(*m, i, xp, jj as int, n as int)));
                    lemma_wrap_sub_exact(
                        prev[i],
                        b0[i] - row_sum(*m, i, xp, jj as int, n as int),
                        m.ent(i, ji) * xj as int,
                    );
                    lemma_row_sum_agree(*m, i, xp, xnew, jj as int, n as int);
                    lemma_row_sum_peel_lo(*m, i, xnew, ji, n as int);
                }
            }
            assert(rhs@ =~= bstate(*m, b0, ji));
        }
        jj = j;
    }
    proof {
        lemma_usolve_rec_frame(*m, b0, 0);
        assert(rhs@ =~= usolve_rec(*m, b0, 0));
    }
    Ok(())
}

} // verus!
