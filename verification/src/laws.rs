use vstd::prelude::*;
use crate::arith::{lemma_wrap_cases, tq, wdiv, wrap};
use crate::dense::{lemma_lsolve_rec_frame, lemma_row_sum_agree, lemma_row_sum_peel_lo, lemma_usolve_rec_frame, lsolve_rec, row_sum, usolve_rec};
use crate::mat::{CsMat, Entry};
use crate::spsolve::{reachable, ssum, sval};

verus! {

pub proof fn lemma_row_sum_ent_agree(m1: CsMat, m2: CsMat, i: int, x: Seq<i64>, lo: int, hi: int)
    requires
        forall|r: int, c: int|
            0 <= r < m1.nrows && 0 <= c < m1.ncols ==> m1.ent(r, c) == #[trigger] m2.ent(r, c),
        0 <= i < m1.nrows,
        0 <= lo,
        hi <= m1.ncols,
    ensures
        row_sum(m1, i, x, lo, hi) == row_sum(m2, i, x, lo, hi),
    decreases hi - lo,
{
    if hi > lo {
        lemma_row_sum_ent_agree(m1, m2, i, x, lo, hi - 1);
        assert(m1.ent(i, hi - 1) == m2.ent(i, hi - 1));
    }
}

/// Forward substitution on the lower triangle depends only on the logical
/// entries of the matrix: row-major and column-major representations of
/// the same lower-triangular system compute identical solutions, and fail
/// on exactly the same (zero or missing) pivots.
pub proof fn lemma_lsolve_storage_agrees(m1: CsMat, m2: CsMat, b: Seq<i64>, k: int)
    requires
        m1.nrows == m2.nrows,
        m1.ncols == m2.ncols,
        m1.is_square(),
        forall|r: int, c: int|
            0 <= r < m1.nrows && 0 <= c < m1.ncols ==> m1.ent(r, c) == #[trigger] m2.ent(r, c),
        0 <= k <= m1.nrows,
        b.len() == m1.nrows,
    ensures
        lsolve_rec(m1, b, k) == lsolve_rec(m2, b, k),
        (exists|i: int| 0 <= i < m1.nrows && #[trigger] m1.ent(i, i) == 0) <==> (exists|i: int|
            0 <= i < m2.nrows && #[trigger] m2.ent(i, i) == 0),
    decreases k,
{
    if k > 0 {
        lemma_lsolve_storage_agrees(m1, m2, b, k - 1);
        lemma_row_sum_ent_agree(m1, m2, k - 1, lsolve_rec(m1, b, k - 1), 0, k - 1);
        assert(m1.ent(k - 1, k - 1) == m2.ent(k - 1, k - 1));
    }
    if exists|i: int| 0 <= i < m1.nrows && #[trigger] m1.ent(i, i) == 0 {
        let i = choose|i: int| 0 <= i < m1.nrows && #[trigger] m1.ent(i, i) == 0;
        assert(m2.ent(i, i) == 0);
    }
    if exists|i: int| 0 <= i < m2.nrows && #[trigger] m2.ent(i, i) == 0 {
        let i = choose|i: int| 0 <= i < m2.nrows && #[trigger] m2.ent(i, i) == 0;
        assert(m1.ent(i, i) == 0);
    }
}

/// Backward substitution on the upper triangle likewise depends only on
/// the logical entries: the two `usolve` storage orientations compute
/// identical solutions and fail on exactly the same pivots.
pub proof fn lemma_usolve_storage_agrees(m1: CsMat, m2: CsMat, b: Seq<i64>, k: int)
    requires
        m1.nrows == m2.nrows,
        m1.ncols == m2.ncols,
        m1.is_square(),
        forall|r: int, c: int|
            0 <= r < m1.nrows && 0 <= c < m1.ncols ==> m1.ent(r, c) == #[trigger] m2.ent(r, c),
        0 <= k,
        b.len() == m1.nrows,
    ensures
        usolve_rec(m1, b, k) == usolve_rec(m2, b, k),
        (exists|i: int| 0 <= i < m1.nrows && #[trigger] m1.ent(i, i) == 0) <==> (exists|i: int|
            0 <= i < m2.nrows && #[trigger] m2.ent(i, i) == 0),
    decreases b.len() - k,
{
    if 0 <= k < b.len() {
        lemma_usolve_storage_agrees(m1, m2, b, k + 1);
        lemma_row_sum_ent_agree(m1, m2, k, usolve_rec(m1, b, k + 1), k + 1, b.len() as int);
        assert(m1.ent(k, k) == m2.ent(k, k));
    }
    if exists|i: int| 0 <= i < m1.nrows && #[trigger] m1.ent(i, i) == 0 {
        let i = choose|i: int| 0 <= i < m1.nrows && #[trigger] m1.ent(i, i) == 0;
        assert(m2.ent(i, i) == 0);
    }
    if exists|i: int| 0 <= i < m2.nrows && #[trigger] m2.ent(i, i) == 0 {
        let i = choose|i: int| 0 <= i < m2.nrows && #[trigger] m2.ent(i, i) == 0;
        assert(m1.ent(i, i) == 0);
    }
}

/// The sparse solve is deterministic: its support is a function of the
/// matrix and the right-hand side alone, and each solved value depends
/// only on the scattered workspace at reachable indices — so two runs on
/// identical inputs, each with correctly reset scratch buffers, recover
/// exactly the same (index, value) pairs.
pub proof fn lemma_sval_depends_on_reachable(
    m: CsMat,
    roots: Seq<Entry>,
    b1: Seq<i64>,
    b2: Seq<i64>,
    i: nat,
)
    requires
        b1.len() == b2.len(),
        forall|j: int| 0 <= j < b1.len() && #[trigger] reachable(m, roots, j) ==> b1[j] == b2[j],
        reachable(m, roots, i as int),
        i < b1.len(),
    ensures
        sval(m, roots, b1, i) == sval(m, roots, b2, i),
    decreases i, 1nat, 0nat,
{
    lemma_ssum_depends_on_reachable(m, roots, b1, b2, i, i);
}

pub proof fn lemma_ssum_depends_on_reachable(
    m: CsMat,
    roots: Seq<Entry>,
    b1: Seq<i64>,
    b2: Seq<i64>,
    i: nat,
    hi: nat,
)
    requires
        b1.len() == b2.len(),
        forall|j: int| 0 <= j < b1.len() && #[trigger] reachable(m, roots, j) ==> b1[j] == b2[j],
        i < b1.len(),
    ensures
        ssum(m, roots, b1, i, hi) == ssum(m, roots, b2, i, hi),
    decreases i, 0nat, hi,
{
    if hi > 0 {
        lemma_ssum_depends_on_reachable(m, roots, b1, b2, i, (hi - 1) as nat);
        if hi - 1 < i && reachable(m, roots, hi - 1) && crate::spsolve::edge(m, hi - 1, i as int) {
            lemma_sval_depends_on_reachable(m, roots, b1, b2, (hi - 1) as nat);
        }
    }
}

pub proof fn lemma_row_sum_split(m: CsMat, i: int, x: Seq<i64>, lo: int, mid: int, hi: int)
    requires
        lo <= mid <= hi,
    ensures
        row_sum(m, i, x, lo, hi) == row_sum(m, i, x, lo, mid) + row_sum(m, i, x, mid, hi),
    decreases hi - mid,
{
    if mid < hi {
        lemma_row_sum_split(m, i, x, lo, mid, hi - 1);
        lemma_row_sum_peel_lo(m, i, x, mid, hi);
        if mid + 1 <= hi - 1 {
            lemma_row_sum_peel_lo(m, i, x, mid, hi - 1);
        }
    }
}

pub proof fn lemma_row_sum_zero_range(m: CsMat, i: int, x: Seq<i64>, lo: int, hi: int)
    requires
        forall|c: int| lo <= c < hi ==> #[trigger] m.ent(i, c) == 0,
    ensures
        row_sum(m, i, x, lo, hi) == 0,
    decreases hi - lo,
{
    if lo < hi {
        lemma_row_sum_zero_range(m, i, x, lo, hi - 1);
    }
}

/// A solved prefix never changes again: later forward-substitution steps
/// only touch later positions.
pub proof fn lemma_lsolve_rec_prefix(m: CsMat, b: Seq<i64>, k1: int, k2: int)
    requires
        0 <= k1 <= k2 <= b.len(),
    ensures
        forall|j: int| 0 <= j < k1 ==> lsolve_rec(m, b, k2)[j] == lsolve_rec(m, b, k1)[j],
    decreases k2 - k1,
{
    if k1 < k2 {
        lemma_lsolve_rec_prefix(m, b, k1, k2 - 1);
        lemma_lsolve_rec_frame(m, b, k2 - 1);
    }
}

/// Substituting the forward-substitution solution back reproduces the
/// right-hand side: for a genuinely lower-triangular square matrix with
/// nonzero diagonal, row `i` of the matrix applied to the solution equals
/// `b[i]` exactly, whenever the arithmetic stays exact — no numerator
/// leaves the `i64` range, every quotient fits, and every division is
/// exact.
pub proof fn lemma_lsolve_round_trip(m: CsMat, b: Seq<i64>, i: int)
    requires
        m.wf(),
        m.is_square(),
        b.len() == m.nrows,
        0 <= i < m.nrows,
        forall|r: int, c: int|
            0 <= r < m.nrows && r < c < m.ncols ==> #[trigger] m.ent(r, c) == 0,
        forall|t: int| 0 <= t < m.nrows ==> #[trigger] m.ent(t, t) != 0,
        forall|t: int|
            0 <= t < m.nrows ==> i64::MIN <= b[t] - row_sum(
                m,
                t,
                #[trigger] lsolve_rec(m, b, t),
                0,
                t,
            ) <= i64::MAX,
        forall|t: int|
            0 <= t < m.nrows ==> i64::MIN <= tq(
                b[t] - row_sum(m, t, #[trigger] lsolve_rec(m, b, t), 0, t),
                m.ent(t, t),
            ) <= i64::MAX,
        forall|t: int|
            0 <= t < m.nrows ==> tq(
                b[t] - row_sum(m, t, #[trigger] lsolve_rec(m, b, t), 0, t),
                m.ent(t, t),
            ) * m.ent(t, t) == b[t] - row_sum(m, t, lsolve_rec(m, b, t), 0, t),
    ensures
        row_sum(m, i, lsolve_rec(m, b, m.nrows as int), 0, m.ncols as int) == b[i],
{
    let n = m.nrows as int;
    let x = lsolve_rec(m, b, n);
    let xp = lsolve_rec(m, b, i);
    let d = m.ent(i, i);
    let num = b[i] - row_sum(m, i, xp, 0, i);
    let q = tq(num, d);
    lemma_lsolve_rec_frame(m, b, n);
    lemma_lsolve_rec_frame(m, b, i);
    lemma_lsolve_rec_prefix(m, b, i, n);
    lemma_row_sum_agree(m, i, x, xp, 0, i);
    lemma_lsolve_rec_prefix(m, b, i + 1, n);
    assert(lsolve_rec(m, b, i + 1)[i] == wdiv(wrap(b[i] - row_sum(m, i, xp, 0, i)), d));
    assert(x[i] == wdiv(wrap(num), d));
    lemma_wrap_cases(num);
    assert(wrap(num) as int == num);
    lemma_wrap_cases(q);
    assert(x[i] == q);
    lemma_row_sum_split(m, i, x, 0, i, n);
    lemma_row_sum_peel_lo(m, i, x, i, n);
    lemma_row_sum_zero_range(m, i, x, i + 1, n);
    assert(row_sum(m, i, x, 0, n) == row_sum(m, i, x, 0, i) + d * x[i]);
    assert(d * q == q * d) by (nonlinear_arith);
}

/// A solved suffix never changes again: earlier backward-substitution
/// steps only touch earlier positions.
pub proof fn lemma_usolve_rec_suffix(m: CsMat, b: Seq<i64>, k1: int, k2: int)
    requires
        0 <= k1 <= k2 <= b.len(),
    ensures
        forall|j: int| k2 <= j < b.len() ==> usolve_rec(m, b, k1)[j] == usolve_rec(m, b, k2)[j],
    decreases k2 - k1,
{
    if k1 < k2 {
        lemma_usolve_rec_suffix(m, b, k1 + 1, k2);
        lemma_usolve_rec_frame(m, b, k1 + 1);
    }
}

/// Substituting the backward-substitution solution back reproduces the
/// right-hand side: for a genuinely upper-triangular square matrix with
/// nonzero diagonal, row `i` of the matrix applied to the solution equals
/// `b[i]` exactly, whenever the arithmetic stays exact.
pub proof fn lemma_usolve_round_trip(m: CsMat, b: Seq<i64>, i: int)
    requires
        m.wf(),
        m.is_square(),
        b.len() == m.nrows,
        0 <= i < m.nrows,
        forall|r: int, c: int|
            0 <= r < m.nrows && 0 <= c < r ==> #[trigger] m.ent(r, c) == 0,
        forall|t: int| 0 <= t < m.nrows ==> #[trigger] m.ent(t, t) != 0,
        forall|t: int|
            0 <= t < m.nrows ==> i64::MIN <= b[t] - row_sum(
                m,
                t,
                #[trigger] usolve_rec(m, b, t + 1),
                t + 1,
                b.len() as int,
            ) <= i64::MAX,
        forall|t: int|
            0 <= t < m.nrows ==> i64::MIN <= tq(
                b[t] - row_sum(m, t, #[trigger] usolve_rec(m, b, t + 1), t + 1, b.len() as int),
                m.ent(t, t),
            ) <= i64::MAX,
        forall|t: int|
            0 <= t < m.nrows ==> tq(
                b[t] - row_sum(m, t, #[trigger] usolve_rec(m, b, t + 1), t + 1, b.len() as int),
                m.ent(t, t),
            ) * m.ent(t, t) == b[t] - row_sum(m, t, usolve_rec(m, b, t + 1), t + 1, b.len() as int),
    ensures
        row_sum(m, i, usolve_rec(m, b, 0), 0, m.ncols as int) == b[i],
{
    let n = m.nrows as int;
    let x = usolve_rec(m, b, 0);
    let xp = usolve_rec(m, b, i + 1);
    let d = m.ent(i, i);
    let num = b[i] - row_sum(m, i, xp, i + 1, n);
    let q = tq(num, d);
    lemma_usolve_rec_frame(m, b, 0);
    lemma_usolve_rec_frame(m, b, i + 1);
    lemma_usolve_rec_suffix(m, b, 0, i);
    lemma_usolve_rec_suffix(m, b, 0, i + 1);
    lemma_row_sum_agree(m, i, x, xp, i + 1, n);
    assert(usolve_rec(m, b, i)[i] == wdiv(wrap(num), d));
    assert(x[i] == wdiv(wrap(num), d));
    lemma_wrap_cases(num);
    lemma_wrap_cases(q);
    assert(x[i] == q);
    lemma_row_sum_split(m, i, x, 0, i, n);
    lemma_row_sum_peel_lo(m, i, x, i, n);
    lemma_row_sum_zero_range(m, i, x, 0, i);
    assert(row_sum(m, i, x, 0, n) == d * x[i] + row_sum(m, i, x, i + 1, n));
    assert(d * q == q * d) by (nonlinear_arith);
}

} // verus!
