use vstd::prelude::*;
use crate::arith::{lemma_wrap_cases, wdiv, wrap};
use crate::dense::lspsolve_csc_process_col;
use crate::dstack::{extract_stack_val, is_enter, stack_ind, DStack, StackVal};
use crate::errors::SprsError;
use crate::mat::{
    has_ind, lemma_val_at_absent, val_at, CsMat, CsVec, Entry, Storage,
};

verus! {

/// Column `j` stores an entry at row `i`: an edge of the sub-diagonal
/// dependency graph (row `i`'s elimination needs column `j`'s pivot first).
pub open spec fn edge(m: CsMat, j: int, i: int) -> bool {
    0 <= j < m.outer@.len() && has_ind(m.outer@[j]@, i)
}

/// A path of at most `k` edges leads from `src` to `dst`.
pub open spec fn reaches(m: CsMat, src: int, dst: int, k: nat) -> bool
    decreases k,
{
    if src == dst {
        true
    } else if k == 0 {
        false
    } else {
        exists|mid: int| edge(m, src, mid) && reaches(m, mid, dst, (k - 1) as nat)
    }
}

/// `dst` is reachable from the index of some root entry.
pub open spec fn reachable(m: CsMat, roots: Seq<Entry>, dst: int) -> bool {
    exists|p: int, k: nat|
        #![trigger reaches(m, roots[p].ind as int, dst, k)]
        0 <= p < roots.len() && reaches(m, roots[p].ind as int, dst, k)
}

/// Every stored entry of every column sits on or below the diagonal.
pub open spec fn lower_triangular(m: CsMat) -> bool {
    forall|j: int, t: int|
        0 <= j < m.outer@.len() && 0 <= t < m.outer@[j]@.len() ==> (#[trigger] m.outer@[j]@[t]).ind
            >= j
}

pub proof fn lemma_reaches_extend(m: CsMat, src: int, j: int, c: int, k: nat)
    requires
        reaches(m, src, j, k),
        edge(m, j, c),
    ensures
        reaches(m, src, c, (k + 1) as nat),
    decreases k,
{
    if src == j {
        assert(reaches(m, c, c, k));
        assert(edge(m, src, c) && reaches(m, c, c, ((k + 1) - 1) as nat));
    } else {
        let mid = choose|mid: int| edge(m, src, mid) && reaches(m, mid, j, (k - 1) as nat);
        lemma_reaches_extend(m, mid, j, c, (k - 1) as nat);
        assert(edge(m, src, mid) && reaches(m, mid, c, ((k + 1) - 1) as nat));
    }
}

pub proof fn lemma_reachable_extend(m: CsMat, roots: Seq<Entry>, j: int, c: int)
    requires
        reachable(m, roots, j),
        edge(m, j, c),
    ensures
        reachable(m, roots, c),
{
    let (p, k): (int, nat) = choose|p: int, k: nat|
        #![trigger reaches(m, roots[p].ind as int, j, k)]
        0 <= p < roots.len() && reaches(m, roots[p].ind as int, j, k);
    lemma_reaches_extend(m, roots[p].ind as int, j, c, k);
}

/// A visited set closed under edges contains everything reachable from it.
pub proof fn lemma_reach_closed(m: CsMat, vis: Seq<bool>, src: int, dst: int, k: nat)
    requires
        forall|j: int, i: int|
            0 <= j < vis.len() && #[trigger] vis[j] && #[trigger] edge(m, j, i) && 0 <= i
                < vis.len() ==> vis[i],
        0 <= src < vis.len(),
        vis[src],
        reaches(m, src, dst, k),
        0 <= dst < vis.len(),
        forall|j: int, i: int| #[trigger] edge(m, j, i) ==> 0 <= i < vis.len(),
    ensures
        vis[dst],
    decreases k,
{
    if src != dst {
        let mid = choose|mid: int| edge(m, src, mid) && reaches(m, mid, dst, (k - 1) as nat);
        lemma_reach_closed(m, vis, mid, dst, (k - 1) as nat);
    }
}

/// One column's share of the dependency stack: its finalize marker plus
/// one discover marker per stored entry.
pub open spec fn col_weight(m: CsMat, i: int) -> int {
    1 + m.outer@[i]@.len() as int
}

pub open spec fn vis_weight(m: CsMat, vis: Seq<bool>, k: int) -> int
    decreases k,
{
    if k <= 0 {
        0
    } else {
        vis_weight(m, vis, k - 1) + (if vis[k - 1] {
            col_weight(m, k - 1)
        } else {
            0
        })
    }
}

/// The stack room a traversal from `roots` can demand: the weights of the
/// reachable columns.
pub open spec fn reach_weight(m: CsMat, roots: Seq<Entry>, k: int) -> int
    decreases k,
{
    if k <= 0 {
        0
    } else {
        reach_weight(m, roots, k - 1) + (if reachable(m, roots, k - 1) {
            col_weight(m, k - 1)
        } else {
            0
        })
    }
}

pub open spec fn total_weight(m: CsMat, k: int) -> int
    decreases k,
{
    if k <= 0 {
        0
    } else {
        total_weight(m, k - 1) + col_weight(m, k - 1)
    }
}

pub open spec fn count_trues(s: Seq<bool>, k: int) -> int
    decreases k,
{
    if k <= 0 {
        0
    } else {
        count_trues(s, k - 1) + (if s[k - 1] {
            1int
        } else {
            0
        })
    }
}

pub proof fn lemma_vis_weight_update(m: CsMat, s: Seq<bool>, k: int, idx: int)
    requires
        0 <= idx < s.len(),
        k <= s.len(),
        !s[idx],
    ensures
        vis_weight(m, s.update(idx, true), k) == vis_weight(m, s, k) + (if idx < k {
            col_weight(m, idx)
        } else {
            0
        }),
    decreases k,
{
    if k > 0 {
        lemma_vis_weight_update(m, s, k - 1, idx);
    }
}

pub proof fn lemma_count_trues_update(s: Seq<bool>, k: int, idx: int)
    requires
        0 <= idx < s.len(),
        k <= s.len(),
        !s[idx],
    ensures
        count_trues(s.update(idx, true), k) == count_trues(s, k) + (if idx < k {
            1int
        } else {
            0
        }),
    decreases k,
{
    if k > 0 {
        lemma_count_trues_update(s, k - 1, idx);
    }
}

pub proof fn lemma_count_trues_bound(s: Seq<bool>, k: int, idx: int)
    requires
        0 <= idx < k,
        !s[idx],
    ensures
        count_trues(s, k) <= k - 1,
        count_trues(s, k) >= 0,
    decreases k,
{
    if idx < k - 1 {
        lemma_count_trues_bound(s, k - 1, idx);
    } else {
        lemma_count_trues_nonneg(s, k - 1);
    }
    lemma_count_trues_nonneg(s, k);
}

pub proof fn lemma_count_trues_false(s: Seq<bool>, k: int)
    requires
        forall|i: int| 0 <= i < k ==> !s[i],
    ensures
        count_trues(s, k) == 0,
    decreases k,
{
    if k > 0 {
        lemma_count_trues_false(s, k - 1);
    }
}

pub proof fn lemma_count_trues_nonneg(s: Seq<bool>, k: int)
    ensures
        count_trues(s, k) >= 0,
        count_trues(s, k) <= (if k >= 0 { k } else { 0 }),
    decreases k,
{
    if k > 0 {
        lemma_count_trues_nonneg(s, k - 1);
    }
}

pub proof fn lemma_count_le_vis_weight(m: CsMat, s: Seq<bool>, k: int)
    ensures
        count_trues(s, k) <= vis_weight(m, s, k),
    decreases k,
{
    if k > 0 {
        lemma_count_le_vis_weight(m, s, k - 1);
    }
}

pub proof fn lemma_vis_le_reach_weight(m: CsMat, roots: Seq<Entry>, s: Seq<bool>, k: int)
    requires
        forall|i: int| 0 <= i < k && #[trigger] s[i] ==> reachable(m, roots, i),
    ensures
        vis_weight(m, s, k) <= reach_weight(m, roots, k),
    decreases k,
{
    if k > 0 {
        lemma_vis_le_reach_weight(m, roots, s, k - 1);
    }
}

pub proof fn lemma_vis_le_total_weight(m: CsMat, s: Seq<bool>, k: int)
    ensures
        vis_weight(m, s, k) <= total_weight(m, k),
        vis_weight(m, s, k) >= 0,
    decreases k,
{
    if k > 0 {
        lemma_vis_le_total_weight(m, s, k - 1);
    }
}

pub open spec fn in_left_exit(s: Seq<StackVal>, i: int) -> bool {
    exists|q: int| 0 <= q < s.len() && (#[trigger] s[q]) == StackVal::Exit(i as usize)
}

pub open spec fn in_left_enter(s: Seq<StackVal>, i: int) -> bool {
    exists|q: int| 0 <= q < s.len() && (#[trigger] s[q]) == StackVal::Enter(i as usize)
}

pub open spec fn in_right(s: Seq<StackVal>, i: int) -> bool {
    exists|q: int| 0 <= q < s.len() && stack_ind(#[trigger] s[q]) == i
}

pub open spec fn enter_above(s: Seq<StackVal>, p: int, i: int) -> bool {
    exists|q: int| p < q < s.len() && (#[trigger] s[q]) == StackVal::Enter(i as usize)
}

pub open spec fn in_right_before(s: Seq<StackVal>, q: int, i: int) -> bool {
    exists|p: int| 0 <= p < q && stack_ind(#[trigger] s[p]) == i
}

pub open spec fn is_exit(v: StackVal) -> bool {
    v matches StackVal::Exit(_)
}

pub open spec fn exit_count(s: Seq<StackVal>) -> int
    decreases s.len(),
{
    if s.len() == 0 {
        0
    } else {
        exit_count(s.drop_last()) + (if is_exit(s.last()) {
            1int
        } else {
            0
        })
    }
}

pub proof fn lemma_exit_count_push(s: Seq<StackVal>, v: StackVal)
    ensures
        exit_count(s.push(v)) == exit_count(s) + (if is_exit(v) {
            1int
        } else {
            0
        }),
{
    assert(s.push(v).drop_last() =~= s);
    assert(s.push(v).last() == v);
}


/// The working state of the support discovery: what must hold of the two
/// stack sides and the visited array between any two traversal steps.
pub open spec fn dfs_inv(
    m: CsMat,
    roots: Seq<Entry>,
    left: Seq<StackVal>,
    right: Seq<StackVal>,
    vis: Seq<bool>,
) -> bool {
    let n = m.nrows as int;
    &&& vis.len() == n
    &&& forall|q: int| 0 <= q < left.len() ==> 0 <= stack_ind(#[trigger] left[q]) < n
    &&& forall|q: int|
        0 <= q < right.len() ==> is_enter(#[trigger] right[q]) && 0 <= stack_ind(right[q]) < n
    &&& left.len() + right.len() <= 1 + vis_weight(m, vis, n)
    &&& exit_count(left) + right.len() == count_trues(vis, n)
    &&& forall|i: int| 0 <= i < n && #[trigger] vis[i] ==> reachable(m, roots, i)
    &&& forall|q: int|
        0 <= q < left.len() && is_enter(#[trigger] left[q]) ==> reachable(
            m,
            roots,
            stack_ind(left[q]),
        )
    &&& forall|i: int|
        0 <= i < n ==> (#[trigger] vis[i] <==> (in_left_exit(left, i) || in_right(right, i)))
    &&& forall|p: int, q: int|
        #![trigger left[p], left[q]]
        0 <= p < q < left.len() && is_exit(left[p]) && is_exit(left[q]) ==> stack_ind(left[p])
            != stack_ind(left[q])
    &&& forall|p: int|
        0 <= p < left.len() && is_exit(#[trigger] left[p]) ==> !in_right(
            right,
            stack_ind(left[p]),
        )
    &&& forall|p: int, q: int|
        0 <= p < q < right.len() ==> stack_ind(#[trigger] right[p]) != stack_ind(
            #[trigger] right[q],
        )
    &&& forall|j: int, t: int|
        #![trigger vis[j], m.outer@[j]@[t]]
        0 <= j < n && vis[j] && 0 <= t < m.outer@[j]@.len() ==> (vis[m.outer@[j]@[t].ind as int]
            || in_left_enter(left, m.outer@[j]@[t].ind as int))
    &&& forall|p: int, t: int|
        #![trigger m.outer@[stack_ind(left[p])]@[t]]
        0 <= p < left.len() && is_exit(left[p]) && 0 <= t < m.outer@[stack_ind(left[p])]@.len()
            ==> (vis[m.outer@[stack_ind(left[p])]@[t].ind as int] || enter_above(
            left,
            p,
            m.outer@[stack_ind(left[p])]@[t].ind as int,
        ))
    &&& forall|p: int|
        0 <= p < left.len() && is_exit(#[trigger] left[p]) ==> vis[stack_ind(left[p])]
    &&& forall|p: int, q: int|
        #![trigger left[p], left[q]]
        0 <= p < q < left.len() && is_exit(left[p]) ==> stack_ind(left[q]) >= stack_ind(left[p])
            && (is_exit(left[q]) ==> stack_ind(left[q]) > stack_ind(left[p]))
    &&& forall|q: int, t: int|
        #![trigger m.outer@[stack_ind(right[q])]@[t]]
        0 <= q < right.len() && 0 <= t < m.outer@[stack_ind(right[q])]@.len() ==> (m.outer@[stack_ind(
            right[q],
        )]@[t].ind as int == stack_ind(right[q]) || in_right_before(
            right,
            q,
            m.outer@[stack_ind(right[q])]@[t].ind as int,
        ))
}

/// Popping a discover marker for an already-visited index changes nothing
/// else, and every traversal fact survives the pop.
pub proof fn lemma_pop_stale(
    m: CsMat,
    roots: Seq<Entry>,
    left: Seq<StackVal>,
    right: Seq<StackVal>,
    vis: Seq<bool>,
    ind: usize,
)
    requires
        dfs_inv(m, roots, left.push(StackVal::Enter(ind)), right, vis),
        vis[ind as int],
    ensures
        dfs_inv(m, roots, left, right, vis),
{
    let lpre = left.push(StackVal::Enter(ind));
    let n = m.nrows as int;
    lemma_exit_count_push(left, StackVal::Enter(ind));
    assert forall|i: int| 0 <= i < n implies (#[trigger] vis[i] <==> (in_left_exit(left, i)
        || in_right(right, i))) by {
        if in_left_exit(left, i) {
            let q = choose|q: int|
                0 <= q < left.len() && (#[trigger] left[q]) == StackVal::Exit(i as usize);
            assert(lpre[q] == StackVal::Exit(i as usize));
            assert(in_left_exit(lpre, i));
        }
        if in_left_exit(lpre, i) {
            let q = choose|q: int|
                0 <= q < lpre.len() && (#[trigger] lpre[q]) == StackVal::Exit(i as usize);
            assert(q < left.len());
            assert(in_left_exit(left, i));
        }
    }
    assert forall|j: int, t: int|
        #![trigger vis[j], m.outer@[j]@[t]]
        0 <= j < n && vis[j] && 0 <= t < m.outer@[j]@.len() implies (vis[m.outer@[j]@[t].ind as int]
        || in_left_enter(left, m.outer@[j]@[t].ind as int)) by {
        let c = m.outer@[j]@[t].ind as int;
        if !vis[c] {
            assert(in_left_enter(lpre, c));
            let q = choose|q: int|
                0 <= q < lpre.len() && (#[trigger] lpre[q]) == StackVal::Enter(c as usize);
            if q == left.len() {
                assert(c == ind as int);
            } else {
                assert(left[q] == StackVal::Enter(c as usize));
                assert(in_left_enter(left, c));
            }
        }
    }
    assert forall|p: int, t: int|
        #![trigger m.outer@[stack_ind(left[p])]@[t]]
        0 <= p < left.len() && is_exit(left[p]) && 0 <= t < m.outer@[stack_ind(left[p])]@.len()
            implies (vis[m.outer@[stack_ind(left[p])]@[t].ind as int] || enter_above(
        left,
        p,
        m.outer@[stack_ind(left[p])]@[t].ind as int,
    )) by {
        let c = m.outer@[stack_ind(left[p])]@[t].ind as int;
        assert(left[p] == lpre[p]);
        if !vis[c] {
            assert(enter_above(lpre, p, c));
            let q = choose|q: int|
                p < q < lpre.len() && (#[trigger] lpre[q]) == StackVal::Enter(c as usize);
            if q == left.len() {
                assert(c == ind as int);
            } else {
                assert(left[q] == StackVal::Enter(c as usize));
                assert(enter_above(left, p, c));
            }
        }
    }
    assert forall|p: int, q: int|
        #![trigger left[p], left[q]]
        0 <= p < q < left.len() && is_exit(left[p]) implies stack_ind(left[q]) >= stack_ind(
        left[p],
    ) && (is_exit(left[q]) ==> stack_ind(left[q]) > stack_ind(left[p])) by {
        assert(left[p] == lpre[p]);
        assert(left[q] == lpre[q]);
    }
    assert forall|q: int| 0 <= q < left.len() implies 0 <= stack_ind(#[trigger] left[q])
        < m.nrows by {
        assert(left[q] == lpre[q]);
    }
    assert forall|q: int| 0 <= q < left.len() && is_enter(#[trigger] left[q]) implies reachable(
        m,
        roots,
        stack_ind(left[q]),
    ) by {
        assert(left[q] == lpre[q]);
    }
    assert forall|p: int, q: int|
        #![trigger left[p], left[q]]
        0 <= p < q < left.len() && is_exit(left[p]) && is_exit(left[q]) implies stack_ind(left[p])
        != stack_ind(left[q]) by {
        assert(left[p] == lpre[p]);
        assert(left[q] == lpre[q]);
    }
    assert forall|p: int| 0 <= p < left.len() && is_exit(#[trigger] left[p]) implies !in_right(
        right,
        stack_ind(left[p]),
    ) && vis[stack_ind(left[p])] by {
        assert(left[p] == lpre[p]);
    }
}

/// Visit a freshly discovered column: mark it, queue its finalize marker,
/// and queue a discover marker for every stored entry of the column.
#[verifier::loop_isolation(false)]
#[verifier::rlimit(100)]
#[verifier::spinoff_prover]
fn dfs_visit(
    m: &CsMat,
    Ghost(roots): Ghost<Seq<Entry>>,
    dstack: &mut DStack,
    visited: &mut Vec<bool>,
    ind: usize,
)
    requires
        m.wf(),
        m.storage == Storage::Csc,
        m.is_square(),
        lower_triangular(*m),
        ind < m.nrows,
        !old(visited)@[ind as int],
        reachable(*m, roots, ind as int),
        old(dstack).cap >= 1 + reach_weight(*m, roots, m.nrows as int),
        dfs_inv(
            *m,
            roots,
            old(dstack).left@.push(StackVal::Enter(ind)),
            old(dstack).right@,
            old(visited)@,
        ),
    ensures
        final(dstack).cap == old(dstack).cap,
        final(dstack).right@ == old(dstack).right@,
        dfs_inv(*m, roots, final(dstack).left@, final(dstack).right@, final(visited)@),
        final(visited)@.len() == old(visited)@.len(),
        forall|i: int| 0 <= i < old(visited)@.len() && old(visited)@[i] ==> final(visited)@[i],
        final(visited)@[ind as int],
        forall|i: int|
            in_left_enter(old(dstack).left@, i) ==> final(visited)@[i] || in_left_enter(
                final(dstack).left@,
                i,
            ),
        final(dstack).left@.len() - vis_weight(*m, final(visited)@, m.nrows as int) <= old(
            dstack,
        ).left@.len() - vis_weight(*m, old(visited)@, m.nrows as int),
{
    let ghost n = m.nrows as int;
    let ghost lpop = old(dstack).left@;
    let ghost lpre = lpop.push(StackVal::Enter(ind));
    let ghost rr = old(dstack).right@;
    let ghost vpre = visited@;
    let ghost ii = ind as int;
    proof {
        assert(lpre[lpre.len() - 1] == StackVal::Enter(ind));
        lemma_exit_count_push(lpop, StackVal::Enter(ind));
        lemma_vis_weight_update(*m, vpre, n, ii);
        lemma_count_trues_update(vpre, n, ii);
        lemma_vis_le_total_weight(*m, vpre, n);
    }
    visited.set(ind, true);
    proof {
        assert forall|i: int| 0 <= i < n && #[trigger] visited@[i] implies reachable(
            *m,
            roots,
            i,
        ) by {}
        lemma_vis_le_reach_weight(*m, roots, visited@, n);
        lemma_exit_count_push(lpop, StackVal::Exit(ind));
    }
    dstack.push_left(StackVal::Exit(ind));
    let ghost lb = dstack.left@;
    let col = &m.outer[ind];
    let mut t: usize = 0;
    while t < col.len()
        invariant
            0 <= t <= col@.len(),
            dstack.cap == old(dstack).cap,
            dstack.right@ == rr,
            dstack.left@.len() == lb.len() + t,
            forall|q: int| 0 <= q < lb.len() ==> (#[trigger] dstack.left@[q]) == lb[q],
            forall|u: int|
                0 <= u < t ==> (#[trigger] dstack.left@[lb.len() + u]) == StackVal::Enter(
                    col@[u].ind,
                ),
            exit_count(dstack.left@) == exit_count(lb),
            dstack.left@.len() + dstack.right@.len() <= vis_weight(*m, visited@, n) - (col@.len()
                - t),
        decreases col@.len() - t,
    {
        let c = col[t].ind;
        proof {
            lemma_exit_count_push(dstack.left@, StackVal::Enter(c));
        }
        dstack.push_left(StackVal::Enter(c));
        t = t + 1;
    }
    proof {
        let lnew = dstack.left@;
        let colv = m.outer@[ii]@;
        assert(lb.len() == lpre.len());
        assert(forall|q: int| 0 <= q < lpre.len() - 1 ==> lb[q] == #[trigger] lpre[q]);
        assert(lb[lpre.len() - 1] == StackVal::Exit(ind));
        assert forall|i: int| 0 <= i < n implies (#[trigger] visited@[i] <==> (in_left_exit(
            lnew,
            i,
        ) || in_right(rr, i))) by {
            if i == ii {
                assert(lnew[lpre.len() - 1] == StackVal::Exit(ind));
                assert(in_left_exit(lnew, i));
            } else {
                if in_left_exit(lnew, i) {
                    let q = choose|q: int|
                        0 <= q < lnew.len() && (#[trigger] lnew[q]) == StackVal::Exit(i as usize);
                    if q >= lb.len() {
                        let u = q - lb.len();
                        assert(lnew[lb.len() + u] == StackVal::Enter(colv[u].ind));
                    } else if q == lb.len() - 1 {
                        assert(lnew[q] == StackVal::Exit(ind));
                        assert(i as usize == ind);
                    }
                    assert(q < lpre.len() - 1);
                    assert(lpre[q] == StackVal::Exit(i as usize));
                    assert(in_left_exit(lpre, i));
                }
                if in_left_exit(lpre, i) {
                    let q = choose|q: int|
                        0 <= q < lpre.len() && (#[trigger] lpre[q]) == StackVal::Exit(i as usize);
                    assert(q < lpre.len() - 1);
                    assert(lnew[q] == StackVal::Exit(i as usize));
                    assert(in_left_exit(lnew, i));
                }
            }
        }
        assert forall|j: int, t2: int|
            #![trigger visited@[j], m.outer@[j]@[t2]]
            0 <= j < n && visited@[j] && 0 <= t2 < m.outer@[j]@.len() implies (visited@[m.outer@[j]@[t2].ind as int]
            || in_left_enter(lnew, m.outer@[j]@[t2].ind as int)) by {
            let c = m.outer@[j]@[t2].ind as int;
            if j == ii {
                assert(lnew[lb.len() + t2] == StackVal::Enter(m.outer@[ii]@[t2].ind));
                assert(in_left_enter(lnew, c));
            } else if vpre[j] {
                if !vpre[c] && c != ii {
                    assert(in_left_enter(lpre, c));
                    let q = choose|q: int|
                        0 <= q < lpre.len() && (#[trigger] lpre[q]) == StackVal::Enter(c as usize);
                    if q < lpre.len() - 1 {
                        assert(lnew[q] == StackVal::Enter(c as usize));
                        assert(in_left_enter(lnew, c));
                    } else {
                        assert(c == ii);
                    }
                }
            }
        }
        assert forall|p: int, t2: int|
            #![trigger m.outer@[stack_ind(lnew[p])]@[t2]]
            0 <= p < lnew.len() && is_exit(lnew[p]) && 0 <= t2 < m.outer@[stack_ind(
                lnew[p],
            )]@.len() implies (visited@[m.outer@[stack_ind(lnew[p])]@[t2].ind as int]
            || enter_above(lnew, p, m.outer@[stack_ind(lnew[p])]@[t2].ind as int)) by {
            let c = m.outer@[stack_ind(lnew[p])]@[t2].ind as int;
            if p >= lb.len() {
                let u = p - lb.len();
                assert(lnew[lb.len() + u] == StackVal::Enter(colv[u].ind));
            } else if p == lpre.len() - 1 {
                assert(stack_ind(lnew[p]) == ii);
                assert(lnew[lb.len() + t2] == StackVal::Enter(m.outer@[ii]@[t2].ind));
                assert(enter_above(lnew, p, c));
            } else {
                assert(p < lpre.len() - 1);
                assert(lpre[p] == lnew[p]);
                assert(is_exit(lpre[p]));
                if !visited@[c] {
                    assert(enter_above(lpre, p, c));
                    let q = choose|q: int|
                        p < q < lpre.len() && (#[trigger] lpre[q]) == StackVal::Enter(c as usize);
                    if q < lpre.len() - 1 {
                        assert(lnew[q] == StackVal::Enter(c as usize));
                        assert(enter_above(lnew, p, c));
                    } else {
                        assert(c == ii);
                    }
                }
            }
        }
        assert forall|p: int, q: int|
            #![trigger lnew[p], lnew[q]]
            0 <= p < q < lnew.len() && is_exit(lnew[p]) implies stack_ind(lnew[q]) >= stack_ind(
            lnew[p],
        ) && (is_exit(lnew[q]) ==> stack_ind(lnew[q]) > stack_ind(lnew[p])) by {
            if p < lpre.len() - 1 {
                assert(lnew[p] == lpre[p]);
                if q < lpre.len() - 1 {
                    assert(lnew[q] == lpre[q]);
                } else if q == lpre.len() - 1 {
                    assert(is_exit(lpre[p]));
                    assert(vpre[stack_ind(lpre[p])]);
                    assert(stack_ind(lpre[lpre.len() - 1]) == ii);
                    assert(stack_ind(lnew[q]) == ii);
                    assert(!vpre[ii]);
                    assert(ii >= stack_ind(lpre[p]));
                    assert(ii > stack_ind(lnew[p]));
                } else {
                    let u = q - lb.len();
                    assert(lnew[lb.len() + u] == StackVal::Enter(colv[u].ind));
                    assert(colv[u].ind >= ii);
                    assert(is_exit(lpre[p]));
                    assert(vpre[stack_ind(lpre[p])]);
                    assert(ii >= stack_ind(lpre[p]));
                    assert(ii != stack_ind(lpre[p]));
                }
            } else if p == lpre.len() - 1 {
                let u = q - lb.len();
                assert(lnew[lb.len() + u] == StackVal::Enter(colv[u].ind));
                assert(colv[u].ind >= ii);
                assert(stack_ind(lnew[p]) == ii);
            } else {
                let u = p - lb.len();
                assert(lnew[lb.len() + u] == StackVal::Enter(colv[u].ind));
                assert(!is_exit(lnew[p]));
            }
        }
        assert forall|q: int| 0 <= q < lnew.len() implies 0 <= stack_ind(#[trigger] lnew[q])
            < n by {
            if q < lpre.len() - 1 {
                assert(lnew[q] == lpre[q]);
            } else if q >= lb.len() {
                let u = q - lb.len();
                assert(lnew[lb.len() + u] == StackVal::Enter(colv[u].ind));
            }
        }
        assert forall|q: int| 0 <= q < lnew.len() && is_enter(#[trigger] lnew[q]) implies
            reachable(*m, roots, stack_ind(lnew[q])) by {
            if q < lpre.len() - 1 {
                assert(lnew[q] == lpre[q]);
            } else if q >= lb.len() {
                let u = q - lb.len();
                assert(lnew[lb.len() + u] == StackVal::Enter(colv[u].ind));
                assert(colv[u] == m.outer@[ii]@[u]);
                assert(has_ind(colv, colv[u].ind as int));
                assert(edge(*m, ii, colv[u].ind as int));
                lemma_reachable_extend(*m, roots, ii, colv[u].ind as int);
            } else {
                assert(lnew[q] == StackVal::Exit(ind));
                assert(!is_enter(lnew[q]));
            }
        }
        assert forall|p: int, q: int|
            #![trigger lnew[p], lnew[q]]
            0 <= p < q < lnew.len() && is_exit(lnew[p]) && is_exit(lnew[q]) implies stack_ind(
            lnew[p],
        ) != stack_ind(lnew[q]) by {
            if q >= lb.len() {
                let u = q - lb.len();
                assert(lnew[lb.len() + u] == StackVal::Enter(colv[u].ind));
            } else if q == lb.len() - 1 {
                assert(stack_ind(lnew[q]) == ii);
                assert(p < lpre.len() - 1);
                assert(lnew[p] == lpre[p]);
                assert(vpre[stack_ind(lpre[p])]);
                assert(!vpre[ii]);
            } else {
                assert(lnew[p] == lpre[p]);
                assert(lnew[q] == lpre[q]);
            }
        }
        assert forall|p: int| 0 <= p < lnew.len() && is_exit(#[trigger] lnew[p]) implies
            !in_right(rr, stack_ind(lnew[p])) && visited@[stack_ind(lnew[p])] by {
            if p >= lb.len() {
                let u = p - lb.len();
                assert(lnew[lb.len() + u] == StackVal::Enter(colv[u].ind));
            } else if p == lb.len() - 1 {
                assert(stack_ind(lnew[p]) == ii);
                assert(!vpre[ii]);
                assert(!(in_left_exit(lpre, ii) || in_right(rr, ii)));
            } else {
                assert(lnew[p] == lpre[p]);
                assert(vpre[stack_ind(lpre[p])]);
            }
        }
        assert forall|i: int|
            in_left_enter(lpop, i) implies visited@[i] || in_left_enter(lnew, i) by {
            if in_left_enter(lpop, i) {
                let q = choose|q: int|
                    0 <= q < lpop.len() && (#[trigger] lpop[q]) == StackVal::Enter(i as usize);
                assert(lpre[q] == StackVal::Enter(i as usize));
                assert(q < lpre.len() - 1);
                assert(lnew[q] == StackVal::Enter(i as usize));
                assert(in_left_enter(lnew, i));
            }
        }
    }
}

/// Finalize a fully scanned column: move its marker to the finished side.
/// Everything the column feeds into is already finalized there.
#[verifier::loop_isolation(false)]
#[verifier::rlimit(100)]
#[verifier::spinoff_prover]
fn dfs_finish(
    m: &CsMat,
    Ghost(roots): Ghost<Seq<Entry>>,
    dstack: &mut DStack,
    visited: &Vec<bool>,
    ind: usize,
)
    requires
        m.wf(),
        m.storage == Storage::Csc,
        m.is_square(),
        lower_triangular(*m),
        ind < m.nrows,
        old(dstack).cap >= 1 + reach_weight(*m, roots, m.nrows as int),
        dfs_inv(
            *m,
            roots,
            old(dstack).left@.push(StackVal::Exit(ind)),
            old(dstack).right@,
            visited@,
        ),
    ensures
        final(dstack).cap == old(dstack).cap,
        final(dstack).left == old(dstack).left,
        final(dstack).right@ == old(dstack).right@.push(StackVal::Enter(ind)),
        dfs_inv(*m, roots, final(dstack).left@, final(dstack).right@, visited@),
{
    let ghost n = m.nrows as int;
    let ghost lnew = old(dstack).left@;
    let ghost lpre = lnew.push(StackVal::Exit(ind));
    let ghost rpre = old(dstack).right@;
    let ghost ii = ind as int;
    let ghost colv = m.outer@[ii]@;
    proof {
        lemma_exit_count_push(lnew, StackVal::Exit(ind));
        assert(is_exit(lpre[lpre.len() - 1]));
        assert(stack_ind(lpre[lpre.len() - 1]) == ii);
        assert(visited@[ii]);
        assert(!in_right(rpre, ii));
        lemma_vis_le_reach_weight(*m, roots, visited@, n);
        lemma_count_trues_nonneg(visited@, n);
    }
    dstack.push_right(StackVal::Enter(ind));
    proof {
        let rnew = dstack.right@;
        assert forall|t2: int| 0 <= t2 < colv.len() && colv[t2].ind as int != ii implies in_right(
            rpre,
            colv[t2].ind as int,
        ) by {
            let c = colv[t2].ind as int;
            assert(visited@[c] || enter_above(lpre, lpre.len() - 1, c));
            assert(visited@[c]);
            assert(in_left_exit(lpre, c) || in_right(rpre, c));
            if in_left_exit(lpre, c) {
                let q = choose|q: int|
                    0 <= q < lpre.len() && (#[trigger] lpre[q]) == StackVal::Exit(c as usize);
                if q == lpre.len() - 1 {
                    assert(c == ii);
                } else {
                    assert(is_exit(lpre[q]));
                    assert(stack_ind(lpre[lpre.len() - 1]) > stack_ind(lpre[q]));
                    assert(colv[t2].ind >= ind);
                    assert(false);
                }
            }
        }
        assert forall|i: int| 0 <= i < n implies (#[trigger] visited@[i] <==> (in_left_exit(
            lnew,
            i,
        ) || in_right(rnew, i))) by {
            if i == ii {
                assert(stack_ind(rnew[rpre.len() as int]) == ii);
                assert(in_right(rnew, i));
            } else {
                if in_left_exit(lpre, i) {
                    let q = choose|q: int|
                        0 <= q < lpre.len() && (#[trigger] lpre[q]) == StackVal::Exit(i as usize);
                    assert(q < lpre.len() - 1);
                    assert(lnew[q] == StackVal::Exit(i as usize));
                    assert(in_left_exit(lnew, i));
                }
                if in_left_exit(lnew, i) {
                    let q = choose|q: int|
                        0 <= q < lnew.len() && (#[trigger] lnew[q]) == StackVal::Exit(i as usize);
                    assert(lpre[q] == StackVal::Exit(i as usize));
                    assert(in_left_exit(lpre, i));
                }
                if in_right(rpre, i) {
                    let q = choose|q: int|
                        0 <= q < rpre.len() && stack_ind(#[trigger] rpre[q]) == i;
                    assert(stack_ind(rnew[q]) == i);
                    assert(in_right(rnew, i));
                }
                if in_right(rnew, i) {
                    let q = choose|q: int|
                        0 <= q < rnew.len() && stack_ind(#[trigger] rnew[q]) == i;
                    if q < rpre.len() {
                        assert(in_right(rpre, i));
                    }
                }
            }
        }
        assert forall|p: int| 0 <= p < lnew.len() && is_exit(#[trigger] lnew[p]) implies
            !in_right(rnew, stack_ind(lnew[p])) by {
            assert(lnew[p] == lpre[p]);
            if in_right(rnew, stack_ind(lnew[p])) {
                let q = choose|q: int|
                    0 <= q < rnew.len() && stack_ind(#[trigger] rnew[q]) == stack_ind(lnew[p]);
                if q < rpre.len() {
                    assert(in_right(rpre, stack_ind(lpre[p])));
                    assert(false);
                } else {
                    assert(stack_ind(lnew[p]) == ii);
                    assert(stack_ind(lpre[lpre.len() - 1]) > stack_ind(lpre[p]));
                    assert(false);
                }
            }
        }
        assert forall|j: int, t2: int|
            #![trigger visited@[j], m.outer@[j]@[t2]]
            0 <= j < n && visited@[j] && 0 <= t2 < m.outer@[j]@.len() implies (visited@[m.outer@[j]@[t2].ind as int]
            || in_left_enter(lnew, m.outer@[j]@[t2].ind as int)) by {
            let c = m.outer@[j]@[t2].ind as int;
            if !visited@[c] {
                assert(in_left_enter(lpre, c));
                let q = choose|q: int|
                    0 <= q < lpre.len() && (#[trigger] lpre[q]) == StackVal::Enter(c as usize);
                assert(q < lpre.len() - 1);
                assert(lnew[q] == StackVal::Enter(c as usize));
                assert(in_left_enter(lnew, c));
            }
        }
        assert forall|p: int, t2: int|
            #![trigger m.outer@[stack_ind(lnew[p])]@[t2]]
            0 <= p < lnew.len() && is_exit(lnew[p]) && 0 <= t2 < m.outer@[stack_ind(
                lnew[p],
            )]@.len() implies (visited@[m.outer@[stack_ind(lnew[p])]@[t2].ind as int]
            || enter_above(lnew, p, m.outer@[stack_ind(lnew[p])]@[t2].ind as int)) by {
            let c = m.outer@[stack_ind(lnew[p])]@[t2].ind as int;
            assert(lnew[p] == lpre[p]);
            if !visited@[c] {
                assert(enter_above(lpre, p, c));
                let q = choose|q: int|
                    p < q < lpre.len() && (#[trigger] lpre[q]) == StackVal::Enter(c as usize);
                assert(q < lpre.len() - 1);
                assert(lnew[q] == StackVal::Enter(c as usize));
                assert(enter_above(lnew, p, c));
            }
        }
        assert forall|q: int, t2: int|
            #![trigger m.outer@[stack_ind(rnew[q])]@[t2]]
            0 <= q < rnew.len() && 0 <= t2 < m.outer@[stack_ind(rnew[q])]@.len() implies (m.outer@[stack_ind(
            rnew[q],
        )]@[t2].ind as int == stack_ind(rnew[q]) || in_right_before(
            rnew,
            q,
            m.outer@[stack_ind(rnew[q])]@[t2].ind as int,
        )) by {
            let c = m.outer@[stack_ind(rnew[q])]@[t2].ind as int;
            if q < rpre.len() {
                assert(rnew[q] == rpre[q]);
                if c != stack_ind(rpre[q]) {
                    assert(in_right_before(rpre, q, c));
                    let p = choose|p: int| 0 <= p < q && stack_ind(#[trigger] rpre[p]) == c;
                    assert(stack_ind(rnew[p]) == c);
                    assert(in_right_before(rnew, q, c));
                }
            } else {
                assert(stack_ind(rnew[q]) == ii);
                if c != ii {
                    assert(in_right(rpre, c));
                    let p = choose|p: int|
                        0 <= p < rpre.len() && stack_ind(#[trigger] rpre[p]) == c;
                    assert(stack_ind(rnew[p]) == c);
                    assert(in_right_before(rnew, q, c));
                }
            }
        }
        assert forall|q: int| 0 <= q < lnew.len() implies 0 <= stack_ind(#[trigger] lnew[q])
            < n && (is_enter(lnew[q]) ==> reachable(*m, roots, stack_ind(lnew[q]))) && (is_exit(
            lnew[q],
        ) ==> visited@[stack_ind(lnew[q])]) by {
            assert(lnew[q] == lpre[q]);
        }
        assert forall|p: int, q: int|
            #![trigger lnew[p], lnew[q]]
            0 <= p < q < lnew.len() implies (is_exit(lnew[p]) && is_exit(lnew[q]) ==> stack_ind(
            lnew[p],
        ) != stack_ind(lnew[q])) && (is_exit(lnew[p]) ==> stack_ind(lnew[q]) >= stack_ind(lnew[p])
            && (is_exit(lnew[q]) ==> stack_ind(lnew[q]) > stack_ind(lnew[p]))) by {
            assert(lnew[p] == lpre[p]);
            assert(lnew[q] == lpre[q]);
        }
        assert forall|p: int, q: int| 0 <= p < q < rnew.len() implies stack_ind(
            #[trigger] rnew[p],
        ) != stack_ind(#[trigger] rnew[q]) by {
            assert(stack_ind(rnew[p]) == stack_ind(rpre[p]));
            if q < rpre.len() {
                assert(stack_ind(rnew[q]) == stack_ind(rpre[q]));
            } else {
                assert(stack_ind(rnew[q]) == ii);
                assert(!in_right(rpre, ii));
            }
        }
    }
}

/// Iterative depth-first discovery of the solution's support: marks every
/// index reachable from the right-hand side's nonzero roots, and leaves on
/// the stack's finished side one marker per discovered column — each column
/// finalized before every column it feeds into, so the finished side read
/// most-recent-first is a valid elimination order.
#[verifier::loop_isolation(false)]
#[verifier::rlimit(100)]
#[verifier::spinoff_prover]
fn discover_support(m: &CsMat, rhs: &CsVec, dstack: &mut DStack, visited: &mut Vec<bool>)
    requires
        m.wf(),
        rhs.wf(),
        m.storage == Storage::Csc,
        m.is_square(),
        rhs.dim == m.nrows,
        lower_triangular(*m),
        old(visited)@.len() == m.nrows,
        forall|i: int| 0 <= i < old(visited)@.len() ==> !old(visited)@[i],
        old(dstack).left@.len() == 0,
        old(dstack).right@.len() == 0,
        old(dstack).cap >= 2 * m.nrows,
        old(dstack).cap >= 1 + reach_weight(*m, rhs.entries@, m.nrows as int),
    ensures
        final(visited)@.len() == m.nrows,
        final(dstack).cap == old(dstack).cap,
        final(dstack).left@.len() == 0,
        forall|i: int|
            0 <= i < m.nrows ==> (final(visited)@[i] <==> reachable(*m, rhs.entries@, i)),
        forall|q: int|
            0 <= q < final(dstack).right@.len() ==> is_enter(#[trigger] final(dstack).right@[q])
                && 0 <= stack_ind(final(dstack).right@[q]) < m.nrows,
        forall|p: int, q: int|
            0 <= p < q < final(dstack).right@.len() ==> stack_ind(
                #[trigger] final(dstack).right@[p],
            ) != stack_ind(#[trigger] final(dstack).right@[q]),
        forall|i: int|
            in_right(final(dstack).right@, i) <==> (0 <= i < m.nrows && reachable(
                *m,
                rhs.entries@,
                i,
            )),
        forall|q: int, t: int|
            #![trigger m.outer@[stack_ind(final(dstack).right@[q])]@[t]]
            0 <= q < final(dstack).right@.len() && 0 <= t < m.outer@[stack_ind(
                final(dstack).right@[q],
            )]@.len() ==> (m.outer@[stack_ind(final(dstack).right@[q])]@[t].ind as int == stack_ind(
                final(dstack).right@[q],
            ) || in_right_before(
                final(dstack).right@,
                q,
                m.outer@[stack_ind(final(dstack).right@[q])]@[t].ind as int,
            )),
{
    let n = m.rows();
    let ghost roots = rhs.entries@;
    let ghost cap0 = dstack.cap;
    proof {
        lemma_count_trues_false(visited@, n as int);
        lemma_vis_le_total_weight(*m, visited@, n as int);
    }
    let mut rk: usize = 0;
    while rk < rhs.entries.len()
        invariant
            0 <= rk <= rhs.entries@.len(),
            dstack.cap == cap0,
            dstack.left@.len() == 0,
            dfs_inv(*m, roots, dstack.left@, dstack.right@, visited@),
            forall|w: int| 0 <= w < rk ==> visited@[(#[trigger] roots[w]).ind as int],
        decreases rhs.entries@.len() - rk,
    {
        let root = rhs.entries[rk].ind;
        if !visited[root] {
            proof {
                lemma_count_trues_bound(visited@, n as int, root as int);
                lemma_count_le_vis_weight(*m, visited@, n as int);
                assert(reaches(*m, roots[rk as int].ind as int, root as int, 0));
            }
            let ghost lempty = dstack.left@;
            dstack.push_left(StackVal::Enter(root));
            proof {
                assert(lempty =~= Seq::<StackVal>::empty());
                lemma_exit_count_push(lempty, StackVal::Enter(root));
                let lone = dstack.left@;
                assert(lone[0] == StackVal::Enter(root));
                assert forall|i: int| 0 <= i < n implies (#[trigger] visited@[i] <==> (
                in_left_exit(lone, i) || in_right(dstack.right@, i))) by {
                    if in_left_exit(lone, i) {
                        let q = choose|q: int|
                            0 <= q < lone.len() && (#[trigger] lone[q]) == StackVal::Exit(
                                i as usize,
                            );
                        assert(lone[q] == StackVal::Enter(root));
                        assert(false);
                    }
                    assert(!in_left_exit(lempty, i));
                }
                assert(forall|p: int| 0 <= p < lone.len() ==> !is_exit(#[trigger] lone[p]));
            }
            while dstack.left.len() > 0
                invariant
                    dstack.cap == cap0,
                    dfs_inv(*m, roots, dstack.left@, dstack.right@, visited@),
                    visited@[root as int] || in_left_enter(dstack.left@, root as int),
                    forall|w: int| 0 <= w < rk ==> visited@[(#[trigger] roots[w]).ind as int],
                decreases dstack.left@.len() + total_weight(*m, n as int) - vis_weight(
                    *m,
                    visited@,
                    n as int,
                ),
            {
                let ghost lloop = dstack.left@;
                let ghost vloop = visited@;
                let sv = dstack.pop_left();
                if let Some(v) = sv {
                    proof {
                        assert(lloop =~= dstack.left@.push(v));
                        assert(lloop[lloop.len() - 1] == v);
                        assert(0 <= stack_ind(lloop[lloop.len() - 1]) < n);
                    }
                    match v {
                        StackVal::Enter(ind) => {
                            if !visited[ind] {
                                proof {
                                    assert(is_enter(lloop[lloop.len() - 1]));
                                    assert(reachable(*m, roots, ind as int));
                                }
                                dfs_visit(m, Ghost(roots), dstack, visited, ind);
                                proof {
                                    lemma_vis_le_total_weight(*m, visited@, n as int);
                                    assert(visited@[root as int] || in_left_enter(
                                        dstack.left@,
                                        root as int,
                                    )) by {
                                        if !vloop[root as int] {
                                            let q = choose|q: int|
                                                0 <= q < lloop.len() && (#[trigger] lloop[q])
                                                    == StackVal::Enter(root);
                                            if q < lloop.len() - 1 {
                                                assert(lloop.drop_last()[q] == StackVal::Enter(
                                                    root,
                                                ));
                                                assert(in_left_enter(
                                                    lloop.drop_last(),
                                                    root as int,
                                                ));
                                            } else {
                                                assert(root == ind);
                                                assert(visited@[root as int]);
                                            }
                                        }
                                    }
                                }
                            } else {
                                proof {
                                    lemma_pop_stale(
                                        *m,
                                        roots,
                                        dstack.left@,
                                        dstack.right@,
                                        visited@,
                                        ind,
                                    );
                                    lemma_vis_le_total_weight(*m, visited@, n as int);
                                    assert(visited@[root as int] || in_left_enter(
                                        dstack.left@,
                                        root as int,
                                    )) by {
                                        if !visited@[root as int] {
                                            let q = choose|q: int|
                                                0 <= q < lloop.len() && (#[trigger] lloop[q])
                                                    == StackVal::Enter(root);
                                            if q < lloop.len() - 1 {
                                                assert(dstack.left@[q] == StackVal::Enter(root));
                                                assert(in_left_enter(dstack.left@, root as int));
                                            } else {
                                                assert(root == ind);
                                            }
                                        }
                                    }
                                }
                            }
                        },
                        StackVal::Exit(ind) => {
                            dfs_finish(m, Ghost(roots), dstack, visited, ind);
                            proof {
                                lemma_vis_le_total_weight(*m, visited@, n as int);
                                assert(visited@[root as int] || in_left_enter(
                                    dstack.left@,
                                    root as int,
                                )) by {
                                    if !visited@[root as int] {
                                        let q = choose|q: int|
                                            0 <= q < lloop.len() && (#[trigger] lloop[q])
                                                == StackVal::Enter(root);
                                        assert(q < lloop.len() - 1);
                                        assert(dstack.left@[q] == StackVal::Enter(root));
                                        assert(in_left_enter(dstack.left@, root as int));
                                    }
                                }
                            }
                        },
                    }
                }
            }
            proof {
                assert(visited@[root as int]);
            }
        }
        rk = rk + 1;
    }
    proof {
        let rfin = dstack.right@;
        assert forall|i: int| 0 <= i < n implies (visited@[i] <==> reachable(*m, roots, i)) by {
            if reachable(*m, roots, i) && !visited@[i] {
                let (p, k): (int, nat) = choose|p: int, k: nat|
                    #![trigger reaches(*m, roots[p].ind as int, i, k)]
                    0 <= p < roots.len() && reaches(*m, roots[p].ind as int, i, k);
                assert(visited@[roots[p].ind as int]);
                assert forall|j: int, i2: int|
                    0 <= j < visited@.len() && #[trigger] visited@[j] && #[trigger] edge(*m, j, i2)
                        && 0 <= i2 < visited@.len() implies visited@[i2] by {
                    let t = choose|t: int|
                        0 <= t < m.outer@[j]@.len() && (#[trigger] m.outer@[j]@[t]).ind == i2;
                    assert(visited@[m.outer@[j]@[t].ind as int] || in_left_enter(
                        dstack.left@,
                        m.outer@[j]@[t].ind as int,
                    ));
                    assert(!in_left_enter(dstack.left@, i2));
                }
                assert forall|j: int, i2: int| #[trigger] edge(*m, j, i2) implies 0 <= i2
                    < visited@.len() by {
                    let t = choose|t: int|
                        0 <= t < m.outer@[j]@.len() && (#[trigger] m.outer@[j]@[t]).ind == i2;
                }
                lemma_reach_closed(*m, visited@, roots[p].ind as int, i, k);
            }
        }
        assert forall|i: int| in_right(rfin, i) implies (0 <= i < n && reachable(
            *m,
            roots,
            i,
        )) by {
            let q = choose|q: int| 0 <= q < rfin.len() && stack_ind(#[trigger] rfin[q]) == i;
        }
    }
}

/// Sparse lower-triangular solve with a sparse right-hand side, column-major.
///
/// First discovers the nonzero support of the solution — exactly the set of
/// indices reachable from the right-hand side's nonzero roots through the
/// sub-diagonal dependency graph — by iterative depth-first traversal, then
/// replays the resulting elimination order numerically into `x_workspace`.
/// On success the stack's finished side holds the support and `x_workspace`
/// holds the solved values at those indices.
///
/// Returns `BadStorageType` (touching nothing) when the matrix is not
/// column-major; `SingularMatrix` when some column of the support has a
/// missing or zero diagonal.
#[verifier::loop_isolation(false)]
#[verifier::rlimit(100)]
#[verifier::spinoff_prover]
pub fn lsolve_csc_sparse_rhs(
    m: &CsMat,
    rhs: &CsVec,
    dstack: &mut DStack,
    x_workspace: &mut Vec<i64>,
    visited: &mut Vec<bool>,
) -> (r: Result<(), SprsError>)
    requires
        m.wf(),
        rhs.wf(),
        m.storage == Storage::Csc ==> m.is_square(),
        m.storage == Storage::Csc ==> rhs.dim == m.nrows,
        m.storage == Storage::Csc ==> lower_triangular(*m),
        m.storage == Storage::Csc ==> old(x_workspace)@.len() == m.nrows,
        m.storage == Storage::Csc ==> old(visited)@.len() == m.nrows,
        m.storage == Storage::Csc ==> (forall|i: int|
            0 <= i < old(visited)@.len() ==> !old(visited)@[i]),
        m.storage == Storage::Csc ==> old(dstack).left@.len() == 0 && old(
            dstack,
        ).right@.len() == 0,
        m.storage == Storage::Csc ==> old(dstack).cap >= 2 * m.nrows,
        m.storage == Storage::Csc ==> old(dstack).cap >= 1 + reach_weight(
            *m,
            rhs.entries@,
            m.nrows as int,
        ),
    ensures
        m.storage != Storage::Csc ==> r == Err::<(), SprsError>(SprsError::BadStorageType)
            && *final(dstack) == *old(dstack) && final(x_workspace)@ == old(x_workspace)@
            && final(visited)@ == old(visited)@,
        m.storage == Storage::Csc ==> ({
            &&& final(visited)@.len() == m.nrows
            &&& final(x_workspace)@.len() == m.nrows
            &&& final(dstack).cap == old(dstack).cap
            &&& final(dstack).left@.len() == 0
            &&& forall|i: int|
                0 <= i < m.nrows ==> (final(visited)@[i] <==> reachable(*m, rhs.entries@, i))
            &&& forall|q: int|
                0 <= q < final(dstack).right@.len() ==> is_enter(
                    #[trigger] final(dstack).right@[q],
                ) && 0 <= stack_ind(final(dstack).right@[q]) < m.nrows
            &&& forall|p: int, q: int|
                0 <= p < q < final(dstack).right@.len() ==> stack_ind(
                    #[trigger] final(dstack).right@[p],
                ) != stack_ind(#[trigger] final(dstack).right@[q])
            &&& forall|i: int|
                in_right(final(dstack).right@, i) <==> (0 <= i < m.nrows && reachable(
                    *m,
                    rhs.entries@,
                    i,
                ))
            &&& ((r is Err) <==> exists|i: int|
                0 <= i < m.nrows && #[trigger] reachable(*m, rhs.entries@, i) && val_at(
                    m.outer@[i]@,
                    i,
                ) == 0)
            &&& (r is Err ==> r == Err::<(), SprsError>(SprsError::SingularMatrix))
            &&& (r is Ok ==> forall|i: int|
                0 <= i < m.nrows ==> final(x_workspace)@[i] == (if reachable(
                    *m,
                    rhs.entries@,
                    i,
                ) {
                    sval(*m, rhs.entries@, scatter_base(*rhs, old(x_workspace)@), i as nat)
                } else {
                    old(x_workspace)@[i]
                }))
        }),
{
    if !m.is_csc() {
        return Err(SprsError::BadStorageType);
    }
    let n = m.rows();
    let ghost roots = rhs.entries@;
    discover_support(m, rhs, dstack, visited);
    let ghost w0 = x_workspace@;
    rhs.scatter(x_workspace);
    let ghost base = scatter_base(*rhs, w0);
    let ghost rfin = dstack.right@;
    proof {
        assert(x_workspace@ =~= base);
        assert forall|i: int| 0 <= i < n && #[trigger] has_ind(rhs.entries@, i) implies reachable(
            *m,
            roots,
            i,
        ) by {
            let k = choose|k: int|
                0 <= k < rhs.entries@.len() && (#[trigger] rhs.entries@[k]).ind == i;
            assert(reaches(*m, roots[k].ind as int, i, 0));
        }
        assert forall|i: int| 0 <= i < n implies !done_in(rfin, rfin.len() as int, i) by {
            if done_in(rfin, rfin.len() as int, i) {
                let p = choose|p: int|
                    rfin.len() <= p < rfin.len() && stack_ind(#[trigger] rfin[p]) == i;
            }
        }
        assert forall|i: int| 0 <= i < n implies x_workspace@[i] == wrap(
            base[i] - psum(*m, roots, base, rfin, rfin.len() as int, i),
        ) by {
            lemma_wrap_cases(base[i] as int);
        }
    }
    let order = dstack.iter_right();
    let mut u: usize = 0;
    while u < order.len()
        invariant
            0 <= u <= order@.len(),
            x_workspace@.len() == n,
            forall|t: int|
                0 <= t < u ==> val_at(
                    m.outer@[stack_ind(#[trigger] order@[t])]@,
                    stack_ind(order@[t]),
                ) != 0,
            forall|i: int|
                0 <= i < n && !reachable(*m, roots, i) ==> x_workspace@[i] == base[i],
            forall|i: int|
                0 <= i < n && #[trigger] reachable(*m, roots, i) && done_in(
                    rfin,
                    rfin.len() - u,
                    i,
                ) ==> x_workspace@[i] == sval(*m, roots, base, i as nat),
            forall|i: int|
                0 <= i < n && #[trigger] reachable(*m, roots, i) && !done_in(
                    rfin,
                    rfin.len() - u,
                    i,
                ) ==> x_workspace@[i] == wrap(
                    base[i] - psum(*m, roots, base, rfin, rfin.len() - u, i),
                ),
        decreases order@.len() - u,
    {
        proof {
            assert(order@[u as int] == rfin[rfin.len() - 1 - u as int]);
            assert(0 <= stack_ind(order@[u as int]) < n);
        }
        let ghost p = rfin.len() - 1 - u as int;
        let ghost wpre = x_workspace@;
        proof {
            assert(stack_ind(rfin[p]) == stack_ind(order@[u as int]));
            assert(in_right(rfin, stack_ind(rfin[p])));
            assert(reachable(*m, roots, stack_ind(rfin[p])));
            assert(!done_in(rfin, p + 1, stack_ind(rfin[p]))) by {
                if done_in(rfin, p + 1, stack_ind(rfin[p])) {
                    let q = choose|q: int|
                        p + 1 <= q < rfin.len() && stack_ind(#[trigger] rfin[q]) == stack_ind(
                            rfin[p],
                        );
                }
            }
            assert forall|j: int|
                0 <= j < stack_ind(rfin[p]) && #[trigger] edge(*m, j, stack_ind(rfin[p]))
                    implies (done_in(rfin, p + 1, j) <==> reachable(*m, roots, j)) by {
                if done_in(rfin, p + 1, j) {
                    let q = choose|q: int|
                        p + 1 <= q < rfin.len() && stack_ind(#[trigger] rfin[q]) == j;
                    assert(in_right(rfin, j));
                }
                if reachable(*m, roots, j) {
                    assert(in_right(rfin, j));
                    let qj = choose|qj: int|
                        0 <= qj < rfin.len() && stack_ind(#[trigger] rfin[qj]) == j;
                    let t = choose|t: int|
                        0 <= t < m.outer@[j]@.len() && (#[trigger] m.outer@[j]@[t]).ind
                            == stack_ind(rfin[p]);
                    assert(m.outer@[stack_ind(rfin[qj])]@[t].ind as int == stack_ind(rfin[qj])
                        || in_right_before(
                        rfin,
                        qj,
                        m.outer@[stack_ind(rfin[qj])]@[t].ind as int,
                    ));
                    let pk = choose|pk: int|
                        0 <= pk < qj && stack_ind(#[trigger] rfin[pk]) == stack_ind(rfin[p]);
                    assert(pk == p);
                    assert(done_in(rfin, p + 1, j));
                }
            }
            assert forall|j: int| #[trigger] done_in(rfin, p + 1, j) implies reachable(
                *m,
                roots,
                j,
            ) by {
                let q = choose|q: int|
                    p + 1 <= q < rfin.len() && stack_ind(#[trigger] rfin[q]) == j;
                assert(in_right(rfin, j));
            }
            lemma_psum_dsum(*m, roots, base, rfin, p + 1, stack_ind(rfin[p]), n as int);
            lemma_dsum_ssum(*m, roots, base, rfin, p + 1, stack_ind(rfin[p]), n as int);
            lemma_ssum_upper(
                *m,
                roots,
                base,
                stack_ind(rfin[p]) as nat,
                n as nat,
            );
        }
        let ind = extract_stack_val(order[u]);
        let res = lspsolve_csc_process_col(&m.outer[ind], ind, x_workspace);
        match res {
            Err(e) => {
                proof {
                    assert(stack_ind(rfin[rfin.len() - 1 - u as int]) == ind as int);
                    assert(in_right(rfin, ind as int));
                    assert(reachable(*m, roots, ind as int));
                }
                return Err(e);
            },
            Ok(()) => {},
        }
        proof {
            let kk = ind as int;
            let colv = m.outer@[kk]@;
            let xv = wdiv(wpre[kk], val_at(colv, kk));
            assert(wpre[kk] == wrap(base[kk] - ssum(*m, roots, base, kk as nat, kk as nat)));
            assert(xv == sval(*m, roots, base, kk as nat));
            assert forall|i: int| 0 <= i < n && #[trigger] has_ind(colv, i) implies reachable(
                *m,
                roots,
                i,
            ) by {
                assert(edge(*m, kk, i));
                lemma_reachable_extend(*m, roots, kk, i);
            }
            assert forall|i: int| 0 <= i < n implies ({
                &&& (!reachable(*m, roots, i) ==> x_workspace@[i] == base[i])
                &&& (reachable(*m, roots, i) && done_in(rfin, p, i) ==> x_workspace@[i] == sval(
                    *m,
                    roots,
                    base,
                    i as nat,
                ))
                &&& (reachable(*m, roots, i) && !done_in(rfin, p, i) ==> x_workspace@[i] == wrap(
                    base[i] - psum(*m, roots, base, rfin, p, i),
                ))
            }) by {
                assert(done_in(rfin, p, kk)) by {
                    assert(stack_ind(rfin[p]) == kk);
                }
                if i == kk {
                    assert(x_workspace@[i] == xv);
                } else {
                    if !has_ind(colv, i) {
                        lemma_val_at_absent(colv, i);
                        assert(val_at(colv, i) == 0);
                        if i > kk {
                            assert(x_workspace@[i] == wrap(wpre[i] - 0 * xv));
                            lemma_wrap_cases(wpre[i] as int);
                            assert(x_workspace@[i] == wpre[i]);
                        } else {
                            assert(x_workspace@[i] == wpre[i]);
                        }
                    } else {
                        assert(reachable(*m, roots, i));
                        assert(i >= kk) by {
                            let t = choose|t: int|
                                0 <= t < colv.len() && (#[trigger] colv[t]).ind == i;
                            assert(colv[t].ind >= kk);
                        }
                        assert(i > kk);
                    }
                    if reachable(*m, roots, i) {
                        if done_in(rfin, p + 1, i) {
                            assert(!has_ind(colv, i)) by {
                                if has_ind(colv, i) {
                                    assert(edge(*m, kk, i));
                                    let t = choose|t: int|
                                        0 <= t < colv.len() && (#[trigger] colv[t]).ind == i;
                                    assert(m.outer@[stack_ind(rfin[p])]@[t].ind as int
                                        == stack_ind(rfin[p]) || in_right_before(
                                        rfin,
                                        p,
                                        m.outer@[stack_ind(rfin[p])]@[t].ind as int,
                                    ));
                                    let pa = choose|pa: int|
                                        0 <= pa < p && stack_ind(#[trigger] rfin[pa]) == i;
                                    let qb = choose|qb: int|
                                        p + 1 <= qb < rfin.len() && stack_ind(
                                            #[trigger] rfin[qb],
                                        ) == i;
                                    assert(false);
                                }
                            }
                            assert(x_workspace@[i] == wpre[i]);
                            assert(done_in(rfin, p, i)) by {
                                let q = choose|q: int|
                                    p + 1 <= q < rfin.len() && stack_ind(#[trigger] rfin[q])
                                        == i;
                            }
                        } else if i != kk {
                            assert(!done_in(rfin, p, i)) by {
                                if done_in(rfin, p, i) {
                                    let q = choose|q: int|
                                        p <= q < rfin.len() && stack_ind(#[trigger] rfin[q])
                                            == i;
                                    assert(q == p);
                                }
                            }
                            assert(psum(*m, roots, base, rfin, p, i) == (if edge(*m, kk, i) && kk
                                != i {
                                val_at(colv, i) * sval(*m, roots, base, kk as nat)
                            } else {
                                0
                            }) + psum(*m, roots, base, rfin, p + 1, i));
                            if has_ind(colv, i) {
                                assert(edge(*m, kk, i));
                                assert(x_workspace@[i] == wrap(wpre[i] - val_at(colv, i) * xv));
                                crate::dense::lemma_wrap_sub_exact(
                                    wpre[i],
                                    base[i] - psum(*m, roots, base, rfin, p + 1, i),
                                    val_at(colv, i) * xv as int,
                                );
                            } else {
                                lemma_val_at_absent(colv, i);
                                assert(!edge(*m, kk, i)) by {
                                    if edge(*m, kk, i) {
                                        let t = choose|t: int|
                                            0 <= t < colv.len() && (#[trigger] colv[t]).ind
                                                == i;
                                    }
                                }
                                if i > kk {
                                    assert(x_workspace@[i] == wrap(wpre[i] - 0 * xv));
                                    lemma_wrap_cases(wpre[i] as int);
                                }
                                assert(x_workspace@[i] == wpre[i]);
                            }
                        }
                    }
                }
            }
        }
        u = u + 1;
    }
    proof {
        assert forall|i: int|
            !(0 <= i < m.nrows && #[trigger] reachable(*m, roots, i) && val_at(
                m.outer@[i]@,
                i,
            ) == 0) by {
            if 0 <= i < m.nrows && reachable(*m, roots, i) {
                assert(in_right(rfin, i));
                let q = choose|q: int| 0 <= q < rfin.len() && stack_ind(#[trigger] rfin[q]) == i;
                let t = rfin.len() - 1 - q;
                assert(order@[t] == rfin[rfin.len() - 1 - t]);
                assert(stack_ind(order@[t]) == i);
                assert(val_at(m.outer@[stack_ind(order@[t])]@, stack_ind(order@[t])) != 0);
            }
        }
        assert forall|i: int| 0 <= i < m.nrows implies x_workspace@[i] == (if reachable(
            *m,
            roots,
            i,
        ) {
            sval(*m, roots, base, i as nat)
        } else {
            w0[i]
        }) by {
            if reachable(*m, roots, i) {
                assert(in_right(rfin, i));
                let q = choose|q: int| 0 <= q < rfin.len() && stack_ind(#[trigger] rfin[q]) == i;
                assert(done_in(rfin, rfin.len() - order@.len(), i));
            } else {
                assert(!has_ind(rhs.entries@, i)) by {
                    if has_ind(rhs.entries@, i) {
                        let k = choose|k: int|
                            0 <= k < rhs.entries@.len() && (#[trigger] rhs.entries@[k]).ind == i;
                        assert(reaches(*m, roots[k].ind as int, i, 0));
                    }
                }
                assert(base[i] == w0[i]);
            }
        }
    }
    Ok(())
}

/// The workspace right after the sparse right-hand side has been scattered
/// over its previous contents.
pub open spec fn scatter_base(rhs: CsVec, w0: Seq<i64>) -> Seq<i64> {
    Seq::new(
        w0.len(),
        |i: int|
            if has_ind(rhs.entries@, i) {
                val_at(rhs.entries@, i) as i64
            } else {
                w0[i]
            },
    )
}

/// The solved value at a support index, by strong recursion on the index:
/// the scattered right-hand side minus every reachable column's
/// contribution, divided by the column's own diagonal, all in wrapping
/// arithmetic.
pub open spec fn sval(m: CsMat, roots: Seq<Entry>, base: Seq<i64>, i: nat) -> i64
    decreases i, 1nat, 0nat,
{
    wdiv(wrap(base[i as int] - ssum(m, roots, base, i, i)), val_at(m.outer@[i as int]@, i as int))
}

/// Contributions to row `i` from the reachable columns below `hi`.
pub open spec fn ssum(m: CsMat, roots: Seq<Entry>, base: Seq<i64>, i: nat, hi: nat) -> int
    decreases i, 0nat, hi,
{
    if hi == 0 {
        0
    } else {
        ssum(m, roots, base, i, (hi - 1) as nat) + (if hi - 1 < i && reachable(m, roots, hi - 1)
            && edge(m, hi - 1, i as int) {
            val_at(m.outer@[hi - 1]@, i as int) * sval(m, roots, base, (hi - 1) as nat)
        } else {
            0
        })
    }
}

/// Whether some finished-stack position at or after `lo` carries index `j`.
pub open spec fn done_in(r: Seq<StackVal>, lo: int, j: int) -> bool {
    exists|p: int| lo <= p < r.len() && stack_ind(#[trigger] r[p]) == j
}

/// Contributions to row `i` of the already-replayed suffix of the
/// finished stack.
pub open spec fn psum(
    m: CsMat,
    roots: Seq<Entry>,
    base: Seq<i64>,
    r: Seq<StackVal>,
    lo: int,
    i: int,
) -> int
    decreases r.len() - lo,
{
    if lo < 0 || lo >= r.len() {
        0
    } else {
        (if edge(m, stack_ind(r[lo]), i) && stack_ind(r[lo]) != i {
            val_at(m.outer@[stack_ind(r[lo])]@, i) * sval(
                m,
                roots,
                base,
                stack_ind(r[lo]) as nat,
            )
        } else {
            0
        }) + psum(m, roots, base, r, lo + 1, i)
    }
}

/// Contributions to row `i` of the columns below `hi` whose index sits in
/// the finished stack at or after `lo`.
pub open spec fn dsum(
    m: CsMat,
    roots: Seq<Entry>,
    base: Seq<i64>,
    r: Seq<StackVal>,
    lo: int,
    i: int,
    hi: int,
) -> int
    decreases hi,
{
    if hi <= 0 {
        0
    } else {
        dsum(m, roots, base, r, lo, i, hi - 1) + (if done_in(r, lo, hi - 1) && edge(m, hi - 1, i)
            && hi - 1 != i {
            val_at(m.outer@[hi - 1]@, i) * sval(m, roots, base, (hi - 1) as nat)
        } else {
            0
        })
    }
}

pub proof fn lemma_dsum_skip(
    m: CsMat,
    roots: Seq<Entry>,
    base: Seq<i64>,
    r: Seq<StackVal>,
    lo: int,
    i: int,
    hi: int,
    j0: int,
)
    requires
        0 <= lo < r.len(),
        stack_ind(r[lo]) == j0,
        !done_in(r, lo + 1, j0),
    ensures
        dsum(m, roots, base, r, lo, i, hi) == dsum(m, roots, base, r, lo + 1, i, hi) + (if j0 < hi
            && edge(m, j0, i) && j0 != i {
            val_at(m.outer@[j0]@, i) * sval(m, roots, base, j0 as nat)
        } else {
            0
        }),
    decreases hi,
{
    if hi > 0 {
        lemma_dsum_skip(m, roots, base, r, lo, i, hi - 1, j0);
        assert(done_in(r, lo, hi - 1) <==> (done_in(r, lo + 1, hi - 1) || hi - 1 == j0)) by {
            if done_in(r, lo, hi - 1) && hi - 1 != j0 {
                let p = choose|p: int| lo <= p < r.len() && stack_ind(#[trigger] r[p]) == hi - 1;
                assert(p != lo);
                assert(lo + 1 <= p);
                assert(done_in(r, lo + 1, hi - 1));
            }
            if done_in(r, lo + 1, hi - 1) {
                let p = choose|p: int|
                    lo + 1 <= p < r.len() && stack_ind(#[trigger] r[p]) == hi - 1;
                assert(lo <= p);
                assert(done_in(r, lo, hi - 1));
            }
            if hi - 1 == j0 {
                assert(stack_ind(r[lo]) == hi - 1);
                assert(done_in(r, lo, hi - 1));
            }
        }
    }
}

/// Walking the replayed suffix in stack order sums the same contributions
/// as walking the column indices in ascending order.
pub proof fn lemma_psum_dsum(
    m: CsMat,
    roots: Seq<Entry>,
    base: Seq<i64>,
    r: Seq<StackVal>,
    lo: int,
    i: int,
    n: int,
)
    requires
        0 <= lo <= r.len(),
        forall|p: int| 0 <= p < r.len() ==> 0 <= stack_ind(#[trigger] r[p]) < n,
        forall|p: int, q: int|
            0 <= p < q < r.len() ==> stack_ind(#[trigger] r[p]) != stack_ind(#[trigger] r[q]),
    ensures
        psum(m, roots, base, r, lo, i) == dsum(m, roots, base, r, lo, i, n),
    decreases r.len() - lo,
{
    if lo >= r.len() {
        assert forall|hi: int| 0 <= hi <= n implies dsum(m, roots, base, r, lo, i, hi) == 0 by {
            lemma_dsum_empty(m, roots, base, r, lo, i, hi);
        }
    } else {
        lemma_psum_dsum(m, roots, base, r, lo + 1, i, n);
        assert(!done_in(r, lo + 1, stack_ind(r[lo]))) by {
            if done_in(r, lo + 1, stack_ind(r[lo])) {
                let p = choose|p: int|
                    lo + 1 <= p < r.len() && stack_ind(#[trigger] r[p]) == stack_ind(r[lo]);
            }
        }
        lemma_dsum_skip(m, roots, base, r, lo, i, n, stack_ind(r[lo]));
    }
}

pub proof fn lemma_dsum_empty(
    m: CsMat,
    roots: Seq<Entry>,
    base: Seq<i64>,
    r: Seq<StackVal>,
    lo: int,
    i: int,
    hi: int,
)
    requires
        lo >= r.len(),
    ensures
        dsum(m, roots, base, r, lo, i, hi) == 0,
    decreases hi,
{
    if hi > 0 {
        lemma_dsum_empty(m, roots, base, r, lo, i, hi - 1);
        if done_in(r, lo, hi - 1) {
            let p = choose|p: int| lo <= p < r.len() && stack_ind(#[trigger] r[p]) == hi - 1;
        }
    }
}

/// Once every column feeding row `i` is in the replayed suffix, the
/// replayed contributions are exactly the contributions of the solution.
pub proof fn lemma_dsum_ssum(
    m: CsMat,
    roots: Seq<Entry>,
    base: Seq<i64>,
    r: Seq<StackVal>,
    lo: int,
    i: int,
    hi: int,
)
    requires
        m.wf(),
        m.storage == Storage::Csc,
        m.is_square(),
        lower_triangular(m),
        0 <= i < m.nrows,
        0 <= hi <= m.nrows,
        forall|p: int| 0 <= p < r.len() ==> 0 <= stack_ind(#[trigger] r[p]) < m.nrows,
        forall|j: int|
            0 <= j < i && #[trigger] edge(m, j, i) ==> (done_in(r, lo, j) <==> reachable(
                m,
                roots,
                j,
            )),
        forall|j: int| #[trigger] done_in(r, lo, j) ==> reachable(m, roots, j),
    ensures
        dsum(m, roots, base, r, lo, i, hi) == ssum(m, roots, base, i as nat, hi as nat),
    decreases hi,
{
    if hi > 0 {
        lemma_dsum_ssum(m, roots, base, r, lo, i, hi - 1);
        let j = hi - 1;
        if edge(m, j, i) && j != i {
            assert(j < i) by {
                let t = choose|t: int|
                    0 <= t < m.outer@[j]@.len() && (#[trigger] m.outer@[j]@[t]).ind == i;
                assert(m.outer@[j]@[t].ind >= j);
            }
            assert(done_in(r, lo, j) <==> reachable(m, roots, j));
        } else {
            if done_in(r, lo, j) && edge(m, j, i) && j == i {
            }
            if j < i && reachable(m, roots, j) && edge(m, j, i) {
                assert(j != i);
            }
        }
    }
}


/// Contributions from columns at or above the row vanish: the sum is
/// settled once the scan reaches the row itself.
pub proof fn lemma_ssum_upper(m: CsMat, roots: Seq<Entry>, base: Seq<i64>, i: nat, hi: nat)
    requires
        i <= hi,
    ensures
        ssum(m, roots, base, i, hi) == ssum(m, roots, base, i, i),
    decreases hi,
{
    if hi > i {
        lemma_ssum_upper(m, roots, base, i, (hi - 1) as nat);
    }
}

} // verus!
