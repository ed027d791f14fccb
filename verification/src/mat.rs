use vstd::prelude::*;

verus! {

/// Storage orientation of a compressed sparse matrix: row-major or
/// column-major.
#[derive(Clone, Copy, Debug, PartialEq, Eq, Structural)]
pub enum Storage {
    Csr,
    Csc,
}

/// One stored (inner index, value) pair of a sparse row or column.
#[derive(Clone, Copy, Debug, PartialEq, Eq, Structural)]
pub struct Entry {
    pub ind: usize,
    pub val: i64,
}

/// Sum of the values stored at inner index `j` in `es` (0 when nothing is
/// stored there; the single stored value when indices are unique).
pub open spec fn val_at(es: Seq<Entry>, j: int) -> int
    decreases es.len(),
{
    if es.len() == 0 {
        0
    } else {
        (if es.last().ind == j {
            es.last().val as int
        } else {
            0
        }) + val_at(es.drop_last(), j)
    }
}

/// Whether some entry of `es` has inner index `j`.
pub open spec fn has_ind(es: Seq<Entry>, j: int) -> bool {
    exists|k: int| 0 <= k < es.len() && es[k].ind == j
}

/// No two entries of `es` share an inner index.
pub open spec fn unique_inds(es: Seq<Entry>) -> bool {
    forall|p: int, q: int| 0 <= p < q < es.len() ==> es[p].ind != es[q].ind
}

/// Every inner index of `es` lies below `n`.
pub open spec fn inds_below(es: Seq<Entry>, n: int) -> bool {
    forall|k: int| 0 <= k < es.len() ==> (es[k].ind as int) < n
}

pub proof fn lemma_val_at_push(es: Seq<Entry>, e: Entry, j: int)
    ensures
        val_at(es.push(e), j) == val_at(es, j) + (if e.ind == j {
            e.val as int
        } else {
            0
        }),
{
    assert(es.push(e).drop_last() =~= es);
    assert(es.push(e).last() == e);
}

pub proof fn lemma_val_at_absent(es: Seq<Entry>, j: int)
    requires
        !has_ind(es, j),
    ensures
        val_at(es, j) == 0,
    decreases es.len(),
{
    if es.len() > 0 {
        assert(es[es.len() - 1] == es.last());
        assert(forall|k: int| 0 <= k < es.drop_last().len() ==> es.drop_last()[k] == es[k]);
        lemma_val_at_absent(es.drop_last(), j);
    }
}

/// With unique indices, the prefix before position `k` stores nothing at
/// `es[k]`'s index.
pub proof fn lemma_val_at_prefix_absent(es: Seq<Entry>, k: int)
    requires
        unique_inds(es),
        0 <= k < es.len(),
    ensures
        val_at(es.take(k), es[k].ind as int) == 0,
{
    assert(forall|p: int| 0 <= p < k ==> es.take(k)[p] == es[p]);
    assert(!has_ind(es.take(k), es[k].ind as int));
    lemma_val_at_absent(es.take(k), es[k].ind as int);
}

pub proof fn lemma_take_push(es: Seq<Entry>, k: int)
    requires
        0 <= k < es.len(),
    ensures
        es.take(k + 1) =~= es.take(k).push(es[k]),
{
}

/// An immutable square-or-rectangular compressed sparse matrix: for each
/// outer index (a row for `Csr`, a column for `Csc`) an unordered list of
/// (inner index, value) entries.
pub struct CsMat {
    pub storage: Storage,
    pub nrows: usize,
    pub ncols: usize,
    pub outer: Vec<Vec<Entry>>,
}

impl CsMat {
    pub open spec fn outer_len(self) -> int {
        if self.storage == Storage::Csr {
            self.nrows as int
        } else {
            self.ncols as int
        }
    }

    pub open spec fn inner_len(self) -> int {
        if self.storage == Storage::Csr {
            self.ncols as int
        } else {
            self.nrows as int
        }
    }

    /// Well-formed: one entry list per outer index, all inner indices in
    /// range, and no duplicate inner index within one outer list.
    pub open spec fn wf(self) -> bool {
        &&& self.outer@.len() == self.outer_len()
        &&& forall|k: int|
            0 <= k < self.outer@.len() ==> inds_below(#[trigger] self.outer@[k]@, self.inner_len())
        &&& forall|k: int| 0 <= k < self.outer@.len() ==> unique_inds(#[trigger] self.outer@[k]@)
    }

    /// The logical value stored at row `r`, column `c` (0 when absent).
    pub open spec fn ent(self, r: int, c: int) -> int
        recommends
            0 <= r < self.nrows,
            0 <= c < self.ncols,
    {
        if self.storage == Storage::Csr {
            val_at(self.outer@[r]@, c)
        } else {
            val_at(self.outer@[c]@, r)
        }
    }

    pub open spec fn is_square(self) -> bool {
        self.nrows == self.ncols
    }

    pub fn rows(&self) -> (r: usize)
        ensures
            r == self.nrows,
    {
        self.nrows
    }

    pub fn cols(&self) -> (r: usize)
        ensures
            r == self.ncols,
    {
        self.ncols
    }

    pub fn is_csr(&self) -> (r: bool)
        ensures
            r == (self.storage == Storage::Csr),
    {
        match self.storage {
            Storage::Csr => true,
            Storage::Csc => false,
        }
    }

    pub fn is_csc(&self) -> (r: bool)
        ensures
            r == (self.storage == Storage::Csc),
    {
        match self.storage {
            Storage::Csr => false,
            Storage::Csc => true,
        }
    }

    /// The entries of outer index `k`, when `k` is in range.
    pub fn outer_view(&self, k: usize) -> (r: Option<&Vec<Entry>>)
        ensures
            k < self.outer@.len() ==> (r matches Some(v) && v@ == self.outer@[k as int]@),
            k >= self.outer@.len() ==> r is None,
    {
        if k < self.outer.len() {
            Some(&self.outer[k])
        } else {
            None
        }
    }
}

/// A sparse vector: a list of (index, value) entries with strictly
/// ascending indices, all below `dim`.
pub struct CsVec {
    pub dim: usize,
    pub entries: Vec<Entry>,
}

impl CsVec {
    pub open spec fn wf(self) -> bool {
        &&& inds_below(self.entries@, self.dim as int)
        &&& forall|p: int, q: int|
            0 <= p < q < self.entries@.len() ==> self.entries@[p].ind < self.entries@[q].ind
    }

    pub open spec fn has(self, i: int) -> bool {
        has_ind(self.entries@, i)
    }

    pub open spec fn val(self, i: int) -> int {
        val_at(self.entries@, i)
    }

    pub proof fn lemma_wf_unique(self)
        requires
            self.wf(),
        ensures
            unique_inds(self.entries@),
    {
    }

    pub fn dim(&self) -> (r: usize)
        ensures
            r == self.dim,
    {
        self.dim
    }

    /// Write this vector's values into `buf` at their indices, leaving every
    /// other position untouched.
    #[verifier::loop_isolation(false)]
    pub fn scatter(&self, buf: &mut Vec<i64>)
        requires
            self.wf(),
            self.dim <= old(buf)@.len(),
        ensures
            final(buf)@.len() == old(buf)@.len(),
            forall|i: int|
                0 <= i < old(buf)@.len() ==> final(buf)@[i] == (if self.has(i) {
                    self.val(i)
                } else {
                    old(buf)@[i] as int
                }),
    {
        let ghost b0 = buf@;
        let mut k: usize = 0;
        while k < self.entries.len()
            invariant
                0 <= k <= self.entries@.len(),
                buf@.len() == b0.len(),
                forall|i: int|
                    0 <= i < b0.len() ==> buf@[i] == (if has_ind(self.entries@.take(k as int), i) {
                        val_at(self.entries@.take(k as int), i)
                    } else {
                        b0[i] as int
                    }),
            decreases self.entries@.len() - k,
        {
            let e = self.entries[k];
            let ghost bprev = buf@;
            let ind = e.ind;
            buf.set(ind, e.val);
            proof {
                self.lemma_wf_unique();
                lemma_take_push(self.entries@, k as int);
                lemma_val_at_prefix_absent(self.entries@, k as int);
                let tk = self.entries@.take(k as int);
                let tk1 = self.entries@.take(k as int + 1);
                assert forall|i: int| 0 <= i < b0.len() implies buf@[i] == (if has_ind(tk1, i) {
                    val_at(tk1, i)
                } else {
                    b0[i] as int
                }) by {
                    lemma_val_at_push(tk, e, i);
                    if i == e.ind as int {
                        assert(tk1[k as int].ind == i);
                        assert(has_ind(tk1, i));
                        assert(val_at(tk, i) == 0);
                        assert(buf@[i] == e.val as int);
                    } else {
                        assert(buf@[i] == bprev[i]);
                        if has_ind(tk1, i) {
                            let w = choose|w: int|
                                0 <= w < tk1.len() && (#[trigger] tk1[w]).ind == i;
                            assert(0 <= w < k as int && tk[w].ind == i);
                            assert(has_ind(tk, i));
                        } else {
                            assert(!has_ind(tk, i)) by {
                                if has_ind(tk, i) {
                                    let w = choose|w: int|
                                        0 <= w < tk.len() && (#[trigger] tk[w]).ind == i;
                                    assert(tk1[w].ind == i);
                                }
                            }
                        }
                    }
                }
            }
            k = k + 1;
        }
        proof {
            assert(self.entries@.take(self.entries@.len() as int) =~= self.entries@);
        }
    }
}

/// Check one outer list: all inner indices below `inner`, no duplicates.
#[verifier::loop_isolation(false)]
pub fn entries_ok(es: &Vec<Entry>, inner: usize) -> (b: bool)
    ensures
        b == (inds_below(es@, inner as int) && unique_inds(es@)),
{
    let mut k: usize = 0;
    while k < es.len()
        invariant
            0 <= k <= es@.len(),
            forall|p: int| 0 <= p < k ==> (#[trigger] es@[p]).ind < inner,
            forall|p: int, q: int| 0 <= p < q < k ==> es@[p].ind != es@[q].ind,
        decreases es@.len() - k,
    {
        if es[k].ind >= inner {
            return false;
        }
        let mut j: usize = 0;
        while j < k
            invariant
                0 <= j <= k < es@.len(),
                forall|p: int| 0 <= p < j ==> (#[trigger] es@[p]).ind != es@[k as int].ind,
            decreases k - j,
        {
            if es[j].ind == es[k].ind {
                return false;
            }
            j = j + 1;
        }
        k = k + 1;
    }
    true
}

impl CsMat {
    /// Build a row-major matrix from one entry list per row, validating
    /// well-formedness.
    #[verifier::loop_isolation(false)]
    pub fn new_csr(nrows: usize, ncols: usize, outer: Vec<Vec<Entry>>) -> (r: Option<CsMat>)
        ensures
            (r is Some) <==> (outer@.len() == nrows && (forall|k: int|
                0 <= k < outer@.len() ==> inds_below(#[trigger] outer@[k]@, ncols as int)
                    && unique_inds(outer@[k]@))),
            r matches Some(mm) ==> mm.storage == Storage::Csr && mm.nrows == nrows && mm.ncols
                == ncols && mm.outer@ == outer@ && mm.wf(),
    {
        if outer.len() != nrows {
            return None;
        }
        let mut k: usize = 0;
        while k < outer.len()
            invariant
                0 <= k <= outer@.len(),
                forall|p: int|
                    0 <= p < k ==> inds_below(#[trigger] outer@[p]@, ncols as int) && unique_inds(
                        outer@[p]@,
                    ),
            decreases outer@.len() - k,
        {
            if !entries_ok(&outer[k], ncols) {
                return None;
            }
            k = k + 1;
        }
        Some(CsMat { storage: Storage::Csr, nrows, ncols, outer })
    }

    /// Build a column-major matrix from one entry list per column,
    /// validating well-formedness.
    #[verifier::loop_isolation(false)]
    pub fn new_csc(nrows: usize, ncols: usize, outer: Vec<Vec<Entry>>) -> (r: Option<CsMat>)
        ensures
            (r is Some) <==> (outer@.len() == ncols && (forall|k: int|
                0 <= k < outer@.len() ==> inds_below(#[trigger] outer@[k]@, nrows as int)
                    && unique_inds(outer@[k]@))),
            r matches Some(mm) ==> mm.storage == Storage::Csc && mm.nrows == nrows && mm.ncols
                == ncols && mm.outer@ == outer@ && mm.wf(),
    {
        if outer.len() != ncols {
            return None;
        }
        let mut k: usize = 0;
        while k < outer.len()
            invariant
                0 <= k <= outer@.len(),
                forall|p: int|
                    0 <= p < k ==> inds_below(#[trigger] outer@[p]@, nrows as int) && unique_inds(
                        outer@[p]@,
                    ),
            decreases outer@.len() - k,
        {
            if !entries_ok(&outer[k], nrows) {
                return None;
            }
            k = k + 1;
        }
        Some(CsMat { storage: Storage::Csc, nrows, ncols, outer })
    }
}

impl CsVec {
    /// Build a sparse vector from parallel index and value lists; the
    /// indices must be strictly ascending and below `dim`.
    #[verifier::loop_isolation(false)]
    pub fn new(dim: usize, indices: Vec<usize>, data: Vec<i64>) -> (r: Option<CsVec>)
        ensures
            (r is Some) <==> (indices@.len() == data@.len() && (forall|k: int|
                0 <= k < indices@.len() ==> (#[trigger] indices@[k]) < dim) && (forall|
                p: int,
                q: int,
            |
                0 <= p < q < indices@.len() ==> indices@[p] < indices@[q])),
            r matches Some(v) ==> v.wf() && v.dim == dim && v.entries@.len() == indices@.len()
                && (forall|k: int|
                0 <= k < indices@.len() ==> (#[trigger] v.entries@[k]).ind == indices@[k]
                    && v.entries@[k].val == data@[k]),
    {
        if indices.len() != data.len() {
            return None;
        }
        let mut entries: Vec<Entry> = Vec::new();
        let mut k: usize = 0;
        while k < indices.len()
            invariant
                0 <= k <= indices@.len(),
                indices@.len() == data@.len(),
                entries@.len() == k,
                forall|p: int|
                    0 <= p < k ==> (#[trigger] entries@[p]).ind == indices@[p]
                        && entries@[p].val == data@[p],
                forall|p: int| 0 <= p < k ==> (#[trigger] indices@[p]) < dim,
                forall|p: int, q: int| 0 <= p < q < k ==> indices@[p] < indices@[q],
            decreases indices@.len() - k,
        {
            if indices[k] >= dim {
                return None;
            }
            if k > 0 && indices[k - 1] >= indices[k] {
                return None;
            }
            proof {
                assert forall|p: int| 0 <= p < k implies (#[trigger] indices@[p])
                    < indices@[k as int] by {
                    if p < k - 1 {
                        assert(indices@[p] < indices@[k as int - 1]);
                    }
                }
            }
            entries.push(Entry { ind: indices[k], val: data[k] });
            k = k + 1;
        }
        Some(CsVec { dim, entries })
    }
}

} // verus!
