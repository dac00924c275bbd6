use vstd::prelude::*;
use crate::relation::{
    closure, compose, image, lemma_closure_eq, lemma_closure_of_closed, lemma_compose_intro, lemma_closure_props, lemma_closure_within, reflexive_on,
    transitive, within,
};

verus! {

/// Sparse boolean matrix in compressed-row form; it holds the transitions
/// between the states of a finite automaton.
///
/// Row `i` owns the column indices `col_indx[row_ptr[i]..row_ptr[i + 1]]`,
/// kept strictly increasing, so every set of entries has exactly one
/// well-formed representation.
#[derive(Debug, PartialEq, Eq, Default)]
pub struct BoolMat {
    pub col_indx: Vec<usize>,
    pub row_ptr: Vec<usize>,
    pub shape: (usize, usize),
}

impl Clone for BoolMat {
    /// A copy with the same index arrays and shape.
    fn clone(&self) -> (r: Self)
        ensures
            r.col_indx@ == self.col_indx@,
            r.row_ptr@ == self.row_ptr@,
            r.shape == self.shape,
    {
        let col_indx = self.col_indx.clone();
        let row_ptr = self.row_ptr.clone();
        proof {
            assert(col_indx@ =~= self.col_indx@);
            assert(row_ptr@ =~= self.row_ptr@);
        }
        BoolMat { col_indx, row_ptr, shape: self.shape }
    }
}

/// Matrices with the same shape and index arrays are well formed together
/// and hold the same entries.
pub proof fn lemma_same_layout(a: BoolMat, b: BoolMat)
    requires
        a.shape == b.shape,
        a.col_indx@ == b.col_indx@,
        a.row_ptr@ == b.row_ptr@,
    ensures
        a.wf() == b.wf(),
        a.entries() == b.entries(),
{
    if a.wf() {
        lemma_same_layout_wf(a, b);
    }
    if b.wf() {
        lemma_same_layout_wf(b, a);
    }
    assert(a.entries() =~= b.entries());
}

proof fn lemma_same_layout_wf(a: BoolMat, b: BoolMat)
    requires
        a.shape == b.shape,
        a.col_indx@ == b.col_indx@,
        a.row_ptr@ == b.row_ptr@,
        a.wf(),
    ensures
        b.wf(),
{
    assert forall|i: int, j: int| 0 <= i <= j <= b.rows() implies #[trigger] b.start(i) <= #[trigger] b.start(j) by {
        assert(a.start(i) <= a.start(j));
    }
    assert forall|i: int| 0 <= i < b.rows() implies #[trigger] b.row_sorted(i) by {
        assert(a.row_sorted(i));
    }
}

impl BoolMat {
    /// Number of rows.
    pub open spec fn rows(self) -> int {
        self.shape.0 as int
    }

    /// Number of columns.
    pub open spec fn cols(self) -> int {
        self.shape.1 as int
    }

    /// Start of row `i` in `col_indx`.
    pub open spec fn start(self, i: int) -> int {
        self.row_ptr@[i] as int
    }

    /// The compressed-row layout is consistent and each row is strictly sorted.
    pub open spec fn wf(self) -> bool {
        &&& self.row_ptr@.len() == self.rows() + 1
        &&& self.start(0) == 0
        &&& self.start(self.rows()) == self.col_indx@.len()
        &&& forall|i: int, j: int|
            0 <= i <= j <= self.rows() ==> #[trigger] self.start(i) <= #[trigger] self.start(j)
        &&& forall|k: int| 0 <= k < self.col_indx@.len() ==> #[trigger] self.col_indx@[k] < self.cols()
        &&& forall|i: int| 0 <= i < self.rows() ==> #[trigger] self.row_sorted(i)
    }

    /// The columns stored for row `i` are strictly increasing.
    pub open spec fn row_sorted(self, i: int) -> bool {
        forall|k1: int, k2: int|
            self.start(i) <= k1 < k2 < self.start(i + 1)
                ==> #[trigger] self.col_indx@[k1] < #[trigger] self.col_indx@[k2]
    }

    /// Entry `(i, j)` is set.
    pub open spec fn has(self, i: int, j: int) -> bool {
        &&& 0 <= i < self.rows()
        &&& exists|k: int| self.start(i) <= k < self.start(i + 1) && #[trigger] self.col_indx@[k] == j
    }

    /// The set entries, as pairs `(row, column)`.
    pub open spec fn entries(self) -> Set<(int, int)> {
        Set::new(|p: (int, int)| self.has(p.0, p.1))
    }

    /// The matrix of the given shape whose set entries are the listed
    /// coordinates, or `None` when one of them lies outside the shape.
    pub fn from_coord(coords: Vec<(usize, usize)>, shape: (usize, usize)) -> (r: Option<Self>)
        requires
            shape.0 < usize::MAX,
        ensures
            r is None <==> exists|k: int|
                0 <= k < coords@.len() && (#[trigger] coords@[k].0 >= shape.0 || coords@[k].1 >= shape.1),
            r matches Some(m) ==> m.wf() && m.shape == shape && m.entries() == pair_set(coords@),
    {
        let mut k: usize = 0;
        while k < coords.len()
            invariant
                k <= coords@.len(),
                forall|q: int| 0 <= q < k ==> #[trigger] coords@[q].0 < shape.0 && coords@[q].1 < shape.1,
            decreases coords@.len() - k,
        {
            if coords[k].0 >= shape.0 || coords[k].1 >= shape.1 {
                return None;
            }
            k = k + 1;
        }
        let ghost input = coords@;
        let coords = sort_dedup_pairs(coords);
        let ghost ps = coords@;
        let ghost len = ps.len() as int;
        proof {
            assert forall|q: int| 0 <= q < len implies (#[trigger] ps[q]).0 < shape.0 && ps[q].1 < shape.1 by {
                assert(pair_set(ps).contains((ps[q].0 as int, ps[q].1 as int)));
                let i = choose|i: int| 0 <= i < input.len() && #[trigger] input[i].0 == ps[q].0 && input[i].1 == ps[q].1;
            }
        }
        let mut row_ptr: Vec<usize> = vec![0; shape.0 + 1];
        let mut col_indx: Vec<usize> = Vec::with_capacity(coords.len());
        let mut k: usize = 0;
        while k < coords.len()
            invariant
                ps == coords@,
                len == ps.len(),
                k <= len,
                pairs_sorted(ps),
                forall|q: int| 0 <= q < len ==> (#[trigger] ps[q]).0 < shape.0 && ps[q].1 < shape.1,
                row_ptr@.len() == shape.0 + 1,
                row_ptr@[0] == 0,
                forall|m: int| 0 <= m < shape.0 ==> #[trigger] row_ptr@[m + 1] == count_row(ps, m, k as int),
                col_indx@.len() == k,
                forall|q: int| 0 <= q < k ==> #[trigger] col_indx@[q] == ps[q].1,
            decreases len - k,
        {
            let (m, n) = coords[k];
            let ghost before = row_ptr@;
            proof {
                lemma_count_below_step(ps, m as int, k as int);
                lemma_count_below_step(ps, m + 1, k as int);
            }
            let c = row_ptr[m + 1];
            row_ptr.set(m + 1, c + 1);
            col_indx.push(n);
            proof {
                assert forall|mm: int| 0 <= mm < shape.0 implies #[trigger] row_ptr@[mm + 1] == count_row(ps, mm, k + 1) by {
                    assert(count_row(ps, mm, k + 1) == count_row(ps, mm, k as int) + if ps[k as int].0 == mm { 1nat } else { 0nat });
                    if mm != m {
                        assert(row_ptr@[mm + 1] == before[mm + 1]);
                    }
                }
            }
            k = k + 1;
        }
        proof {
            lemma_count_below_prefix(ps, 0, len);
            if count_below(ps, 0, len) > 0 {
                assert(ps[0].0 < 0);
            }
        }
        let mut m: usize = 0;
        while m < shape.0
            invariant
                len == ps.len(),
                len <= usize::MAX,
                m <= shape.0,
                pairs_sorted(ps),
                row_ptr@.len() == shape.0 + 1,
                forall|q: int| 0 <= q <= m ==> #[trigger] row_ptr@[q] == count_below(ps, q, len),
                forall|q: int| m <= q < shape.0 ==> #[trigger] row_ptr@[q + 1] == count_row(ps, q, len),
            decreases shape.0 - m,
        {
            proof {
                lemma_count_below_step(ps, m as int, len);
                lemma_count_below_step(ps, m + 1, len);
                if m == 0 {
                    lemma_count_below_prefix(ps, 0, len);
                }
            }
            let a = row_ptr[m];
            let b = row_ptr[m + 1];
            row_ptr.set(m + 1, a + b);
            m = m + 1;
        }
        let mat = BoolMat { col_indx, row_ptr, shape };
        proof {
            lemma_count_below_prefix(ps, 0, len);
            assert(mat.start(0) == count_below(ps, 0, len));
            if len > 0 {
                assert(!(ps[0].0 < 0));
            }
            assert forall|i: int| 0 <= i <= mat.rows() implies #[trigger] mat.start(i) == count_below(ps, i, len) by {}
            lemma_count_below_prefix(ps, shape.0 as int, len);
            if len > 0 {
                assert(ps[len - 1].0 < shape.0);
            }
            assert(mat.start(mat.rows()) == len);
            assert forall|q1: int, q2: int| 0 <= q1 <= q2 <= mat.rows() implies #[trigger] mat.start(q1)
                <= #[trigger] mat.start(q2) by {
                lemma_count_below_mono(ps, q1, q2, len);
            }
            assert forall|r: int| 0 <= r < mat.rows() implies #[trigger] mat.row_sorted(r) by {
                lemma_count_below_prefix(ps, r, len);
                lemma_count_below_prefix(ps, r + 1, len);
                assert forall|k1: int, k2: int| mat.start(r) <= k1 < k2 < mat.start(r + 1) implies #[trigger] mat.col_indx@[k1]
                    < #[trigger] mat.col_indx@[k2] by {
                    assert(lex_lt(ps[k1], ps[k2]));
                }
            }
            assert forall|q: int| 0 <= q < mat.col_indx@.len() implies #[trigger] mat.col_indx@[q] < mat.cols() by {
                assert(ps[q].1 < shape.1);
            }
            assert(mat.wf());
            assert forall|p: (int, int)| #[trigger] mat.entries().contains(p) == pair_set(ps).contains(p) by {
                if mat.has(p.0, p.1) {
                    let q = choose|q: int| mat.start(p.0) <= q < mat.start(p.0 + 1) && #[trigger] mat.col_indx@[q] == p.1;
                    lemma_count_below_prefix(ps, p.0, len);
                    lemma_count_below_prefix(ps, p.0 + 1, len);
                    assert(mat.start(p.0 + 1) <= len);
                    assert(ps[q].0 == p.0 && ps[q].1 == p.1);
                }
                if pair_set(ps).contains(p) {
                    let q = choose|q: int| 0 <= q < len && #[trigger] ps[q].0 == p.0 && ps[q].1 == p.1;
                    lemma_count_below_prefix(ps, p.0, len);
                    lemma_count_below_prefix(ps, p.0 + 1, len);
                    assert(mat.col_indx@[q] == p.1);
                    assert(mat.has(p.0, p.1));
                }
            }
            assert(mat.entries() =~= pair_set(input));
        }
        Some(mat)
    }

    /// The all-false matrix of shape `m x n`.
    pub fn zeros(m: usize, n: usize) -> (r: Self)
        requires
            m < usize::MAX,
        ensures
            r.wf(),
            r.shape == (m, n),
            r.entries() == Set::<(int, int)>::empty(),
            r.col_indx@.len() == 0,
    {
        let mut row_ptr: Vec<usize> = Vec::new();
        let mut i: usize = 0;
        while i <= m
            invariant
                i <= m + 1,
                m < usize::MAX,
                row_ptr@.len() == i,
                forall|k: int| 0 <= k < i ==> row_ptr@[k] == 0,
            decreases m + 1 - i,
        {
            row_ptr.push(0);
            i = i + 1;
        }
        let r = BoolMat { shape: (m, n), row_ptr, col_indx: Vec::new() };
        assert(r.entries() =~= Set::<(int, int)>::empty());
        r
    }

    /// The identity matrix of shape `n x n`.
    pub fn identity(n: usize) -> (r: Self)
        requires
            n < usize::MAX,
        ensures
            r.wf(),
            r.shape == (n, n),
            forall|i: int, j: int| r.has(i, j) <==> (0 <= i < n && i == j),
    {
        let mut col_indx: Vec<usize> = Vec::new();
        let mut row_ptr: Vec<usize> = Vec::new();
        let mut i: usize = 0;
        while i < n
            invariant
                i <= n,
                col_indx@.len() == i,
                row_ptr@.len() == i,
                forall|k: int| 0 <= k < i ==> col_indx@[k] == k && row_ptr@[k] == k,
            decreases n - i,
        {
            col_indx.push(i);
            row_ptr.push(i);
            i = i + 1;
        }
        row_ptr.push(n);
        let r = BoolMat { col_indx, row_ptr, shape: (n, n) };
        assert forall|i: int, j: int| r.has(i, j) <==> (0 <= i < n && i == j) by {
            if 0 <= i < n && i == j {
                assert(r.col_indx@[i] == j);
            }
        }
        r
    }

    /// Sets entry `(m, n)`; nothing changes where it is already set.
    #[verifier::rlimit(40)]
    pub fn insert(&mut self, m: usize, n: usize)
        requires
            old(self).wf(),
            m < old(self).shape.0,
            n < old(self).shape.1,
            old(self).col_indx@.len() < usize::MAX,
        ensures
            final(self).wf(),
            final(self).shape == old(self).shape,
            final(self).entries() == old(self).entries().insert((m as int, n as int)),
            final(self).col_indx@.len() == old(self).col_indx@.len() + if old(self).has(
                m as int,
                n as int,
            ) {
                0int
            } else {
                1int
            },
    {
        let ghost old_self = *self;
        let start = self.row_ptr[m];
        let end = self.row_ptr[m + 1];
        assert(old_self.start(m as int) <= old_self.start(m + 1));
        let mut k = start;
        while k < end
            invariant
                *self == old_self,
                old_self.wf(),
                m < old_self.shape.0,
                start == old_self.start(m as int),
                end == old_self.start(m + 1),
                start <= k <= end <= self.col_indx@.len(),
                forall|q: int| start <= q < k ==> self.col_indx@[q] != n,
            decreases end - k,
        {
            if self.col_indx[k] == n {
                assert(old_self.col_indx@[k as int] == n);
                assert(old_self.has(m as int, n as int));
                assert(old_self.entries().insert((m as int, n as int)) =~= old_self.entries());
                return ;
            }
            k = k + 1;
        }
        assert(!old_self.has(m as int, n as int));
        let mut insert_indx: usize = 0;
        while start + insert_indx < end && self.col_indx[start + insert_indx] < n
            invariant
                *self == old_self,
                old_self.wf(),
                start == old_self.start(m as int),
                end == old_self.start(m + 1),
                start <= end <= self.col_indx@.len(),
                start + insert_indx <= end,
                forall|q: int| start <= q < start + insert_indx ==> self.col_indx@[q] < n,
            decreases end - (start + insert_indx),
        {
            insert_indx = insert_indx + 1;
        }
        let p = start + insert_indx;
        assert(old_self.row_sorted(m as int));
        assert(forall|q: int| p <= q < end ==> self.col_indx@[q] > n) by {
            assert forall|q: int| p <= q < end implies self.col_indx@[q] > n by {
                if q > p {
                    assert(self.col_indx@[p as int] < self.col_indx@[q]);
                }
            }
        }
        self.col_indx.insert(p, n);
        let ghost new_col = self.col_indx@;
        assert(new_col == old_self.col_indx@.insert(p as int, n));
        let mut i = m + 1;
        while i < self.row_ptr.len()
            invariant
                self.col_indx@ == new_col,
                self.shape == old_self.shape,
                m + 1 <= i <= self.row_ptr@.len(),
                self.row_ptr@.len() == old_self.row_ptr@.len(),
                old_self.wf(),
                old_self.col_indx@.len() < usize::MAX,
                forall|q: int| 0 <= q <= m ==> self.row_ptr@[q] == old_self.row_ptr@[q],
                forall|q: int| m < q < i ==> self.row_ptr@[q] == old_self.row_ptr@[q] + 1,
                forall|q: int|
                    i <= q < self.row_ptr@.len() ==> self.row_ptr@[q] == old_self.row_ptr@[q],
            decreases self.row_ptr@.len() - i,
        {
            let v = self.row_ptr[i];
            assert(old_self.start(i as int) <= old_self.start(old_self.rows()));
            self.row_ptr.set(i, v + 1);
            i = i + 1;
        }
        let ghost ns = *self;
        let ghost mi = m as int;
        let ghost ni = n as int;
        assert(forall|q: int| 0 <= q <= mi ==> ns.start(q) == old_self.start(q));
        assert(forall|q: int| mi < q <= ns.rows() ==> ns.start(q) == old_self.start(q) + 1);
        // the new matrix is well formed
        assert forall|q1: int, q2: int| 0 <= q1 <= q2 <= ns.rows() implies #[trigger] ns.start(q1)
            <= #[trigger] ns.start(q2) by {
            assert(old_self.start(q1) <= old_self.start(q2));
        }
        assert forall|q: int| 0 <= q < ns.col_indx@.len() implies #[trigger] ns.col_indx@[q]
            < ns.cols() by {
            if q < p {
                assert(ns.col_indx@[q] == old_self.col_indx@[q]);
            } else if q > p {
                assert(ns.col_indx@[q] == old_self.col_indx@[q - 1]);
            }
        }
        assert forall|r: int| 0 <= r < ns.rows() implies #[trigger] ns.row_sorted(r) by {
            assert(old_self.row_sorted(r));
            assert forall|k1: int, k2: int|
                ns.start(r) <= k1 < k2 < ns.start(r + 1) implies #[trigger] ns.col_indx@[k1]
                < #[trigger] ns.col_indx@[k2] by {
                if r < mi {
                    assert(old_self.start(r + 1) <= old_self.start(mi));
                } else if r > mi {
                    assert(ns.col_indx@[k1] == old_self.col_indx@[k1 - 1]);
                    assert(ns.col_indx@[k2] == old_self.col_indx@[k2 - 1]);
                } else {
                    if k2 < p {
                    } else if k2 == p {
                    } else if k1 < p {
                        assert(ns.col_indx@[k2] == old_self.col_indx@[k2 - 1]);
                    } else if k1 == p {
                        assert(ns.col_indx@[k2] == old_self.col_indx@[k2 - 1]);
                    } else {
                        assert(ns.col_indx@[k1] == old_self.col_indx@[k1 - 1]);
                        assert(ns.col_indx@[k2] == old_self.col_indx@[k2 - 1]);
                    }
                }
            }
        }
        assert(ns.wf());
        // the entries grow by exactly (m, n)
        assert forall|r: int, c: int| ns.has(r, c) <==> (old_self.has(r, c) || (r == mi && c == ni)) by {
            if ns.has(r, c) {
                let k = choose|k: int| ns.start(r) <= k < ns.start(r + 1) && #[trigger] ns.col_indx@[k] == c;
                if r < mi {
                    assert(old_self.start(r + 1) <= old_self.start(mi));
                    assert(old_self.col_indx@[k] == c);
                } else if r > mi {
                    assert(old_self.start(r) >= old_self.start(mi + 1));
                    assert(old_self.col_indx@[k - 1] == c);
                } else if k < p {
                    assert(old_self.col_indx@[k] == c);
                } else if k > p {
                    assert(old_self.col_indx@[k - 1] == c);
                }
            }
            if old_self.has(r, c) {
                let k = choose|k: int| old_self.start(r) <= k < old_self.start(r + 1) && #[trigger] old_self.col_indx@[k] == c;
                if r < mi {
                    assert(old_self.start(r + 1) <= old_self.start(mi));
                    assert(ns.col_indx@[k] == c);
                } else if r > mi {
                    assert(old_self.start(r) >= old_self.start(mi + 1));
                    assert(ns.col_indx@[k + 1] == c);
                } else if k < p {
                    assert(ns.col_indx@[k] == c);
                } else {
                    assert(ns.col_indx@[k + 1] == c);
                }
            }
            if r == mi && c == ni {
                assert(ns.col_indx@[p as int] == c);
            }
        }
        assert(ns.entries() =~= old_self.entries().insert((mi, ni)));
    }

    /// Adds a new first row and a new first column, both empty; every entry
    /// `(i, j)` moves to `(i + 1, j + 1)`.
    pub fn kleene_shift(&mut self)
        requires
            old(self).wf(),
            old(self).shape.0 + 2 < usize::MAX,
            old(self).shape.1 + 1 <= usize::MAX,
        ensures
            final(self).wf(),
            final(self).rows() == old(self).rows() + 1,
            final(self).cols() == old(self).cols() + 1,
            final(self).entries() == shift_pairs(old(self).entries(), 1),
            final(self).col_indx@.len() == old(self).col_indx@.len(),
    {
        let ghost os = *self;
        self.shape = (self.shape.0 + 1, self.shape.1 + 1);
        offset_values(&mut self.col_indx, 1);
        self.row_ptr.insert(0, 0);
        proof {
            lemma_shifted(os, *self, 1);
        }
    }

    /// Adds `n` new empty rows and columns in front; every entry `(i, j)` moves
    /// to `(i + n, j + n)`.
    pub fn shift_by(&mut self, n: usize)
        requires
            old(self).wf(),
            old(self).shape.0 + n + 1 < usize::MAX,
            old(self).shape.1 + n <= usize::MAX,
        ensures
            final(self).wf(),
            final(self).rows() == old(self).rows() + n,
            final(self).cols() == old(self).cols() + n,
            final(self).entries() == shift_pairs(old(self).entries(), n as int),
            final(self).col_indx@.len() == old(self).col_indx@.len(),
    {
        let ghost os = *self;
        self.shape = (self.shape.0 + n, self.shape.1 + n);
        offset_values(&mut self.col_indx, n);
        let mut row_ptr: Vec<usize> = Vec::new();
        let mut i: usize = 0;
        while i < n
            invariant
                i <= n,
                row_ptr@.len() == i,
                forall|q: int| 0 <= q < i ==> row_ptr@[q] == 0,
            decreases n - i,
        {
            row_ptr.push(0);
            i = i + 1;
        }
        let mut k: usize = 0;
        while k < self.row_ptr.len()
            invariant
                k <= self.row_ptr@.len(),
                self.row_ptr@ == os.row_ptr@,
                row_ptr@.len() == n + k,
                forall|q: int| 0 <= q < n ==> row_ptr@[q] == 0,
                forall|q: int| 0 <= q < k ==> row_ptr@[n + q] == os.row_ptr@[q],
            decreases self.row_ptr@.len() - k,
        {
            row_ptr.push(self.row_ptr[k]);
            k = k + 1;
        }
        self.row_ptr = row_ptr;
        proof {
            lemma_shifted(os, *self, n as int);
        }
    }

    /// The entries of a well-formed matrix lie inside its shape.
    pub proof fn lemma_entries_within(self)
        requires
            self.wf(),
        ensures
            within(self.entries(), self.rows(), self.cols()),
    {
        assert forall|p: (int, int)| #[trigger] self.entries().contains(p) implies 0 <= p.0 < self.rows()
            && 0 <= p.1 < self.cols() by {
            let k = choose|k: int| self.start(p.0) <= k < self.start(p.0 + 1) && #[trigger] self.col_indx@[k] == p.1;
            assert(self.start(p.0 + 1) <= self.start(self.rows()));
        }
    }

    /// A well-formed matrix stores at most `rows * cols` entries.
    pub proof fn lemma_len_bound(self)
        requires
            self.wf(),
        ensures
            self.col_indx@.len() <= self.rows() * self.cols(),
    {
        self.lemma_entries_within();
        self.lemma_len_within(self.entries(), self.cols());
    }

    /// A well-formed matrix whose entries all lie in columns below `d`
    /// stores at most `rows * d` entries.
    pub proof fn lemma_len_within(self, r: Set<(int, int)>, d: int)
        requires
            self.wf(),
            0 <= d,
            self.entries().subset_of(r),
            within(r, self.rows(), d),
        ensures
            self.col_indx@.len() <= self.rows() * d,
    {
        assert forall|i: int, j: int| #[trigger] self.has(i, j) implies j < d by {
            assert(self.entries().contains((i, j)));
            assert(r.contains((i, j)));
        }
        self.lemma_start_bound(self.rows(), d);
    }

    proof fn lemma_start_bound(self, i: int, d: int)
        requires
            self.wf(),
            0 <= i <= self.rows(),
            0 <= d,
            forall|i2: int, j: int| #[trigger] self.has(i2, j) ==> j < d,
        ensures
            self.start(i) <= i * d,
        decreases i,
    {
        if i > 0 {
            self.lemma_start_bound(i - 1, d);
            self.lemma_row_len(i - 1, d);
            assert(i * d == (i - 1) * d + d) by (nonlinear_arith);
        }
    }

    /// A row holds at most `d` entries when every column is below `d`.
    proof fn lemma_row_len(self, i: int, d: int)
        requires
            self.wf(),
            0 <= i < self.rows(),
            0 <= d,
            forall|i2: int, j: int| #[trigger] self.has(i2, j) ==> j < d,
        ensures
            self.start(i + 1) - self.start(i) <= d,
    {
        assert(self.start(i) <= self.start(i + 1));
        assert(self.start(i + 1) <= self.start(self.rows()));
        let a = self.start(i);
        let b = self.start(i + 1);
        if b > a {
            self.lemma_sorted_row_grows(i, b - a - 1);
            assert(self.has(i, self.col_indx@[b - 1] as int));
        }
    }

    proof fn lemma_sorted_row_grows(self, i: int, t: int)
        requires
            self.wf(),
            0 <= i < self.rows(),
            0 <= t < self.start(i + 1) - self.start(i),
        ensures
            self.col_indx@[self.start(i) + t] >= t,
        decreases t,
    {
        if t > 0 {
            self.lemma_sorted_row_grows(i, t - 1);
            assert(self.row_sorted(i));
            assert(self.col_indx@[self.start(i) + t - 1] < self.col_indx@[self.start(i) + t]);
        }
    }

    /// Extends the matrix to its reflexive-transitive closure on the states
    /// `0 .. min(rows, cols)`: afterwards `(i, j)` is set exactly when `i == j`
    /// or `j` can be reached from `i` through set entries.
    pub fn close_epsilon(&mut self)
        requires
            old(self).wf(),
            forall|i: int, j: int| old(self).has(i, j) ==> j < old(self).rows(),
            old(self).rows() * min_int(old(self).rows(), old(self).cols()) < usize::MAX,
        ensures
            final(self).wf(),
            final(self).shape == old(self).shape,
            final(self).entries() == closure(
                old(self).entries(),
                min_int(old(self).rows(), old(self).cols()),
            ),
    {
        let ghost g = self.entries();
        let ghost d = min_int(self.rows(), self.cols());
        let ghost c = closure(g, d);
        let ghost rc = self.rows() * d;
        proof {
            lemma_closure_props(g, d);
            assert(within(g, self.rows(), d)) by {
                assert forall|p: (int, int)| #[trigger] g.contains(p) implies 0 <= p.0 < self.rows()
                    && 0 <= p.1 < d by {
                    let k = choose|k: int|
                        self.start(p.0) <= k < self.start(p.0 + 1) && #[trigger] self.col_indx@[k] == p.1;
                    assert(self.start(p.0 + 1) <= self.start(self.rows()));
                }
            }
            lemma_closure_within(g, self.rows(), d);
        }
        let dd = if self.shape.0 < self.shape.1 { self.shape.0 } else { self.shape.1 };
        let mut i: usize = 0;
        while i < dd
            invariant
                self.wf(),
                self.shape == old(self).shape,
                dd == d,
                d == min_int(self.rows(), self.cols()),
                c == closure(g, d),
                i <= dd,
                rc == self.rows() * d,
                rc < usize::MAX,
                forall|p: (int, int)| #[trigger] g.contains(p) ==> self.entries().contains(p),
                self.entries().subset_of(c),
                forall|q: int| 0 <= q < i ==> #[trigger] self.entries().contains((q, q)),
                reflexive_on(c, d),
                within(c, self.rows(), d),
                0 <= d,
            decreases dd - i,
        {
            proof {
                self.lemma_len_within(c, d);
            }
            self.insert(i, i);
            i = i + 1;
        }
        loop
            invariant
                self.wf(),
                self.shape == old(self).shape,
                rc == self.rows() * d,
                rc < usize::MAX,
                d == min_int(self.rows(), self.cols()),
                c == closure(g, d),
                g == old(self).entries(),
                forall|p: (int, int)| #[trigger] g.contains(p) ==> self.entries().contains(p),
                self.entries().subset_of(c),
                reflexive_on(self.entries(), d),
                transitive(c),
                reflexive_on(c, d),
                within(c, self.rows(), d),
                d <= self.rows(),
                d <= self.cols(),
            ensures
                self.wf(),
                self.shape == old(self).shape,
                self.entries() == c,
            decreases rc - self.col_indx@.len(),
        {
            proof {
                self.lemma_len_within(c, d);
            }
            let prev_len = self.col_indx.len();
            let ghost e0 = self.entries();
            assert forall|i: int, j: int| self.has(i, j) implies j < self.rows() by {
                assert(self.entries().contains((i, j)));
            }
            let insertions = self.compositions();
            assert(compose(e0).subset_of(c)) by {
                assert forall|p: (int, int)| #[trigger] compose(e0).contains(p) implies c.contains(p) by {
                    let b = choose|b: int| #![trigger e0.contains((p.0, b)), e0.contains((b, p.1))]
                        e0.contains((p.0, b)) && e0.contains((b, p.1));
                    assert(c.contains((p.0, b)) && c.contains((b, p.1)));
                }
            }
            let mut k: usize = 0;
            while k < insertions.len()
                invariant
                    self.wf(),
                    self.shape == old(self).shape,
                    rc == self.rows() * d,
                    rc < usize::MAX,
                    0 <= k <= insertions@.len(),
                    pair_set(insertions@) == compose(e0),
                    compose(e0).subset_of(c),
                    within(c, self.rows(), d),
                    d <= self.cols(),
                    e0.subset_of(c),
                    self.entries() == e0.union(pair_set(insertions@.take(k as int))),
                    self.col_indx@.len() >= prev_len,
                    self.col_indx@.len() == prev_len ==> self.entries() == e0,
                decreases insertions@.len() - k,
            {
                let (a, b) = insertions[k];
                assert(pair_set(insertions@).contains((a as int, b as int)));
                assert(c.contains((a as int, b as int)));
                proof {
                    self.lemma_len_within(c, d);
                }
                let ghost before = self.entries();
                self.insert(a, b);
                proof {
                    assert(pair_set(insertions@.take(k + 1)) =~= pair_set(insertions@.take(k as int)).insert(
                        (a as int, b as int),
                    )) by {
                        assert(insertions@.take(k + 1) =~= insertions@.take(k as int).push((a, b)));
                        assert forall|p: (int, int)| #[trigger] pair_set(insertions@.take(k + 1)).contains(
                            p,
                        ) implies pair_set(insertions@.take(k as int)).insert((a as int, b as int)).contains(
                            p,
                        ) by {
                            let q = choose|q: int|
                                0 <= q < insertions@.take(k + 1).len()
                                    && #[trigger] insertions@.take(k + 1)[q].0 == p.0
                                    && insertions@.take(k + 1)[q].1 == p.1;
                            if q < k {
                                assert(insertions@.take(k as int)[q] == insertions@.take(k + 1)[q]);
                            }
                        }
                        assert forall|p: (int, int)|
                            #[trigger] pair_set(insertions@.take(k as int)).insert(
                                (a as int, b as int),
                            ).contains(p) implies pair_set(insertions@.take(k + 1)).contains(p) by {
                            if p == (a as int, b as int) {
                                assert(insertions@.take(k + 1)[k as int] == (a, b));
                            } else {
                                let q = choose|q: int|
                                    0 <= q < insertions@.take(k as int).len()
                                        && #[trigger] insertions@.take(k as int)[q].0 == p.0
                                        && insertions@.take(k as int)[q].1 == p.1;
                                assert(insertions@.take(k + 1)[q] == insertions@.take(k as int)[q]);
                            }
                        }
                    }
                    assert(self.entries() =~= e0.union(pair_set(insertions@.take(k + 1))));
                }
                k = k + 1;
            }
            assert(insertions@.take(insertions@.len() as int) =~= insertions@);
            if self.col_indx.len() == prev_len {
                proof {
                    assert(compose(e0).subset_of(e0));
                    assert(transitive(e0)) by {
                        assert forall|a: int, b: int, x: int|
                            #![trigger e0.contains((a, b)), e0.contains((b, x))]
                            e0.contains((a, b)) && e0.contains((b, x)) implies e0.contains((a, x)) by {
                            assert(compose(e0).contains((a, x)));
                        }
                    }
                    lemma_closure_eq(g, d, e0);
                }
                break;
            }
            proof {
                self.lemma_len_within(c, d);
                assert forall|p: (int, int)| #[trigger] c.contains(p) implies 0 <= p.0 < self.rows() by {}
            }
        }
    }

    /// Every pair `(m, n)` with some `x` such that `(m, x)` and `(x, n)` are
    /// set, each listed once.
    fn compositions(&self) -> (r: Vec<(usize, usize)>)
        requires
            self.wf(),
            forall|i: int, j: int| self.has(i, j) ==> j < self.rows(),
        ensures
            pair_set(r@) == compose(self.entries()),
    {
        let ghost e = self.entries();
        let mut res: Vec<(usize, usize)> = Vec::new();
        let mut m: usize = 0;
        while m < self.shape.0
            invariant
                self.wf(),
                forall|i: int, j: int| self.has(i, j) ==> j < self.rows(),
                e == self.entries(),
                m <= self.rows(),
                pair_set(res@).subset_of(compose(e)),
                forall|p: (int, int)| #[trigger] compose(e).contains(p) && p.0 < m ==> pair_set(res@).contains(p),
            decreases self.rows() - m,
        {
            assert(self.start(m as int) <= self.start(m + 1));
            assert(self.start(m + 1) <= self.start(self.rows()));
            let mut k = self.row_ptr[m];
            while k < self.row_ptr[m + 1]
                invariant
                    self.wf(),
                    forall|i: int, j: int| self.has(i, j) ==> j < self.rows(),
                    e == self.entries(),
                    m < self.rows(),
                    self.start(m as int) <= k <= self.start(m + 1) <= self.col_indx@.len(),
                    pair_set(res@).subset_of(compose(e)),
                    forall|p: (int, int)| #[trigger] compose(e).contains(p) && p.0 < m ==> pair_set(res@).contains(p),
                    forall|k2: int, n: int|
                        self.start(m as int) <= k2 < k && #[trigger] e.contains((self.col_indx@[k2] as int, n))
                            ==> pair_set(res@).contains((m as int, n)),
                decreases self.start(m + 1) - k,
            {
                let x = self.col_indx[k];
                assert(self.has(m as int, x as int));
                assert(x < self.rows());
                assert(self.start(x as int) <= self.start(x + 1));
                assert(self.start(x + 1) <= self.start(self.rows()));
                let mut q = self.row_ptr[x];
                while q < self.row_ptr[x + 1]
                    invariant
                        self.wf(),
                        forall|i: int, j: int| self.has(i, j) ==> j < self.rows(),
                        e == self.entries(),
                        m < self.rows(),
                        x < self.rows(),
                        self.start(m as int) <= k < self.start(m + 1) <= self.col_indx@.len(),
                        x == self.col_indx@[k as int],
                        self.start(x as int) <= q <= self.start(x + 1) <= self.col_indx@.len(),
                        pair_set(res@).subset_of(compose(e)),
                        forall|p: (int, int)| #[trigger] compose(e).contains(p) && p.0 < m ==> pair_set(res@).contains(p),
                        forall|k2: int, n: int|
                            self.start(m as int) <= k2 < k && #[trigger] e.contains((self.col_indx@[k2] as int, n))
                                ==> pair_set(res@).contains((m as int, n)),
                        forall|q2: int|
                            self.start(x as int) <= q2 < q ==> pair_set(res@).contains(
                                (m as int, #[trigger] self.col_indx@[q2] as int),
                            ),
                    decreases self.start(x + 1) - q,
                {
                    let n = self.col_indx[q];
                    assert(self.col_indx@[k as int] == x);
                    assert(self.has(m as int, x as int));
                    assert(self.has(x as int, n as int));
                    assert(e.contains((m as int, x as int)) && e.contains((x as int, n as int)));
                    proof {
                        lemma_compose_intro(e, m as int, x as int, n as int);
                    }
                    if !contains_pair(&res, m, n) {
                        let ghost old_res = res@;
                        res.push((m, n));
                        proof {
                            lemma_pair_set_push(old_res, (m, n));
                        }
                    }
                    assert(pair_set(res@).contains((m as int, n as int)));
                    q = q + 1;
                }
                assert forall|k2: int, n: int|
                    self.start(m as int) <= k2 < k + 1 && #[trigger] e.contains((self.col_indx@[k2] as int, n))
                        implies pair_set(res@).contains((m as int, n)) by {
                    if k2 == k {
                        let q2 = choose|q2: int|
                            self.start(x as int) <= q2 < self.start(x + 1) && #[trigger] self.col_indx@[q2] == n;
                        assert(pair_set(res@).contains((m as int, self.col_indx@[q2] as int)));
                    }
                }
                k = k + 1;
            }
            assert forall|p: (int, int)| #[trigger] compose(e).contains(p) && p.0 < m + 1 implies pair_set(
                res@,
            ).contains(p) by {
                if p.0 == m {
                    let b = choose|b: int| #![trigger e.contains((p.0, b)), e.contains((b, p.1))]
                        e.contains((p.0, b)) && e.contains((b, p.1));
                    let k2 = choose|k2: int|
                        self.start(m as int) <= k2 < self.start(m + 1) && #[trigger] self.col_indx@[k2] == b;
                    assert(e.contains((self.col_indx@[k2] as int, p.1)));
                }
            }
            m = m + 1;
        }
        assert forall|p: (int, int)| #[trigger] compose(e).contains(p) implies pair_set(res@).contains(p) by {
            let b = choose|b: int| #![trigger e.contains((p.0, b)), e.contains((b, p.1))]
                e.contains((p.0, b)) && e.contains((b, p.1));
            assert(self.has(p.0, b));
        }
        assert(pair_set(res@) =~= compose(e));
        res
    }
}

/// Sparse boolean vector; it holds the active states of an automaton.
///
/// `val_indx` lists the set positions, strictly increasing, each below `len`.
#[derive(Debug, Default)]
pub struct BoolVec {
    pub len: usize,
    pub val_indx: Vec<usize>,
}

impl Clone for BoolVec {
    /// A copy with the same length and positions.
    fn clone(&self) -> (r: Self)
        ensures
            r.len == self.len,
            r.val_indx@ == self.val_indx@,
    {
        let val_indx = self.val_indx.clone();
        proof {
            assert(val_indx@ =~= self.val_indx@);
        }
        BoolVec { len: self.len, val_indx }
    }
}

impl BoolVec {
    /// The positions are strictly increasing and below `len`.
    pub open spec fn wf(self) -> bool {
        &&& strictly_sorted(self.val_indx@)
        &&& forall|k: int| 0 <= k < self.val_indx@.len() ==> #[trigger] self.val_indx@[k] < self.len
    }

    /// The set positions.
    pub open spec fn entries(self) -> Set<int> {
        seq_set(self.val_indx@)
    }

    /// The vector of length `len` whose set positions are those listed in
    /// `val_indx`, or `None` when one of them is not below `len`.
    pub fn from_indices(val_indx: Vec<usize>, len: usize) -> (r: Option<Self>)
        ensures
            r is None <==> exists|k: int| 0 <= k < val_indx@.len() && #[trigger] val_indx@[k] >= len,
            r matches Some(v) ==> v.wf() && v.len == len && v.entries() == seq_set(val_indx@),
    {
        let ghost input = val_indx@;
        let val_indx = sort_dedup(val_indx);
        if val_indx.len() > 0 {
            let m = val_indx[val_indx.len() - 1];
            if m >= len {
                proof {
                    assert(seq_set(val_indx@).contains(m as int));
                    let k = choose|k: int| 0 <= k < input.len() && #[trigger] input[k] == m as int;
                }
                return None;
            }
        }
        proof {
            assert forall|k: int| 0 <= k < val_indx@.len() implies #[trigger] val_indx@[k] < len by {
                if k < val_indx@.len() - 1 {
                    assert(val_indx@[k] < val_indx@[val_indx@.len() - 1]);
                }
            }
            assert forall|k: int| 0 <= k < input.len() implies #[trigger] input[k] < len by {
                assert(seq_set(input).contains(input[k] as int));
                let q = choose|q: int| 0 <= q < val_indx@.len() && #[trigger] val_indx@[q] == input[k] as int;
            }
        }
        Some(BoolVec { len, val_indx })
    }

    /// Adds a new first position, unset; every set position `i` moves to `i + 1`.
    pub fn kleene_shift(&mut self)
        requires
            old(self).wf(),
            old(self).len < usize::MAX,
        ensures
            final(self).wf(),
            final(self).len == old(self).len + 1,
            final(self).entries() == shift_set(old(self).entries(), 1),
    {
        let ghost os = *self;
        self.len = self.len + 1;
        offset_values(&mut self.val_indx, 1);
        proof {
            lemma_offset_entries(os.val_indx@, self.val_indx@, 1);
        }
    }

    /// Replaces the set positions by those listed in `val_indx`.
    pub fn set_indices(&mut self, val_indx: Vec<usize>)
        requires
            forall|k: int| 0 <= k < val_indx@.len() ==> #[trigger] val_indx@[k] < old(self).len,
            val_indx@.len() == 0 ==> old(self).len > 0,
        ensures
            final(self).wf(),
            final(self).len == old(self).len,
            final(self).entries() == seq_set(val_indx@),
    {
        let ghost input = val_indx@;
        let val_indx = sort_dedup(val_indx);
        proof {
            assert forall|k: int| 0 <= k < val_indx@.len() implies #[trigger] val_indx@[k] < self.len by {
                assert(seq_set(val_indx@).contains(val_indx@[k] as int));
                let q = choose|q: int| 0 <= q < input.len() && #[trigger] input[q] == val_indx@[k] as int;
            }
        }
        self.val_indx = val_indx;
    }

    /// The states reached from the set positions by one entry of `mat`, or
    /// `None` when the vector's length differs from the matrix's row count.
    pub fn mul(&self, mat: &BoolMat) -> (r: Option<BoolVec>)
        requires
            self.wf(),
            mat.wf(),
        ensures
            r is None <==> self.len != mat.shape.0,
            r matches Some(v) ==> v.wf() && v.len == mat.shape.1 && v.entries() == image(
                self.entries(),
                mat.entries(),
            ),
    {
        if self.len != mat.shape.0 {
            return None;
        }
        let ghost e = mat.entries();
        let mut vals: Vec<usize> = Vec::new();
        let mut k: usize = 0;
        while k < self.val_indx.len()
            invariant
                self.wf(),
                mat.wf(),
                e == mat.entries(),
                self.len == mat.shape.0,
                k <= self.val_indx@.len(),
                seq_set(vals@) == image(seq_set(self.val_indx@.take(k as int)), e),
                forall|q: int| 0 <= q < vals@.len() ==> #[trigger] vals@[q] < mat.cols(),
            decreases self.val_indx@.len() - k,
        {
            let row = self.val_indx[k];
            assert(mat.start(row as int) <= mat.start(row + 1) <= mat.start(mat.rows()));
            let start = mat.row_ptr[row];
            let end = mat.row_ptr[row + 1];
            let ghost before = image(seq_set(self.val_indx@.take(k as int)), e);
            let mut q = start;
            while q < end
                invariant
                    mat.wf(),
                    e == mat.entries(),
                    row < mat.rows(),
                    start == mat.start(row as int),
                    end == mat.start(row + 1),
                    start <= q <= end <= mat.col_indx@.len(),
                    seq_set(vals@) == before.union(
                        Set::new(|j: int| exists|q2: int| start <= q2 < q && #[trigger] mat.col_indx@[q2] == j),
                    ),
                    forall|q: int| 0 <= q < vals@.len() ==> #[trigger] vals@[q] < mat.cols(),
                decreases end - q,
            {
                let ghost old_vals = vals@;
                vals.push(mat.col_indx[q]);
                proof {
                    lemma_seq_set_push(old_vals, mat.col_indx@[q as int]);
                    assert(seq_set(vals@) =~= before.union(
                        Set::new(|j: int| exists|q2: int| start <= q2 < q + 1 && #[trigger] mat.col_indx@[q2] == j),
                    )) by {
                        assert(mat.col_indx@[q as int] == mat.col_indx@[q as int]);
                    }
                }
                q = q + 1;
            }
            proof {
                let rows_set = Set::new(|j: int| exists|q2: int| start <= q2 < end && #[trigger] mat.col_indx@[q2] == j);
                assert(self.val_indx@.take(k + 1) =~= self.val_indx@.take(k as int).push(row));
                lemma_seq_set_push(self.val_indx@.take(k as int), row);
                assert forall|j: int| #[trigger] image(seq_set(self.val_indx@.take(k + 1)), e).contains(j)
                    <==> before.union(rows_set).contains(j) by {
                    if image(seq_set(self.val_indx@.take(k + 1)), e).contains(j) {
                        let i = choose|i: int| #![trigger e.contains((i, j))]
                            seq_set(self.val_indx@.take(k + 1)).contains(i) && e.contains((i, j));
                        if i == row {
                            let q2 = choose|q2: int| mat.start(i) <= q2 < mat.start(i + 1) && #[trigger] mat.col_indx@[q2] == j;
                            assert(rows_set.contains(j));
                        } else {
                            assert(seq_set(self.val_indx@.take(k as int)).contains(i));
                            assert(before.contains(j));
                        }
                    }
                    if rows_set.contains(j) {
                        let q2 = choose|q2: int| start <= q2 < end && #[trigger] mat.col_indx@[q2] == j;
                        assert(mat.has(row as int, j));
                        assert(e.contains((row as int, j)));
                        assert(seq_set(self.val_indx@.take(k + 1)).contains(row as int));
                    }
                    if before.contains(j) {
                        let i = choose|i: int| #![trigger e.contains((i, j))]
                            seq_set(self.val_indx@.take(k as int)).contains(i) && e.contains((i, j));
                        assert(seq_set(self.val_indx@.take(k + 1)).contains(i));
                    }
                }
                assert(image(seq_set(self.val_indx@.take(k + 1)), e) =~= before.union(rows_set));
            }
            k = k + 1;
        }
        assert(self.val_indx@.take(self.val_indx@.len() as int) =~= self.val_indx@);
        let ghost unsorted = vals@;
        let vals = sort_dedup(vals);
        proof {
            assert forall|q: int| 0 <= q < vals@.len() implies #[trigger] vals@[q] < mat.shape.1 by {
                assert(seq_set(vals@).contains(vals@[q] as int));
                let q2 = choose|q2: int| 0 <= q2 < unsorted.len() && #[trigger] unsorted[q2] == vals@[q] as int;
            }
        }
        Some(BoolVec { len: mat.shape.1, val_indx: vals })
    }

    /// The same vector with position `0` set as well.
    pub(crate) fn with_zero(&self) -> (r: BoolVec)
        requires
            self.wf(),
            self.len > 0,
        ensures
            r.wf(),
            r.len == self.len,
            r.entries() == self.entries().insert(0),
    {
        let ghost old_v = self.val_indx@;
        let mut v: Vec<usize> = Vec::new();
        let mut k: usize = 0;
        while k < self.val_indx.len()
            invariant
                k <= old_v.len(),
                old_v == self.val_indx@,
                v@ == old_v.take(k as int),
            decreases old_v.len() - k,
        {
            v.push(self.val_indx[k]);
            k = k + 1;
        }
        assert(v@ =~= old_v);
        if v.len() == 0 || v[0] != 0 {
            v.insert(0, 0);
            proof {
                let nv = v@;
                assert forall|k1: int, k2: int| 0 <= k1 < k2 < nv.len() implies #[trigger] nv[k1] < #[trigger] nv[k2] by {
                    if k1 > 0 {
                        assert(old_v[k1 - 1] < old_v[k2 - 1]);
                    } else if k2 > 1 {
                        assert(old_v[0] < old_v[k2 - 1]);
                    }
                }
                assert forall|i: int| #[trigger] seq_set(nv).contains(i) == seq_set(old_v).insert(0).contains(i) by {
                    if seq_set(nv).contains(i) && i != 0 {
                        let k = choose|k: int| 0 <= k < nv.len() && #[trigger] nv[k] == i;
                        assert(old_v[k - 1] == i);
                    }
                    if seq_set(old_v).contains(i) {
                        let k = choose|k: int| 0 <= k < old_v.len() && #[trigger] old_v[k] == i;
                        assert(nv[k + 1] == i);
                    }
                    if i == 0 {
                        assert(nv[0] == 0);
                    }
                }
                assert(seq_set(nv) =~= seq_set(old_v).insert(0));
            }
        } else {
            proof {
                assert(old_v[0] == 0);
                assert(seq_set(old_v) =~= seq_set(old_v).insert(0));
            }
        }
        BoolVec { len: self.len, val_indx: v }
    }
}

impl<'a, 'b> core::ops::Mul<&'b BoolMat> for &'a BoolVec {
    type Output = Option<BoolVec>;

    /// See [`BoolVec::mul`].
    fn mul(self, mat: &'b BoolMat) -> (r: Option<BoolVec>)
        ensures
            r is None <==> self.len != mat.shape.0,
            r matches Some(v) ==> v.wf() && v.len == mat.shape.1 && v.entries() == image(
                self.entries(),
                mat.entries(),
            ),
    {
        BoolVec::mul(self, mat)
    }
}

impl<'a, 'b> vstd::std_specs::ops::MulSpecImpl<&'b BoolMat> for &'a BoolVec {
    open spec fn obeys_mul_spec() -> bool {
        false
    }

    open spec fn mul_req(self, mat: &'b BoolMat) -> bool {
        self.wf() && mat.wf()
    }

    open spec fn mul_spec(self, mat: &'b BoolMat) -> Option<BoolVec> {
        None
    }
}

/// `s` is strictly increasing.
pub open spec fn strictly_sorted(s: Seq<usize>) -> bool {
    forall|k1: int, k2: int| 0 <= k1 < k2 < s.len() ==> #[trigger] s[k1] < #[trigger] s[k2]
}

/// The values listed in `s`.
pub open spec fn seq_set(s: Seq<usize>) -> Set<int> {
    Set::new(|i: int| exists|k: int| 0 <= k < s.len() && #[trigger] s[k] == i)
}

pub(crate) proof fn lemma_seq_set_push(s: Seq<usize>, x: usize)
    ensures
        seq_set(s.push(x)) == seq_set(s).insert(x as int),
{
    let t = s.push(x);
    assert forall|i: int| #[trigger] seq_set(t).contains(i) <==> seq_set(s).insert(x as int).contains(i) by {
        if seq_set(t).contains(i) {
            let k = choose|k: int| 0 <= k < t.len() && #[trigger] t[k] == i;
            if k < s.len() {
                assert(s[k] == i);
            }
        }
        if seq_set(s).contains(i) {
            let k = choose|k: int| 0 <= k < s.len() && #[trigger] s[k] == i;
            assert(t[k] == i);
        }
        if i == x {
            assert(t[s.len() as int] == x);
        }
    }
    assert(seq_set(t) =~= seq_set(s).insert(x as int));
}

/// `p` comes before `q` in row-major order.
pub open spec fn lex_lt(p: (usize, usize), q: (usize, usize)) -> bool {
    p.0 < q.0 || (p.0 == q.0 && p.1 < q.1)
}

/// The pairs are strictly increasing in row-major order.
pub open spec fn pairs_sorted(s: Seq<(usize, usize)>) -> bool {
    forall|k1: int, k2: int| 0 <= k1 < k2 < s.len() ==> lex_lt(#[trigger] s[k1], #[trigger] s[k2])
}

/// The pairs of `v` in row-major order, each once.
fn sort_dedup_pairs(v: Vec<(usize, usize)>) -> (r: Vec<(usize, usize)>)
    ensures
        pairs_sorted(r@),
        pair_set(r@) == pair_set(v@),
{
    let mut r: Vec<(usize, usize)> = Vec::new();
    let mut k: usize = 0;
    while k < v.len()
        invariant
            k <= v@.len(),
            pairs_sorted(r@),
            pair_set(r@) == pair_set(v@.take(k as int)),
        decreases v@.len() - k,
    {
        let x = v[k];
        let mut p: usize = 0;
        while p < r.len() && (r[p].0 < x.0 || (r[p].0 == x.0 && r[p].1 < x.1))
            invariant
                p <= r@.len(),
                forall|q: int| 0 <= q < p ==> lex_lt(r@[q], x),
            decreases r@.len() - p,
        {
            p = p + 1;
        }
        let ghost before = r@;
        if p < r.len() && r[p].0 == x.0 && r[p].1 == x.1 {
            proof {
                assert(r@[p as int] == x);
                assert(pair_set(r@) =~= pair_set(r@).insert((x.0 as int, x.1 as int))) by {
                    assert(r@[p as int].0 == x.0 && r@[p as int].1 == x.1);
                }
            }
        } else {
            r.insert(p, x);
            proof {
                assert forall|k1: int, k2: int| 0 <= k1 < k2 < r@.len() implies lex_lt(
                    #[trigger] r@[k1],
                    #[trigger] r@[k2],
                ) by {
                    if k2 < p {
                    } else if k2 == p {
                    } else if k1 < p {
                        if k2 - 1 > p {
                            assert(lex_lt(before[p as int], before[k2 - 1]));
                        }
                    } else if k1 == p {
                        if k2 - 1 > p {
                            assert(lex_lt(before[p as int], before[k2 - 1]));
                        }
                    } else {
                    }
                }
                assert(r@ =~= before.insert(p as int, x));
                assert forall|q: (int, int)| #[trigger] pair_set(r@).contains(q) == pair_set(before).insert(
                    (x.0 as int, x.1 as int),
                ).contains(q) by {
                    if pair_set(r@).contains(q) {
                        let i = choose|i: int| 0 <= i < r@.len() && #[trigger] r@[i].0 == q.0 && r@[i].1 == q.1;
                        if i < p {
                            assert(before[i] == r@[i]);
                        } else if i > p {
                            assert(before[i - 1] == r@[i]);
                        }
                    }
                    if pair_set(before).contains(q) {
                        let i = choose|i: int| 0 <= i < before.len() && #[trigger] before[i].0 == q.0 && before[i].1 == q.1;
                        if i < p {
                            assert(r@[i] == before[i]);
                        } else {
                            assert(r@[i + 1] == before[i]);
                        }
                    }
                    if q == (x.0 as int, x.1 as int) {
                        assert(r@[p as int] == x);
                    }
                }
                assert(pair_set(r@) =~= pair_set(before).insert((x.0 as int, x.1 as int)));
            }
        }
        proof {
            assert(v@.take(k + 1) =~= v@.take(k as int).push(x));
            lemma_pair_set_push(v@.take(k as int), x);
        }
        k = k + 1;
    }
    assert(v@.take(v@.len() as int) =~= v@);
    r
}

/// How many of the first `upto` pairs lie in row `m`.
pub open spec fn count_row(s: Seq<(usize, usize)>, m: int, upto: int) -> nat
    decreases upto,
{
    if upto <= 0 {
        0
    } else {
        count_row(s, m, upto - 1) + if s[upto - 1].0 == m {
            1nat
        } else {
            0nat
        }
    }
}

/// How many of the first `upto` pairs lie in a row before `m`.
pub open spec fn count_below(s: Seq<(usize, usize)>, m: int, upto: int) -> nat
    decreases upto,
{
    if upto <= 0 {
        0
    } else {
        count_below(s, m, upto - 1) + if s[upto - 1].0 < m {
            1nat
        } else {
            0nat
        }
    }
}

proof fn lemma_count_below_step(s: Seq<(usize, usize)>, m: int, upto: int)
    requires
        0 <= upto,
    ensures
        count_below(s, m + 1, upto) == count_below(s, m, upto) + count_row(s, m, upto),
        count_below(s, m, upto) <= upto,
    decreases upto,
{
    if upto > 0 {
        lemma_count_below_step(s, m, upto - 1);
    }
}

proof fn lemma_count_below_mono(s: Seq<(usize, usize)>, m1: int, m2: int, upto: int)
    requires
        0 <= upto,
        m1 <= m2,
    ensures
        count_below(s, m1, upto) <= count_below(s, m2, upto),
    decreases upto,
{
    if upto > 0 {
        lemma_count_below_mono(s, m1, m2, upto - 1);
    }
}

/// In row-major order the pairs before row `m` come first.
proof fn lemma_count_below_prefix(s: Seq<(usize, usize)>, m: int, upto: int)
    requires
        pairs_sorted(s),
        0 <= upto <= s.len(),
    ensures
        forall|k: int| 0 <= k < upto ==> ((#[trigger] s[k]).0 < m <==> k < count_below(s, m, upto)),
        count_below(s, m, upto) <= upto,
    decreases upto,
{
    if upto > 0 {
        lemma_count_below_prefix(s, m, upto - 1);
        let u = upto - 1;
        if s[u].0 < m {
            assert forall|k: int| 0 <= k < u implies (#[trigger] s[k]).0 < m by {
                assert(lex_lt(s[k], s[u]));
            }
        }
    }
}

/// Two strictly increasing sequences with the same values are equal.
pub proof fn lemma_sorted_unique(s1: Seq<usize>, s2: Seq<usize>)
    requires
        strictly_sorted(s1),
        strictly_sorted(s2),
        seq_set(s1) == seq_set(s2),
    ensures
        s1 == s2,
    decreases s1.len(),
{
    if s1.len() == 0 {
        if s2.len() > 0 {
            assert(seq_set(s2).contains(s2[0] as int));
        }
        assert(s1 =~= s2);
    } else {
        assert(seq_set(s1).contains(s1[0] as int));
        assert(s2.len() > 0);
        assert(seq_set(s2).contains(s2[0] as int));
        let k1 = choose|k: int| 0 <= k < s2.len() && #[trigger] s2[k] == s1[0] as int;
        let k2 = choose|k: int| 0 <= k < s1.len() && #[trigger] s1[k] == s2[0] as int;
        if k1 > 0 {
            assert(s2[0] < s2[k1]);
        }
        if k2 > 0 {
            assert(s1[0] < s1[k2]);
        }
        assert(s1[0] == s2[0]);
        let d1 = s1.drop_first();
        let d2 = s2.drop_first();
        assert forall|x: int| #[trigger] seq_set(d1).contains(x) implies seq_set(d2).contains(x) by {
            let k = choose|k: int| 0 <= k < d1.len() && #[trigger] d1[k] == x;
            assert(s1[k + 1] == x);
            assert(s1[0] < s1[k + 1]);
            assert(seq_set(s1).contains(x));
            let q = choose|q: int| 0 <= q < s2.len() && #[trigger] s2[q] == x;
            assert(q != 0);
            assert(d2[q - 1] == x);
        }
        assert forall|x: int| #[trigger] seq_set(d2).contains(x) implies seq_set(d1).contains(x) by {
            let k = choose|k: int| 0 <= k < d2.len() && #[trigger] d2[k] == x;
            assert(s2[k + 1] == x);
            assert(s2[0] < s2[k + 1]);
            assert(seq_set(s2).contains(x));
            let q = choose|q: int| 0 <= q < s1.len() && #[trigger] s1[q] == x;
            assert(q != 0);
            assert(d1[q - 1] == x);
        }
        assert(seq_set(d1) =~= seq_set(d2));
        lemma_sorted_unique(d1, d2);
        assert forall|k: int| 0 <= k < s1.len() implies s1[k] == s2[k] by {
            if k > 0 {
                assert(s1[k] == d1[k - 1]);
                assert(s2[k] == d2[k - 1]);
            }
        }
        assert(s1 =~= s2);
    }
}

/// Two well-formed vectors of the same length with the same set positions
/// are equal.
pub proof fn lemma_boolvec_unique(v1: BoolVec, v2: BoolVec)
    requires
        v1.wf(),
        v2.wf(),
        v1.len == v2.len,
        v1.entries() == v2.entries(),
    ensures
        v1.val_indx@ == v2.val_indx@,
{
    lemma_sorted_unique(v1.val_indx@, v2.val_indx@);
}

/// Two well-formed matrices of the same shape with the same entries are
/// equal.
pub proof fn lemma_boolmat_unique(m1: BoolMat, m2: BoolMat)
    requires
        m1.wf(),
        m2.wf(),
        m1.shape == m2.shape,
        m1.entries() == m2.entries(),
    ensures
        m1.col_indx@ == m2.col_indx@,
        m1.row_ptr@ == m2.row_ptr@,
{
    lemma_boolmat_prefix(m1, m2, m1.rows());
    assert(m1.col_indx@.subrange(0, m1.start(m1.rows())) =~= m1.col_indx@);
    assert(m2.col_indx@.subrange(0, m2.start(m2.rows())) =~= m2.col_indx@);
    assert forall|q: int| 0 <= q < m1.row_ptr@.len() implies m1.row_ptr@[q] == m2.row_ptr@[q] by {
        assert(m1.start(q) == m2.start(q));
    }
    assert(m1.row_ptr@ =~= m2.row_ptr@);
}

/// Closing a matrix that `close_epsilon` has already closed changes nothing:
/// `once` holds the closure of `m`, `twice` the closure of `once`, and the
/// two have the same index arrays.
pub proof fn lemma_close_twice(m: BoolMat, once: BoolMat, twice: BoolMat)
    requires
        once.wf(),
        twice.wf(),
        once.shape == m.shape,
        twice.shape == m.shape,
        once.entries() == closure(m.entries(), min_int(m.rows(), m.cols())),
        twice.entries() == closure(once.entries(), min_int(m.rows(), m.cols())),
    ensures
        twice.col_indx@ == once.col_indx@,
        twice.row_ptr@ == once.row_ptr@,
{
    let d = min_int(m.rows(), m.cols());
    lemma_closure_props(m.entries(), d);
    lemma_closure_of_closed(once.entries(), d);
    lemma_boolmat_unique(twice, once);
}

/// The Kleene shift of a matrix and its shift by one give the same matrix:
/// `k` and `s` are the results of the two calls on `m`.
pub proof fn lemma_kleene_shift_by_one(m: BoolMat, k: BoolMat, s: BoolMat)
    requires
        k.wf(),
        s.wf(),
        k.rows() == m.rows() + 1,
        k.cols() == m.cols() + 1,
        s.rows() == m.rows() + 1,
        s.cols() == m.cols() + 1,
        k.entries() == shift_pairs(m.entries(), 1),
        s.entries() == shift_pairs(m.entries(), 1),
    ensures
        k.shape == s.shape,
        k.col_indx@ == s.col_indx@,
        k.row_ptr@ == s.row_ptr@,
{
    lemma_boolmat_unique(k, s);
}

proof fn lemma_boolmat_prefix(m1: BoolMat, m2: BoolMat, i: int)
    requires
        m1.wf(),
        m2.wf(),
        m1.shape == m2.shape,
        m1.entries() == m2.entries(),
        0 <= i <= m1.rows(),
    ensures
        forall|q: int| 0 <= q <= i ==> #[trigger] m1.start(q) == m2.start(q),
        m1.col_indx@.subrange(0, m1.start(i)) == m2.col_indx@.subrange(0, m2.start(i)),
    decreases i,
{
    if i == 0 {
        assert(m1.col_indx@.subrange(0, 0) =~= m2.col_indx@.subrange(0, 0));
    } else {
        lemma_boolmat_prefix(m1, m2, i - 1);
        let r = i - 1;
        assert(m1.start(r) <= m1.start(i) <= m1.start(m1.rows()));
        assert(m2.start(r) <= m2.start(i) <= m2.start(m2.rows()));
        let row1 = m1.col_indx@.subrange(m1.start(r), m1.start(i));
        let row2 = m2.col_indx@.subrange(m2.start(r), m2.start(i));
        assert(m1.row_sorted(r));
        assert(m2.row_sorted(r));
        assert(strictly_sorted(row1));
        assert(strictly_sorted(row2));
        assert forall|x: int| #[trigger] seq_set(row1).contains(x) implies seq_set(row2).contains(x) by {
            let k = choose|k: int| 0 <= k < row1.len() && #[trigger] row1[k] == x;
            assert(m1.col_indx@[m1.start(r) + k] == x);
            assert(m1.has(r, x));
            assert(m1.entries().contains((r, x)));
            assert(m2.has(r, x));
            let q = choose|q: int| m2.start(r) <= q < m2.start(r + 1) && #[trigger] m2.col_indx@[q] == x;
            assert(row2[q - m2.start(r)] == x);
        }
        assert forall|x: int| #[trigger] seq_set(row2).contains(x) implies seq_set(row1).contains(x) by {
            let k = choose|k: int| 0 <= k < row2.len() && #[trigger] row2[k] == x;
            assert(m2.col_indx@[m2.start(r) + k] == x);
            assert(m2.has(r, x));
            assert(m2.entries().contains((r, x)));
            assert(m1.has(r, x));
            let q = choose|q: int| m1.start(r) <= q < m1.start(r + 1) && #[trigger] m1.col_indx@[q] == x;
            assert(row1[q - m1.start(r)] == x);
        }
        assert(seq_set(row1) =~= seq_set(row2));
        lemma_sorted_unique(row1, row2);
        assert(m1.start(i) == m2.start(i));
        assert(m1.col_indx@.subrange(0, m1.start(i)) =~= m1.col_indx@.subrange(0, m1.start(r)) + row1);
        assert(m2.col_indx@.subrange(0, m2.start(i)) =~= m2.col_indx@.subrange(0, m2.start(r)) + row2);
    }
}

/// Every element of `s` moved by `d`.
pub open spec fn shift_set(s: Set<int>, d: int) -> Set<int> {
    Set::new(|i: int| s.contains(i - d))
}

pub(crate) proof fn lemma_offset_entries(a: Seq<usize>, b: Seq<usize>, d: int)
    requires
        a.len() == b.len(),
        forall|k: int| 0 <= k < a.len() ==> b[k] == a[k] + d,
    ensures
        seq_set(b) == shift_set(seq_set(a), d),
{
    assert forall|i: int| #[trigger] seq_set(b).contains(i) <==> shift_set(seq_set(a), d).contains(i) by {
        if seq_set(b).contains(i) {
            let k = choose|k: int| 0 <= k < b.len() && #[trigger] b[k] == i;
            assert(a[k] == i - d);
        }
        if shift_set(seq_set(a), d).contains(i) {
            let k = choose|k: int| 0 <= k < a.len() && #[trigger] a[k] == i - d;
            assert(b[k] == i);
        }
    }
    assert(seq_set(b) =~= shift_set(seq_set(a), d));
}

/// The values of `v` in increasing order, each once.
fn sort_dedup(v: Vec<usize>) -> (r: Vec<usize>)
    ensures
        strictly_sorted(r@),
        seq_set(r@) == seq_set(v@),
{
    let mut r: Vec<usize> = Vec::new();
    let mut k: usize = 0;
    while k < v.len()
        invariant
            k <= v@.len(),
            strictly_sorted(r@),
            seq_set(r@) == seq_set(v@.take(k as int)),
        decreases v@.len() - k,
    {
        let x = v[k];
        let mut p: usize = 0;
        while p < r.len() && r[p] < x
            invariant
                p <= r@.len(),
                forall|q: int| 0 <= q < p ==> r@[q] < x,
            decreases r@.len() - p,
        {
            p = p + 1;
        }
        let ghost before = r@;
        if p < r.len() && r[p] == x {
        } else {
            r.insert(p, x);
            proof {
                assert forall|k1: int, k2: int| 0 <= k1 < k2 < r@.len() implies #[trigger] r@[k1]
                    < #[trigger] r@[k2] by {
                    if k2 < p {
                    } else if k2 == p {
                    } else if k1 < p {
                        if k2 - 1 > p {
                            assert(before[p as int] < before[k2 - 1]);
                        }
                    } else if k1 == p {
                        if k2 - 1 > p {
                            assert(before[p as int] < before[k2 - 1]);
                        }
                    } else {
                    }
                }
            }
        }
        proof {
            assert(v@.take(k + 1) =~= v@.take(k as int).push(x));
            assert(seq_set(r@) =~= seq_set(v@.take(k + 1))) by {
                assert forall|i: int| #[trigger] seq_set(r@).contains(i) implies seq_set(v@.take(k + 1)).contains(i) by {
                    let q = choose|q: int| 0 <= q < r@.len() && #[trigger] r@[q] == i;
                    if i == x {
                        assert(v@.take(k + 1)[k as int] == x);
                    } else {
                        if r@.len() == before.len() {
                            assert(seq_set(before).contains(i));
                        } else if q < p {
                            assert(before[q] == i);
                            assert(seq_set(before).contains(i));
                        } else {
                            assert(before[q - 1] == i);
                            assert(seq_set(before).contains(i));
                        }
                        let q2 = choose|q2: int| 0 <= q2 < v@.take(k as int).len() && #[trigger] v@.take(k as int)[q2] == i;
                        assert(v@.take(k + 1)[q2] == i);
                    }
                }
                assert forall|i: int| #[trigger] seq_set(v@.take(k + 1)).contains(i) implies seq_set(r@).contains(i) by {
                    let q = choose|q: int| 0 <= q < v@.take(k + 1).len() && #[trigger] v@.take(k + 1)[q] == i;
                    if q == k {
                        if r@.len() == before.len() {
                            assert(r@[p as int] == i);
                        } else {
                            assert(r@[p as int] == i);
                        }
                    } else {
                        assert(v@.take(k as int)[q] == i);
                        assert(seq_set(before).contains(i));
                        let q2 = choose|q2: int| 0 <= q2 < before.len() && #[trigger] before[q2] == i;
                        if r@.len() == before.len() {
                            assert(r@[q2] == i);
                        } else if q2 < p {
                            assert(r@[q2] == i);
                        } else {
                            assert(r@[q2 + 1] == i);
                        }
                    }
                }
            }
        }
        k = k + 1;
    }
    assert(v@.take(v@.len() as int) =~= v@);
    r
}

/// A matrix whose columns are those of `os` plus `d`, with `d` empty rows
/// in front, is well formed and holds the entries of `os` moved by `d`.
proof fn lemma_shifted(os: BoolMat, ns: BoolMat, d: int)
    requires
        os.wf(),
        d >= 0,
        ns.rows() == os.rows() + d,
        ns.cols() == os.cols() + d,
        ns.col_indx@.len() == os.col_indx@.len(),
        forall|k: int| 0 <= k < os.col_indx@.len() ==> ns.col_indx@[k] == os.col_indx@[k] + d,
        ns.row_ptr@.len() == os.row_ptr@.len() + d,
        forall|q: int| 0 <= q < d ==> ns.row_ptr@[q] == 0,
        forall|q: int| 0 <= q < os.row_ptr@.len() ==> ns.row_ptr@[d + q] == os.row_ptr@[q],
    ensures
        ns.wf(),
        ns.entries() == shift_pairs(os.entries(), d),
{
    assert(forall|q: int| 0 <= q <= d ==> ns.start(q) == 0);
    assert forall|q: int| d <= q <= ns.rows() implies ns.start(q) == os.start(q - d) by {
        assert(ns.row_ptr@[d + (q - d)] == os.row_ptr@[q - d]);
    }
    assert forall|q1: int, q2: int| 0 <= q1 <= q2 <= ns.rows() implies #[trigger] ns.start(q1)
        <= #[trigger] ns.start(q2) by {
        if q1 >= d {
            assert(os.start(q1 - d) <= os.start(q2 - d));
        } else if q2 >= d {
            assert(os.start(0) <= os.start(q2 - d));
        }
    }
    assert forall|r: int| 0 <= r < ns.rows() implies #[trigger] ns.row_sorted(r) by {
        if r >= d {
            assert(os.row_sorted(r - d));
            assert(ns.start(r) == os.start(r - d));
            assert(ns.start(r + 1) == os.start(r - d + 1));
        }
    }
    assert forall|k: int| 0 <= k < ns.col_indx@.len() implies #[trigger] ns.col_indx@[k] < ns.cols() by {
        assert(os.col_indx@[k] < os.cols());
    }
    assert(ns.wf());
    assert forall|r: int, c: int| ns.has(r, c) <==> os.has(r - d, c - d) by {
        if ns.has(r, c) {
            let k = choose|k: int| ns.start(r) <= k < ns.start(r + 1) && #[trigger] ns.col_indx@[k] == c;
            assert(r >= d);
            assert(ns.start(r) == os.start(r - d));
            assert(ns.start(r + 1) == os.start(r - d + 1));
            assert(os.col_indx@[k] == c - d);
        }
        if os.has(r - d, c - d) {
            let k = choose|k: int|
                os.start(r - d) <= k < os.start(r - d + 1) && #[trigger] os.col_indx@[k] == c - d;
            assert(ns.start(r) == os.start(r - d));
            assert(ns.start(r + 1) == os.start(r - d + 1));
            assert(ns.col_indx@[k] == c);
        }
    }
    assert(ns.entries() =~= shift_pairs(os.entries(), d));
}

/// Every pair of `s` moved by `d` along both coordinates.
pub open spec fn shift_pairs(s: Set<(int, int)>, d: int) -> Set<(int, int)> {
    Set::new(|p: (int, int)| s.contains((p.0 - d, p.1 - d)))
}

/// Adds `d` to every element of `v`.
pub(crate) fn offset_values(v: &mut Vec<usize>, d: usize)
    requires
        forall|k: int| 0 <= k < old(v)@.len() ==> old(v)@[k] + d <= usize::MAX,
    ensures
        final(v)@.len() == old(v)@.len(),
        forall|k: int| 0 <= k < old(v)@.len() ==> final(v)@[k] == old(v)@[k] + d,
{
    let mut k: usize = 0;
    while k < v.len()
        invariant
            k <= v@.len(),
            v@.len() == old(v)@.len(),
            forall|q: int| 0 <= q < k ==> v@[q] == old(v)@[q] + d,
            forall|q: int| k <= q < v@.len() ==> v@[q] == old(v)@[q],
            forall|q: int| 0 <= q < old(v)@.len() ==> old(v)@[q] + d <= usize::MAX,
        decreases v@.len() - k,
    {
        let x = v[k];
        v.set(k, x + d);
        k = k + 1;
    }
}

/// The smaller of two integers.
pub open spec fn min_int(a: int, b: int) -> int {
    if a < b {
        a
    } else {
        b
    }
}

/// The pairs listed in `v`.
pub open spec fn pair_set(v: Seq<(usize, usize)>) -> Set<(int, int)> {
    Set::new(
        |p: (int, int)| exists|k: int| 0 <= k < v.len() && #[trigger] v[k].0 == p.0 && v[k].1 == p.1,
    )
}

proof fn lemma_pair_set_push(v: Seq<(usize, usize)>, x: (usize, usize))
    ensures
        pair_set(v.push(x)) == pair_set(v).insert((x.0 as int, x.1 as int)),
{
    let w = v.push(x);
    assert forall|p: (int, int)| #[trigger] pair_set(w).contains(p) implies pair_set(v).insert(
        (x.0 as int, x.1 as int),
    ).contains(p) by {
        let q = choose|q: int| 0 <= q < w.len() && #[trigger] w[q].0 == p.0 && w[q].1 == p.1;
        if q < v.len() {
            assert(v[q] == w[q]);
        }
    }
    assert forall|p: (int, int)| #[trigger] pair_set(v).insert((x.0 as int, x.1 as int)).contains(
        p,
    ) implies pair_set(w).contains(p) by {
        if p == (x.0 as int, x.1 as int) {
            assert(w[v.len() as int] == x);
        } else {
            let q = choose|q: int| 0 <= q < v.len() && #[trigger] v[q].0 == p.0 && v[q].1 == p.1;
            assert(w[q] == v[q]);
        }
    }
    assert(pair_set(w) =~= pair_set(v).insert((x.0 as int, x.1 as int)));
}

/// `(a, b)` is listed in `v`.
fn contains_pair(v: &Vec<(usize, usize)>, a: usize, b: usize) -> (r: bool)
    ensures
        r == pair_set(v@).contains((a as int, b as int)),
{
    let mut k: usize = 0;
    while k < v.len()
        invariant
            k <= v@.len(),
            forall|q: int| 0 <= q < k ==> !(#[trigger] v@[q].0 == a && v@[q].1 == b),
        decreases v@.len() - k,
    {
        if v[k].0 == a && v[k].1 == b {
            return true;
        }
        k = k + 1;
    }
    false
}

} // verus!
