use vstd::prelude::*;

verus! {

use crate::bits::{dot, lemma_dot_prefix, lemma_dot_xor, xor_seq, Bitstring};
use crate::column_matrix::ColumnMatrix;
use crate::matrix::{mat_vec, BitMatrix};
use crate::span::{
    all_of_len, has_unit_coordinates, in_span, independent, is_linear, lemma_coordinate_linear,
    lemma_linear_vanishes_on_span, lemma_span_keep, lemma_span_step, lemma_unit_coordinates_independent,
    lemma_unit_coordinates_step, lemma_units_have_unit_coordinates, lemma_units_span, unit, zeros,
};

/// Whether column `c` (the first `n` coordinates an assignment `x`, coordinate
/// `n` a multiplier `t`) violates the equation `row · x = t · bi`.
pub open spec fn syn(row: Seq<bool>, bi: bool, c: Seq<bool>, n: int) -> bool {
    dot(row, c, n) != (bi && c[n])
}

/// Column `c` meets the first `i` equations of the augmented system `[rows | b]`.
pub open spec fn meets_first(rows: Seq<Seq<bool>>, b: Seq<bool>, c: Seq<bool>, i: int, n: int) -> bool {
    forall|j: int| 0 <= j < i ==> !#[trigger] syn(rows[j], b[j], c, n)
}

/// Removing another element keeps `x` in a sequence.
proof fn lemma_remove_keeps(s: Seq<Seq<bool>>, i: int, x: Seq<bool>)
    requires
        0 <= i < s.len(),
        s.contains(x),
        x != s[i],
    ensures
        s.remove(i).contains(x),
{
    let j = choose|j: int| 0 <= j < s.len() && s[j] == x;
    if j < i {
        assert(s.remove(i)[j] == x);
    } else {
        assert(s.remove(i)[j - 1] == x);
    }
}

/// Removing an element keeps a sequence free of repeats.
proof fn lemma_remove_no_duplicates(s: Seq<Seq<bool>>, i: int)
    requires
        0 <= i < s.len(),
        s.no_duplicates(),
    ensures
        s.remove(i).no_duplicates(),
{
    let r = s.remove(i);
    assert forall|a: int, b: int| 0 <= a < r.len() && 0 <= b < r.len() && a != b implies r[a] != r[b] by {
        let a2 = if a < i { a } else { a + 1 };
        let b2 = if b < i { b } else { b + 1 };
        assert(r[a] == s[a2] && r[b] == s[b2]);
    }
}

/// Appending keeps `x` in a sequence.
proof fn lemma_push_keeps(s: Seq<Seq<bool>>, y: Seq<bool>, x: Seq<bool>)
    requires
        s.contains(x),
    ensures
        s.push(y).contains(x),
{
    let j = choose|j: int| 0 <= j < s.len() && s[j] == x;
    assert(s.push(y)[j] == x);
}

/// Violating an equation is additive over GF(2).
proof fn lemma_syn_xor(row: Seq<bool>, bi: bool, c1: Seq<bool>, c2: Seq<bool>, n: int)
    requires
        0 <= n,
        c1.len() == n + 1,
        c2.len() == n + 1,
    ensures
        syn(row, bi, xor_seq(c1, c2), n) == (syn(row, bi, c1, n) != syn(row, bi, c2, n)),
{
    lemma_dot_xor(row, c1, c2, n);
}

/// Violating an equation is a linear form on columns of `n + 1` coordinates.
proof fn lemma_syn_linear(row: Seq<bool>, bi: bool, n: int)
    requires
        0 <= n,
    ensures
        is_linear(|c: Seq<bool>| syn(row, bi, c, n), (n + 1) as nat),
{
    crate::bits::lemma_dot_zero(row, zeros((n + 1) as nat), n);
    assert forall|a: Seq<bool>, b: Seq<bool>|
        a.len() == n + 1 && b.len() == n + 1 implies #[trigger] syn(row, bi, crate::bits::xor_seq(a, b), n) == (syn(
        row,
        bi,
        a,
        n,
    ) != syn(row, bi, b, n)) by {
        lemma_syn_xor(row, bi, a, b, n);
    }
}

/// A solver for linear systems over GF(2) that keeps, as columns, a basis of
/// the solutions of the equations seen so far and cuts it down one equation
/// at a time.
pub struct SergeySolver {
    pub n: usize,
    pub x: ColumnMatrix,
    pub solution: Bitstring,
    pub syndrome: Bitstring,
    pub zero_b: bool,
}

impl SergeySolver {
    /// The workspace has the shapes that `n` unknowns call for, and no column
    /// was lost.
    pub open spec fn wf(&self) -> bool {
        &&& self.n < usize::MAX
        &&& self.x.wf()
        &&& self.x.number_of_rows == self.n + 1
        &&& self.solution@.len() == self.n
        &&& self.syndrome@.len() == self.n + 1
        &&& self.x.cols@.len() + self.x.removed_cols@.len() == self.n + 1
    }

    /// The columns in use after a solve.
    pub open spec fn basis(&self) -> Seq<Seq<bool>> {
        self.x.active()
    }

    /// The basis columns, read as vectors `(x, 0)`, are solutions of
    /// `rows · x = 0`, and every such solution is a sum of them: they span
    /// the nullspace.
    pub open spec fn spans_kernel_of(&self, rows: Seq<Seq<bool>>) -> bool {
        &&& forall|c: int|
            0 <= c < self.basis().len() ==> (#[trigger] self.basis()[c]).len() == self.n + 1 && !self.basis()[c][self.n as int]
                && mat_vec(rows, self.basis()[c], self.n as int) == zeros(self.n as nat)
        &&& forall|x: Seq<bool>|
            x.len() == self.n && #[trigger] mat_vec(rows, x, self.n as int) == zeros(self.n as nat) ==> in_span(
                self.basis(),
                x.push(false),
                (self.n + 1) as nat,
            )
    }

    /// A workspace for systems with `n` unknowns.
    pub fn zero(n: usize) -> (r: Self)
        requires
            n < usize::MAX,
        ensures
            r.wf(),
            r.n == n,
    {
        Self {
            n,
            x: ColumnMatrix::zeroes(n + 1, n + 1),
            solution: Bitstring::zeroes(n),
            syndrome: Bitstring::zeroes(n + 1),
            zero_b: false,
        }
    }

    /// Lays out the identity as the starting basis: all `n + 1` unit columns
    /// where `b` is nonzero, the first `n` where it is zero.
    pub fn reset(&mut self, b: &Bitstring)
        requires
            old(self).wf(),
        ensures
            final(self).wf(),
            final(self).n == old(self).n,
            final(self).zero_b == (forall|j: int| 0 <= j < b@.len() ==> !b@[j]),
            final(self).basis().len() == if final(self).zero_b { old(self).n as int } else { old(self).n + 1 },
            forall|k: int|
                0 <= k < final(self).basis().len() ==> #[trigger] final(self).basis()[k] == unit(k, (old(self).n + 1) as nat),
    {
        self.zero_b = b.first_one().is_none();
        let x_rank = if self.zero_b { self.n } else { self.n + 1 };
        self.syndrome.clear();
        self.x.reset();
        if self.zero_b {
            self.x.remove_col(self.n);
        }
        let mut idx: usize = 0;
        while idx < x_rank
            invariant
                self.n == old(self).n,
                self.n < usize::MAX,
                self.x.wf(),
                self.x.number_of_rows == self.n + 1,
                self.solution@.len() == self.n,
                self.syndrome@.len() == self.n + 1,
                self.x.cols@.len() + self.x.removed_cols@.len() == self.n + 1,
                self.x.cols@.len() == x_rank,
                x_rank == if self.zero_b { self.n as int } else { self.n + 1 },
                idx <= x_rank,
                forall|k: int| 0 <= k < idx ==> #[trigger] self.x.active()[k] == unit(k, (self.n + 1) as nat),
            decreases x_rank - idx,
        {
            let ghost prev = self.x.active();
            self.x.cols[idx].clear();
            self.x.cols[idx].set(idx, true);
            assert forall|k: int| 0 <= k < idx implies #[trigger] self.x.active()[k] == prev[k] by {}
            assert(self.x.active()[idx as int] =~= unit(idx as int, (self.n + 1) as nat));
            idx = idx + 1;
        }
    }

    /// Records, for each column in use, whether it violates equation `i`.
    fn find_syndrome(&mut self, i: usize, u: &BitMatrix, b: &Bitstring)
        requires
            old(self).wf(),
            u.wf(),
            u.rows@.len() == old(self).n,
            u.number_of_columns == old(self).n,
            b@.len() == old(self).n,
            i < old(self).n,
        ensures
            final(self).wf(),
            final(self).n == old(self).n,
            final(self).x == old(self).x,
            final(self).zero_b == old(self).zero_b,
            forall|c: int|
                0 <= c < final(self).x.cols@.len() ==> final(self).syndrome@[c] == syn(
                    u.view()[i as int],
                    b@[i as int],
                    #[trigger] final(self).x.active()[c],
                    final(self).n as int,
                ),
    {
        let n = self.n;
        let ncols = self.x.cols.len();
        let mut col_idx: usize = 0;
        while col_idx < ncols
            invariant
                self.wf(),
                self.n == n,
                self.x == old(self).x,
                self.zero_b == old(self).zero_b,
                ncols == self.x.cols@.len(),
                u.wf(),
                u.rows@.len() == n,
                u.number_of_columns == n,
                b@.len() == n,
                i < n,
                col_idx <= ncols,
                forall|c: int|
                    0 <= c < col_idx ==> self.syndrome@[c] == syn(
                        u.view()[i as int],
                        b@[i as int],
                        #[trigger] self.x.active()[c],
                        n as int,
                    ),
            decreases ncols - col_idx,
        {
            let v = {
                let col = &self.x.cols[col_idx];
                let p = u.rows[i].and_parity(col, n);
                p != (b.get(i) && col.get(n))
            };
            self.syndrome.set(col_idx, v);
            col_idx = col_idx + 1;
        }
    }

    /// Detaches, from the last to the first, the columns in use that violate
    /// equation `i`, and returns how many there were; the others stay in use
    /// in their order.
    #[verifier::rlimit(40)]
    fn detach_bad_columns(&mut self, Ghost(rows): Ghost<Seq<Seq<bool>>>, Ghost(b): Ghost<Seq<bool>>, i: usize) -> (bad_col_n: usize)
        requires
            old(self).wf(),
            i < old(self).n,
            forall|c: int|
                0 <= c < old(self).x.cols@.len() ==> old(self).syndrome@[c] == syn(
                    rows[i as int],
                    b[i as int],
                    #[trigger] old(self).x.active()[c],
                    old(self).n as int,
                ),
            old(self).x.active().no_duplicates(),
        ensures
            final(self).wf(),
            final(self).n == old(self).n,
            final(self).zero_b == old(self).zero_b,
            final(self).x.active().no_duplicates(),
            forall|q1: int, q2: int|
                old(self).x.removed_cols@.len() <= q1 < final(self).x.removed_cols@.len() && old(self).x.removed_cols@.len()
                    <= q2 < final(self).x.removed_cols@.len() && q1 != q2 ==> #[trigger] final(self).x.removed()[q1]
                    != #[trigger] final(self).x.removed()[q2],
            final(self).x.removed_cols@.len() == old(self).x.removed_cols@.len() + bad_col_n,
            final(self).x.cols@.len() + bad_col_n == old(self).x.cols@.len(),
            final(self).x.removed().take(old(self).x.removed_cols@.len() as int) == old(self).x.removed(),
            forall|c: int|
                0 <= c < final(self).x.cols@.len() ==> old(self).x.active().contains(#[trigger] final(self).x.active()[c])
                    && !syn(rows[i as int], b[i as int], final(self).x.active()[c], old(self).n as int),
            forall|q: int|
                old(self).x.removed_cols@.len() <= q < final(self).x.removed_cols@.len() ==> old(self).x.active().contains(
                    #[trigger] final(self).x.removed()[q],
                ) && syn(rows[i as int], b[i as int], final(self).x.removed()[q], old(self).n as int),
            forall|c: Seq<bool>|
                old(self).x.active().contains(c) && !syn(rows[i as int], b[i as int], c, old(self).n as int)
                    ==> #[trigger] final(self).x.active().contains(c),
            forall|c: Seq<bool>|
                old(self).x.active().contains(c) && syn(rows[i as int], b[i as int], c, old(self).n as int) ==> exists|q: int|
                    old(self).x.removed_cols@.len() <= q < final(self).x.removed_cols@.len() && #[trigger] final(self).x.removed()[q] == c,
    {
        let ghost n = self.n as int;
        let ghost row = rows[i as int];
        let ghost bi = b[i as int];
        let ghost base = self.x.removed_cols@.len();
        let ghost start = self.x.active();
        let n_variables = self.x.cols.len();
        let mut k = n_variables;
        let mut bad_col_n: usize = 0;
        while k > 0
            invariant
                self.wf(),
                self.n == old(self).n,
                n == self.n,
                self.zero_b == old(self).zero_b,
                self.syndrome == old(self).syndrome,
                k <= n_variables,
                n_variables == start.len(),
                start == old(self).x.active(),
                self.x.cols@.len() >= k,
                self.x.active().take(k as int) == start.take(k as int),
                self.x.removed_cols@.len() == base + bad_col_n,
                base == old(self).x.removed_cols@.len(),
                self.x.removed().take(base as int) == old(self).x.removed(),
                bad_col_n <= n_variables - k,
                self.x.cols@.len() == n_variables - bad_col_n,
                forall|c: int|
                    0 <= c < n_variables ==> old(self).syndrome@[c] == syn(row, bi, #[trigger] start[c], n),
                row == rows[i as int],
                bi == b[i as int],
                forall|c: int|
                    k <= c < self.x.cols@.len() ==> start.contains(#[trigger] self.x.active()[c]) && !syn(
                        row,
                        bi,
                        self.x.active()[c],
                        n,
                    ),
                forall|q: int|
                    base <= q < self.x.removed_cols@.len() ==> start.contains(#[trigger] self.x.removed()[q]) && syn(
                        row,
                        bi,
                        self.x.removed()[q],
                        n,
                    ),
                forall|j: int|
                    k <= j < n_variables && !syn(row, bi, start[j], n) ==> self.x.active().contains(#[trigger] start[j]),
                forall|j: int|
                    k <= j < n_variables && syn(row, bi, start[j], n) ==> exists|q: int|
                        base <= q < self.x.removed_cols@.len() && self.x.removed()[q] == #[trigger] start[j],
                start.no_duplicates(),
                self.x.active().no_duplicates(),
                forall|q: int|
                    base <= q < self.x.removed_cols@.len() ==> exists|j: int|
                        k <= j < n_variables && start[j] == #[trigger] self.x.removed()[q],
                forall|q1: int, q2: int|
                    base <= q1 < self.x.removed_cols@.len() && base <= q2 < self.x.removed_cols@.len() && q1 != q2
                        ==> #[trigger] self.x.removed()[q1] != #[trigger] self.x.removed()[q2],
            decreases k,
        {
            k = k - 1;
            assert(self.x.active()[k as int] == self.x.active().take(k as int + 1)[k as int]);
            assert(start[k as int] == start.take(k as int + 1)[k as int]);
            assert(start.contains(start[k as int]));
            if self.syndrome.get(k) {
                let ghost prev = self.x.active();
                let ghost prev_removed = self.x.removed();
                self.x.remove_col(k);
                bad_col_n = bad_col_n + 1;
                proof {
                    lemma_remove_no_duplicates(prev, k as int);
                }
                assert(prev[k as int] == start[k as int]);
                assert forall|q: int| base <= q < self.x.removed_cols@.len() implies exists|j: int|
                    k <= j < n_variables && start[j] == #[trigger] self.x.removed()[q] by {
                    if q < prev_removed.len() {
                        assert(self.x.removed()[q] == prev_removed[q]);
                        let j = choose|j: int| k + 1 <= j < n_variables && start[j] == prev_removed[q];
                    } else {
                        assert(self.x.removed()[q] == start[k as int]);
                    }
                }
                assert forall|q1: int, q2: int|
                    base <= q1 < self.x.removed_cols@.len() && base <= q2 < self.x.removed_cols@.len() && q1 != q2
                        implies #[trigger] self.x.removed()[q1] != #[trigger] self.x.removed()[q2] by {
                    let last = self.x.removed_cols@.len() - 1;
                    if q1 == last || q2 == last {
                        let other = if q1 == last { q2 } else { q1 };
                        assert(self.x.removed()[other] == prev_removed[other]);
                        let j = choose|j: int| k + 1 <= j < n_variables && start[j] == prev_removed[other];
                        assert(start[j] != start[k as int]);
                    } else {
                        assert(self.x.removed()[q1] == prev_removed[q1]);
                        assert(self.x.removed()[q2] == prev_removed[q2]);
                    }
                }
                assert(self.x.active().take(k as int) =~= prev.take(k as int));
                assert(self.x.removed().take(base as int) =~= prev_removed.take(base as int));
                assert forall|c: int| k <= c < self.x.cols@.len() implies #[trigger] self.x.active()[c] == prev[c + 1] by {}
                assert forall|q: int| base <= q < self.x.removed_cols@.len() implies #[trigger] self.x.removed()[q] == if q
                    < prev_removed.len() {
                    prev_removed[q]
                } else {
                    prev[k as int]
                } by {}
                assert forall|j: int|
                    k <= j < n_variables && !syn(row, bi, start[j], n) implies self.x.active().contains(#[trigger] start[j]) by {
                    if j > k {
                        lemma_remove_keeps(prev, k as int, start[j]);
                    }
                }
                assert forall|j: int|
                    k <= j < n_variables && syn(row, bi, start[j], n) implies exists|q: int|
                        base <= q < self.x.removed_cols@.len() && self.x.removed()[q] == #[trigger] start[j] by {
                    if j == k {
                        assert(self.x.removed()[self.x.removed_cols@.len() - 1] == start[j]);
                    } else {
                        let q = choose|q: int| base <= q < prev_removed.len() && prev_removed[q] == start[j];
                        assert(self.x.removed()[q] == start[j]);
                    }
                }
            } else {
                assert(self.x.active().take(k as int) =~= self.x.active().take(k as int + 1).take(k as int));
                assert(start.take(k as int) =~= start.take(k as int + 1).take(k as int));
                assert(self.x.active()[k as int] == start[k as int]);
                assert forall|q: int| base <= q < self.x.removed_cols@.len() implies exists|j: int|
                    k <= j < n_variables && start[j] == #[trigger] self.x.removed()[q] by {
                    let j = choose|j: int| k + 1 <= j < n_variables && start[j] == self.x.removed()[q];
                }
            }
        }
        assert forall|c: Seq<bool>| start.contains(c) && !syn(row, bi, c, n) implies #[trigger] self.x.active().contains(c) by {
            let j = choose|j: int| 0 <= j < n_variables && start[j] == c;
        }
        assert forall|c: Seq<bool>| start.contains(c) && syn(row, bi, c, n) implies exists|q: int|
            base <= q < self.x.removed_cols@.len() && #[trigger] self.x.removed()[q] == c by {
            let j = choose|j: int| 0 <= j < n_variables && start[j] == c;
        }
        bad_col_n
    }

    /// Of the `bad_col_n` columns detached last, keeps the last aside as the
    /// pivot and brings the others back into use as their sums with it.
    #[verifier::rlimit(40)]
    fn recombine_bad_columns(&mut self, Ghost(rows): Ghost<Seq<Seq<bool>>>, Ghost(b): Ghost<Seq<bool>>, i: usize, bad_col_n: usize)
        requires
            old(self).wf(),
            i < old(self).n,
            bad_col_n <= old(self).x.removed_cols@.len(),
            forall|q: int|
                old(self).x.removed_cols@.len() - bad_col_n <= q < old(self).x.removed_cols@.len() ==> meets_first(
                    rows,
                    b,
                    #[trigger] old(self).x.removed()[q],
                    i as int,
                    old(self).n as int,
                ) && syn(rows[i as int], b[i as int], old(self).x.removed()[q], old(self).n as int) && (old(self).zero_b
                    ==> !old(self).x.removed()[q][old(self).n as int]),
        ensures
            final(self).wf(),
            final(self).n == old(self).n,
            final(self).zero_b == old(self).zero_b,
            bad_col_n > 0 ==> final(self).x.cols@.len() + 1 == old(self).x.cols@.len() + bad_col_n,
            bad_col_n <= 1 ==> final(self).x == old(self).x,
            bad_col_n > 1 ==> forall|t: int|
                0 <= t < bad_col_n - 1 ==> #[trigger] final(self).x.active()[old(self).x.cols@.len() + t] == crate::bits::xor_seq(
                    old(self).x.removed()[old(self).x.removed_cols@.len() - 2 - t],
                    old(self).x.removed().last(),
                ),
            forall|c: Seq<bool>| #[trigger] old(self).x.active().contains(c) ==> final(self).x.active().contains(c),
            forall|c: int|
                old(self).x.cols@.len() <= c < final(self).x.cols@.len() ==> meets_first(
                    rows,
                    b,
                    #[trigger] final(self).x.active()[c],
                    i + 1,
                    old(self).n as int,
                ) && (old(self).zero_b ==> !final(self).x.active()[c][old(self).n as int]),
            forall|c: int| 0 <= c < old(self).x.cols@.len() ==> #[trigger] final(self).x.active()[c] == old(self).x.active()[c],
            bad_col_n > 0 ==> {
                let p = old(self).x.removed().last();
                forall|q: int|
                    old(self).x.removed_cols@.len() - bad_col_n <= q < old(self).x.removed_cols@.len() - 1 ==> final(self).x.active().contains(crate::bits::xor_seq(#[trigger] old(self).x.removed()[q], p))
            },
    {
        if bad_col_n <= 1 {
            return;
        }
        let ghost n = self.n as int;
        let ghost row = rows[i as int];
        let ghost bi = b[i as int];
        let ghost start_active = self.x.active();
        let ghost start_removed = self.x.removed();
        let ghost base = self.x.removed_cols@.len() - bad_col_n;
        assert(start_removed.len() == self.x.removed_cols@.len());
        assert(start_active.len() == self.x.cols@.len());
        let first_bad_col = self.x.pop_from_removed();
        let ghost first = first_bad_col@;
        let ghost snap = self.x.removed();
        assert(first == start_removed[start_removed.len() - 1]);
        assert(meets_first(rows, b, first, i as int, n));
        let rest = bad_col_n - 1;
        let mut t: usize = 0;
        while t < rest
            invariant
                self.n < usize::MAX,
                self.x.wf(),
                self.x.number_of_rows == self.n + 1,
                self.solution@.len() == self.n,
                self.syndrome@.len() == self.n + 1,
                self.x.cols@.len() + self.x.removed_cols@.len() + 1 == self.n + 1,
                self.n == old(self).n,
                n == self.n,
                self.zero_b == old(self).zero_b,
                first == first_bad_col@,
                first.len() == n + 1,
                meets_first(rows, b, first, i as int, n),
                syn(row, bi, first, n),
                self.zero_b ==> !first[n],
                t <= rest,
                rest + 1 == bad_col_n,
                base + bad_col_n == start_removed.len(),
                snap == start_removed.drop_last(),
                self.x.removed() == snap.take(base + rest - t),
                self.x.removed_cols@.len() == base + rest - t,
                snap.len() == base + rest,
                base >= 0,
                self.x.cols@.len() == start_active.len() + t,
                self.x.active().take(start_active.len() as int) == start_active,
                row == rows[i as int],
                bi == b[i as int],
                i < self.n,
                forall|q: int|
                    base <= q < start_removed.len() ==> meets_first(rows, b, #[trigger] start_removed[q], i as int, n) && syn(
                        row,
                        bi,
                        start_removed[q],
                        n,
                    ) && (self.zero_b ==> !start_removed[q][n]),
                forall|c: int|
                    start_active.len() <= c < self.x.cols@.len() ==> meets_first(
                        rows,
                        b,
                        #[trigger] self.x.active()[c],
                        i + 1,
                        n,
                    ) && (self.zero_b ==> !self.x.active()[c][n]),
                forall|q: int|
                    base + rest - t <= q < base + rest ==> self.x.active().contains(
                        crate::bits::xor_seq(#[trigger] snap[q], first),
                    ),
                forall|t2: int|
                    0 <= t2 < t ==> #[trigger] self.x.active()[start_active.len() + t2] == crate::bits::xor_seq(
                        snap[base + rest - 1 - t2],
                        first,
                    ),
            decreases rest - t,
        {
            let ghost active_before = self.x.active();
            let mut bad_col = self.x.pop_from_removed();
            let ghost before = bad_col@;
            let ghost q0 = base + rest - t - 1;
            assert(0 <= q0 < snap.len());
            assert(before == snap[q0]);
            assert(snap[q0] == start_removed[q0]);
            assert(self.x.removed() =~= snap.take(q0));
            bad_col.xor_with(&first_bad_col);
            assert forall|j: int| 0 <= j < i + 1 implies !#[trigger] syn(rows[j], b[j], bad_col@, n) by {
                lemma_syn_xor(rows[j], b[j], before, first, n);
            }
            self.x.push_back_into_usage(bad_col);
            proof {
                assert(self.x.active().take(start_active.len() as int) =~= start_active);
                assert forall|t2: int| 0 <= t2 < t + 1 implies #[trigger] self.x.active()[start_active.len() + t2]
                    == crate::bits::xor_seq(snap[base + rest - 1 - t2], first) by {
                    if t2 < t {
                        assert(self.x.active()[start_active.len() + t2] == active_before[start_active.len() + t2]);
                    }
                }
                assert forall|q: int|
                    base + rest - (t + 1) <= q < base + rest implies self.x.active().contains(
                        crate::bits::xor_seq(#[trigger] snap[q], first),
                    ) by {
                    if q == q0 {
                        assert(self.x.active()[self.x.active().len() - 1] == crate::bits::xor_seq(snap[q], first));
                    } else {
                        lemma_push_keeps(active_before, bad_col@, crate::bits::xor_seq(snap[q], first));
                    }
                }
            }
            t = t + 1;
        }
        self.x.put_back_in_removed(first_bad_col);
        proof {
            assert forall|c: Seq<bool>| #[trigger] start_active.contains(c) implies self.x.active().contains(c) by {
                let j = choose|j: int| 0 <= j < start_active.len() && start_active[j] == c;
                assert(self.x.active().take(start_active.len() as int)[j] == c);
            }
            assert forall|c: int| 0 <= c < start_active.len() implies #[trigger] self.x.active()[c] == start_active[c] by {
                assert(self.x.active().take(start_active.len() as int)[c] == start_active[c]);
            }
            assert forall|q: int| base <= q < start_removed.len() - 1 implies self.x.active().contains(
                crate::bits::xor_seq(#[trigger] start_removed[q], start_removed.last()),
            ) by {
                assert(snap[q] == start_removed[q]);
            }
            assert forall|t2: int| 0 <= t2 < bad_col_n - 1 implies #[trigger] self.x.active()[start_active.len() + t2]
                == crate::bits::xor_seq(start_removed[start_removed.len() - 2 - t2], start_removed.last()) by {
                assert(snap[base + rest - 1 - t2] == start_removed[start_removed.len() - 2 - t2]);
            }
        }
    }

    /// Detaches the columns that violate equation `i`; keeps the last of them
    /// aside as the pivot and brings the others back as their sum with it, so
    /// that every column in use meets equations `0..=i`.
    #[verifier::rlimit(40)]
    fn sort_bad_and_good_columns(&mut self, Ghost(rows): Ghost<Seq<Seq<bool>>>, Ghost(b): Ghost<Seq<bool>>, i: usize)
        requires
            old(self).wf(),
            i < old(self).n,
            forall|c: int|
                0 <= c < old(self).x.cols@.len() ==> old(self).syndrome@[c] == syn(
                    rows[i as int],
                    b[i as int],
                    #[trigger] old(self).x.active()[c],
                    old(self).n as int,
                ),
            forall|c: int|
                0 <= c < old(self).x.cols@.len() ==> meets_first(
                    rows,
                    b,
                    #[trigger] old(self).x.active()[c],
                    i as int,
                    old(self).n as int,
                ),
            old(self).zero_b ==> forall|c: int|
                0 <= c < old(self).x.cols@.len() ==> !(#[trigger] old(self).x.active()[c])[old(self).n as int],
            old(self).x.active().no_duplicates(),
            has_unit_coordinates(old(self).x.active(), (old(self).n + 1) as nat),
        ensures
            final(self).x.active().no_duplicates(),
            has_unit_coordinates(final(self).x.active(), (old(self).n + 1) as nat),
            final(self).x.cols@.len() <= old(self).x.cols@.len(),
            final(self).wf(),
            final(self).n == old(self).n,
            final(self).zero_b == old(self).zero_b,
            final(self).x.cols@.len() + 1 >= old(self).x.cols@.len(),
            forall|c: int|
                0 <= c < final(self).x.cols@.len() ==> meets_first(
                    rows,
                    b,
                    #[trigger] final(self).x.active()[c],
                    i + 1,
                    final(self).n as int,
                ),
            final(self).zero_b ==> forall|c: int|
                0 <= c < final(self).x.cols@.len() ==> !(#[trigger] final(self).x.active()[c])[final(self).n as int],
            forall|c: Seq<bool>|
                old(self).x.active().contains(c) && !syn(rows[i as int], b[i as int], c, old(self).n as int)
                    ==> #[trigger] final(self).x.active().contains(c),
            (forall|c: Seq<bool>| #[trigger] old(self).x.active().contains(c) ==> !syn(rows[i as int], b[i as int], c, old(self).n as int))
                || exists|p: Seq<bool>| {
                &&& #[trigger] old(self).x.active().contains(p)
                &&& syn(rows[i as int], b[i as int], p, old(self).n as int)
                &&& forall|c: Seq<bool>|
                    old(self).x.active().contains(c) && syn(rows[i as int], b[i as int], c, old(self).n as int) && c != p
                        ==> #[trigger] final(self).x.active().contains(crate::bits::xor_seq(c, p))
            },
    {
        let ghost n = self.n as int;
        let ghost row = rows[i as int];
        let ghost bi = b[i as int];
        let ghost start = self.x.active();
        let bad_col_n = self.detach_bad_columns(Ghost(rows), Ghost(b), i);
        let ghost mid_active = self.x.active();
        let ghost mid_removed = self.x.removed();
        let ghost top = self.x.removed_cols@.len();
        proof {
            assert forall|c: int| 0 <= c < mid_active.len() implies meets_first(rows, b, #[trigger] mid_active[c], i + 1, n)
                && (self.zero_b ==> !mid_active[c][n]) by {
                let j = choose|j: int| 0 <= j < start.len() && start[j] == mid_active[c];
                assert(meets_first(rows, b, start[j], i as int, n));
            }
            assert forall|q: int| top - bad_col_n <= q < top implies meets_first(rows, b, #[trigger] mid_removed[q], i as int, n)
                && syn(row, bi, mid_removed[q], n) && (self.zero_b ==> !mid_removed[q][n]) by {
                let j = choose|j: int| 0 <= j < start.len() && start[j] == mid_removed[q];
                assert(meets_first(rows, b, start[j], i as int, n));
            }
        }
        self.recombine_bad_columns(Ghost(rows), Ghost(b), i, bad_col_n);
        proof {
            assert forall|c: int| 0 <= c < self.x.cols@.len() implies meets_first(
                rows,
                b,
                #[trigger] self.x.active()[c],
                i + 1,
                n,
            ) by {
                if c < mid_active.len() {
                    assert(self.x.active()[c] == mid_active[c]);
                }
            }
            assert forall|c: int| self.zero_b && 0 <= c < self.x.cols@.len() implies !(#[trigger] self.x.active()[c])[n] by {
                if c < mid_active.len() {
                    assert(self.x.active()[c] == mid_active[c]);
                }
            }
            assert forall|c: Seq<bool>| start.contains(c) && !syn(row, bi, c, n) implies #[trigger] self.x.active().contains(c) by {
                assert(mid_active.contains(c));
            }
            if bad_col_n > 0 {
                let p = mid_removed.last();
                assert(mid_removed[top - 1] == p);
                assert(start.contains(p) && syn(row, bi, p, n));
                assert forall|c: Seq<bool>| start.contains(c) && syn(row, bi, c, n) && c != p implies #[trigger] self.x.active().contains(
                    crate::bits::xor_seq(c, p),
                ) by {
                    let q = choose|q: int| top - bad_col_n <= q < top && #[trigger] mid_removed[q] == c;
                }
            } else {
                assert forall|c: Seq<bool>| #[trigger] start.contains(c) implies !syn(row, bi, c, n) by {
                    if syn(row, bi, c, n) {
                        let q = choose|q: int| top <= q < top && #[trigger] mid_removed[q] == c;
                    }
                }
            }
        }
        proof {
            let fin = self.x.active();
            let ml = mid_active.len();
            let f = |x: Seq<bool>| syn(row, bi, x, n);
            assert(all_of_len(start, (n + 1) as nat));
            if bad_col_n > 1 {
                let p = mid_removed.last();
                assert(mid_removed[top - 1] == p);
                // every column now in use is a kept one or a bad one plus the pivot
                assert forall|e: Seq<bool>| #[trigger] fin.contains(e) implies (start.contains(e) && !f(e)) || exists|c: Seq<bool>|
                    start.contains(c) && f(c) && c != p && e == crate::bits::xor_seq(c, p) by {
                    let j = choose|j: int| 0 <= j < fin.len() && fin[j] == e;
                    if j < ml {
                        assert(fin[j] == mid_active[j]);
                    } else {
                        let t = j - ml;
                        let q = top - 2 - t;
                        assert(fin[ml + t] == crate::bits::xor_seq(mid_removed[q], p));
                        assert(mid_removed[q] != mid_removed[top - 1]);
                    }
                }
                lemma_unit_coordinates_step(f, p, start, fin, (n + 1) as nat);
                assert forall|j1: int, j2: int| 0 <= j1 < fin.len() && 0 <= j2 < fin.len() && j1 != j2 implies fin[j1] != fin[j2] by {
                    if j1 < ml && j2 < ml {
                        assert(fin[j1] == mid_active[j1] && fin[j2] == mid_active[j2]);
                    } else if j1 >= ml && j2 >= ml {
                        let t1 = j1 - ml;
                        let t2 = j2 - ml;
                        let c1 = mid_removed[top - 2 - t1];
                        let c2 = mid_removed[top - 2 - t2];
                        assert(fin[ml + t1] == crate::bits::xor_seq(c1, p));
                        assert(fin[ml + t2] == crate::bits::xor_seq(c2, p));
                        assert(c1 != c2);
                        if fin[j1] == fin[j2] {
                            assert(c1.len() == n + 1 && c2.len() == n + 1);
                            assert(c1 =~= c2) by {
                                assert forall|k: int| 0 <= k < c1.len() implies c1[k] == c2[k] by {
                                    assert(crate::bits::xor_seq(c1, p)[k] == crate::bits::xor_seq(c2, p)[k]);
                                }
                            }
                        }
                    } else {
                        let (jg, jx) = if j1 < ml { (j1, j2) } else { (j2, j1) };
                        let g = mid_active[jg];
                        let tx = jx - ml;
                        let c = mid_removed[top - 2 - tx];
                        assert(fin[jg] == g);
                        assert(fin[ml + tx] == crate::bits::xor_seq(c, p));
                        assert(start.contains(c) && f(c));
                        assert(start.contains(g) && !f(g));
                        assert(c != p);
                        let d = choose|d: int|
                            0 <= d < n + 1 && c[d] && forall|e: Seq<bool>| start.contains(e) && e != c ==> !#[trigger] e[d];
                        assert(!g[d] && !p[d]);
                        assert(crate::bits::xor_seq(c, p)[d]);
                    }
                }
            } else {
                assert(fin == mid_active);
                assert forall|e: Seq<bool>| #[trigger] fin.contains(e) implies (start.contains(e) && !f(e)) || exists|c: Seq<bool>|
                    start.contains(c) && f(c) && c != e && e == crate::bits::xor_seq(c, e) by {
                    let j = choose|j: int| 0 <= j < fin.len() && fin[j] == e;
                }
                assert forall|e: Seq<bool>| #[trigger] fin.contains(e) implies exists|d: int|
                    0 <= d < n + 1 && e[d] && forall|e2: Seq<bool>| fin.contains(e2) && e2 != e ==> !#[trigger] e2[d] by {
                    let j = choose|j: int| 0 <= j < fin.len() && fin[j] == e;
                    assert(start.contains(e));
                    let d = choose|d: int|
                        0 <= d < n + 1 && e[d] && forall|x: Seq<bool>| start.contains(x) && x != e ==> !#[trigger] x[d];
                    assert forall|e2: Seq<bool>| fin.contains(e2) && e2 != e implies !#[trigger] e2[d] by {
                        let j2 = choose|j2: int| 0 <= j2 < fin.len() && fin[j2] == e2;
                        assert(start.contains(e2));
                    }
                }
            }
        }
    }

    /// Reads off a solution from the columns in use, which all meet every
    /// equation: with `b = 0` the first of them (zero where none is left); else
    /// one whose last coordinate is one, which is then added into the others
    /// that have one there, so that those left in use span solutions of
    /// `u · x = 0`. Fails where no column has a one there.
    #[verifier::rlimit(40)]
    fn take_arbitrary_solution_from_x(&mut self, Ghost(rows): Ghost<Seq<Seq<bool>>>, Ghost(b): Ghost<Seq<bool>>) -> (r: Option<()>)
        requires
            old(self).wf(),
            rows.len() == old(self).n,
            b.len() == old(self).n,
            old(self).zero_b == (forall|j: int| 0 <= j < b.len() ==> !b[j]),
            forall|c: int|
                0 <= c < old(self).x.cols@.len() ==> meets_first(
                    rows,
                    b,
                    #[trigger] old(self).x.active()[c],
                    old(self).n as int,
                    old(self).n as int,
                ),
            old(self).zero_b ==> forall|c: int|
                0 <= c < old(self).x.cols@.len() ==> !(#[trigger] old(self).x.active()[c])[old(self).n as int],
            forall|v: Seq<bool>|
                v.len() == old(self).n + 1 && (old(self).zero_b ==> !v[old(self).n as int]) && #[trigger] meets_first(
                    rows,
                    b,
                    v,
                    old(self).n as int,
                    old(self).n as int,
                ) ==> in_span(old(self).x.active(), v, (old(self).n + 1) as nat),
            old(self).x.active().no_duplicates(),
            has_unit_coordinates(old(self).x.active(), (old(self).n + 1) as nat),
            old(self).x.cols@.len() <= if old(self).zero_b { old(self).n as int } else { old(self).n + 1 },
        ensures
            r is Some ==> final(self).x.active().no_duplicates(),
            r is Some ==> has_unit_coordinates(final(self).x.active(), (old(self).n + 1) as nat),
            r is Some ==> final(self).x.cols@.len() <= old(self).n,
            final(self).wf(),
            final(self).n == old(self).n,
            final(self).zero_b == old(self).zero_b,
            r is Some ==> forall|x: Seq<bool>|
                x.len() == final(self).n && #[trigger] mat_vec(rows, x, final(self).n as int) == zeros(final(self).n as nat)
                    ==> in_span(final(self).x.active(), x.push(false), (final(self).n + 1) as nat),
            r is Some ==> mat_vec(rows, final(self).solution@, final(self).n as int) == b,
            r is Some ==> forall|c: int|
                0 <= c < final(self).x.cols@.len() ==> !(#[trigger] final(self).x.active()[c])[final(self).n as int]
                    && meets_first(rows, b, final(self).x.active()[c], final(self).n as int, final(self).n as int),
            old(self).zero_b ==> r is Some,
            (exists|c: int| 0 <= c < old(self).x.cols@.len() && (#[trigger] old(self).x.active()[c])[old(self).n as int]) ==> r is Some,
    {
        let n = self.n;
        let mut found: Option<usize> = None;
        if self.zero_b {
            if self.x.cols.len() == 0 {
                self.solution.clear();
                proof {
                    assert forall|x: Seq<bool>|
                        x.len() == n && #[trigger] mat_vec(rows, x, n as int) == zeros(n as nat)
                            implies in_span(self.x.active(), x.push(false), (n + 1) as nat) by {
                        let v = x.push(false);
                        assert forall|j: int| 0 <= j < n implies !#[trigger] syn(rows[j], b[j], v, n as int) by {
                            lemma_dot_prefix(rows[j], v, rows[j], x, n as int);
                            assert(mat_vec(rows, x, n as int)[j] == zeros(n as nat)[j]);
                        }
                        assert(meets_first(rows, b, v, n as int, n as int));
                    }
                    assert forall|j: int| 0 <= j < n implies !dot(rows[j], self.solution@, n as int) by {
                        crate::bits::lemma_dot_zero(rows[j], self.solution@, n as int);
                    }
                    assert(mat_vec(rows, self.solution@, n as int) =~= b);
                }
                return Some(());
            }
            found = Some(0);
        } else {
            let mut c: usize = 0;
            while c < self.x.cols.len() && found.is_none()
                invariant
                    self.wf(),
                    self.n == n,
                    !self.zero_b,
                    self.x == old(self).x,
                    c <= self.x.cols@.len(),
                    match found {
                        Some(f) => f < self.x.cols@.len() && self.x.active()[f as int][n as int],
                        None => forall|k: int| 0 <= k < c ==> !(#[trigger] self.x.active()[k])[n as int],
                    },
                decreases self.x.cols@.len() - c,
            {
                if self.x.cols[c].get(n) {
                    found = Some(c);
                }
                c = c + 1;
            }
        }
        match found {
            None => None,
            Some(col_idx) => {
                assert(col_idx < self.x.cols@.len());
                let ghost col = self.x.active()[col_idx as int];
                assert(meets_first(rows, b, col, n as int, n as int));
                assert(self.zero_b || col[n as int]);
                let mut j: usize = 0;
                while j < n
                    invariant
                        self.wf(),
                        self.n == n,
                        self.x == old(self).x,
                        self.zero_b == old(self).zero_b,
                        col_idx < self.x.cols@.len(),
                        col == self.x.active()[col_idx as int],
                        j <= n,
                        forall|k: int| 0 <= k < j ==> self.solution@[k] == col[k],
                    decreases n - j,
                {
                    let v = self.x.cols[col_idx].get(j);
                    self.solution.set(j, v);
                    j = j + 1;
                }
                proof {
                    assert forall|e: int| 0 <= e < n implies #[trigger] dot(rows[e], self.solution@, n as int) == b[e] by {
                        lemma_dot_prefix(rows[e], self.solution@, rows[e], col, n as int);
                        assert(!syn(rows[e], b[e], col, n as int));
                    }
                    assert(mat_vec(rows, self.solution@, n as int) =~= b);
                }
                let ghost before = self.x.active();
                if !self.zero_b {
                    self.calculate_nullspace_from_solution_column(col_idx, Ghost(rows), Ghost(b));
                }
                proof {
                    assert forall|x: Seq<bool>|
                        x.len() == n && #[trigger] mat_vec(rows, x, n as int) == zeros(n as nat)
                            implies in_span(self.x.active(), x.push(false), (n + 1) as nat) by {
                        let v = x.push(false);
                        assert forall|j: int| 0 <= j < n implies !#[trigger] syn(rows[j], b[j], v, n as int) by {
                            lemma_dot_prefix(rows[j], v, rows[j], x, n as int);
                            assert(mat_vec(rows, x, n as int)[j] == zeros(n as nat)[j]);
                        }
                        assert(meets_first(rows, b, v, n as int, n as int));
                        assert(in_span(before, v, (n + 1) as nat));
                        if !self.zero_b {
                            lemma_coordinate_linear(n as int, (n + 1) as nat);
                            assert(all_of_len(before, (n + 1) as nat)) by {
                                assert forall|k: int| 0 <= k < before.len() implies (#[trigger] before[k]).len() == n + 1 by {
                                }
                            }
                            lemma_span_step(|c: Seq<bool>| c[n as int], col, before, self.x.active(), v, (n + 1) as nat);
                        }
                    }
                }
                Some(())
            }
        }
    }
    /// Sets aside the column at `col_idx`, whose last coordinate is one, and
    /// adds it into every other column in use whose last coordinate is one.
    #[verifier::rlimit(40)]
    fn calculate_nullspace_from_solution_column(&mut self, col_idx: usize, Ghost(rows): Ghost<Seq<Seq<bool>>>, Ghost(b): Ghost<Seq<bool>>)
        requires
            old(self).wf(),
            col_idx < old(self).x.cols@.len(),
            old(self).x.active()[col_idx as int][old(self).n as int],
            forall|c: int|
                0 <= c < old(self).x.cols@.len() ==> meets_first(
                    rows,
                    b,
                    #[trigger] old(self).x.active()[c],
                    old(self).n as int,
                    old(self).n as int,
                ),
            old(self).x.active().no_duplicates(),
            has_unit_coordinates(old(self).x.active(), (old(self).n + 1) as nat),
        ensures
            final(self).x.active().no_duplicates(),
            has_unit_coordinates(final(self).x.active(), (old(self).n + 1) as nat),
            final(self).x.cols@.len() + 1 == old(self).x.cols@.len(),
            final(self).wf(),
            final(self).n == old(self).n,
            final(self).zero_b == old(self).zero_b,
            final(self).solution == old(self).solution,
            forall|c: int|
                0 <= c < final(self).x.cols@.len() ==> !(#[trigger] final(self).x.active()[c])[final(self).n as int]
                    && meets_first(rows, b, final(self).x.active()[c], final(self).n as int, final(self).n as int),
            forall|c: Seq<bool>|
                old(self).x.active().contains(c) && !c[old(self).n as int] ==> #[trigger] final(self).x.active().contains(c),
            forall|c: Seq<bool>|
                old(self).x.active().contains(c) && c[old(self).n as int] && c != old(self).x.active()[col_idx as int]
                    ==> #[trigger] final(self).x.active().contains(crate::bits::xor_seq(c, old(self).x.active()[col_idx as int])),
    {
        let n = self.n;
        let ghost nn = n as int;
        let ghost start = self.x.active();
        self.x.remove_col(col_idx);
        let ghost mid = self.x.active();
        let sol_col = self.x.pop_from_removed();
        let ghost sc = sol_col@;
        assert(meets_first(rows, b, sc, nn, nn));
        let ncols = self.x.cols.len();
        let mut c: usize = 0;
        while c < ncols
            invariant
                self.n == n,
                nn == n,
                n < usize::MAX,
                self.x.wf(),
                self.x.number_of_rows == n + 1,
                self.solution == old(self).solution,
                self.solution@.len() == n,
                self.syndrome@.len() == n + 1,
                self.zero_b == old(self).zero_b,
                self.x.cols@.len() + self.x.removed_cols@.len() + 1 == n + 1,
                ncols == self.x.cols@.len(),
                sc == sol_col@,
                sc.len() == n + 1,
                sc[nn],
                meets_first(rows, b, sc, nn, nn),
                c <= ncols,
                forall|k: int|
                    0 <= k < ncols ==> meets_first(rows, b, #[trigger] self.x.active()[k], nn, nn),
                forall|k: int| 0 <= k < c ==> !(#[trigger] self.x.active()[k])[nn],
                mid.len() == ncols,
                sc == start[col_idx as int],
                forall|k: int|
                    0 <= k < ncols ==> #[trigger] self.x.active()[k] == if k < c && mid[k][nn] {
                        crate::bits::xor_seq(mid[k], sc)
                    } else {
                        mid[k]
                    },
            decreases ncols - c,
        {
            if self.x.cols[c].get(n) {
                let ghost prev = self.x.active();
                let ghost before = prev[c as int];
                self.x.cols[c].xor_with(&sol_col);
                assert forall|k: int| 0 <= k < ncols && k != c implies #[trigger] self.x.active()[k] == prev[k] by {}
                assert forall|j: int| 0 <= j < nn implies !#[trigger] syn(rows[j], b[j], self.x.active()[c as int], nn) by {
                    lemma_syn_xor(rows[j], b[j], before, sc, nn);
                }
            }
            c = c + 1;
        }
        self.x.put_back_in_removed(sol_col);
        proof {
            assert forall|v: Seq<bool>| start.contains(v) && !v[nn] implies #[trigger] self.x.active().contains(v) by {
                let j = choose|j: int| 0 <= j < start.len() && start[j] == v;
                let j2 = if j < col_idx { j } else { j - 1 };
                assert(j != col_idx);
                assert(mid[j2] == v);
                assert(self.x.active()[j2] == v);
            }
            assert forall|v: Seq<bool>| start.contains(v) && v[nn] && v != sc implies #[trigger] self.x.active().contains(
                crate::bits::xor_seq(v, sc),
            ) by {
                let j = choose|j: int| 0 <= j < start.len() && start[j] == v;
                let j2 = if j < col_idx { j } else { j - 1 };
                assert(j != col_idx);
                assert(mid[j2] == v);
                assert(self.x.active()[j2] == crate::bits::xor_seq(v, sc));
            }
            let fin = self.x.active();
            let f = |x: Seq<bool>| x[nn];
            assert(all_of_len(start, (n + 1) as nat));
            assert forall|k: int| 0 <= k < mid.len() implies #[trigger] mid[k] != sc && start.contains(mid[k]) by {
                let k2 = if k < col_idx { k } else { k + 1 };
                assert(mid[k] == start[k2]);
                assert(k2 != col_idx);
            }
            assert forall|e: Seq<bool>| #[trigger] fin.contains(e) implies (start.contains(e) && !f(e)) || exists|c: Seq<bool>|
                start.contains(c) && f(c) && c != sc && e == crate::bits::xor_seq(c, sc) by {
                let j = choose|j: int| 0 <= j < fin.len() && fin[j] == e;
                assert(mid[j] != sc && start.contains(mid[j]));
            }
            lemma_unit_coordinates_step(f, sc, start, fin, (n + 1) as nat);
            assert forall|j1: int, j2: int| 0 <= j1 < fin.len() && 0 <= j2 < fin.len() && j1 != j2 implies fin[j1] != fin[j2] by {
                let m1 = mid[j1];
                let m2 = mid[j2];
                assert(mid[j1] != sc && start.contains(mid[j1]));
                assert(mid[j2] != sc && start.contains(mid[j2]));
                lemma_remove_no_duplicates(start, col_idx as int);
                assert(m1 != m2);
                if m1[nn] && m2[nn] {
                    if fin[j1] == fin[j2] {
                        assert(m1 =~= m2) by {
                            assert forall|k: int| 0 <= k < m1.len() implies m1[k] == m2[k] by {
                                assert(crate::bits::xor_seq(m1, sc)[k] == crate::bits::xor_seq(m2, sc)[k]);
                            }
                        }
                    }
                } else if m1[nn] != m2[nn] {
                    let (g, c) = if m1[nn] { (m2, m1) } else { (m1, m2) };
                    let d = choose|d: int|
                        0 <= d < n + 1 && c[d] && forall|x: Seq<bool>| start.contains(x) && x != c ==> !#[trigger] x[d];
                    assert(!g[d] && !sc[d]);
                    assert(crate::bits::xor_seq(c, sc)[d]);
                }
            }
        }
    }

    /// Cuts the basis down by equation `i` of `[u | b]`.
    fn reformulate_x_from_augmented_system(&mut self, i: usize, u: &BitMatrix, b: &Bitstring)
        requires
            old(self).wf(),
            u.wf(),
            u.rows@.len() == old(self).n,
            u.number_of_columns == old(self).n,
            b@.len() == old(self).n,
            i < old(self).n,
            forall|c: int|
                0 <= c < old(self).x.cols@.len() ==> meets_first(
                    u.view(),
                    b@,
                    #[trigger] old(self).x.active()[c],
                    i as int,
                    old(self).n as int,
                ),
            old(self).zero_b ==> forall|c: int|
                0 <= c < old(self).x.cols@.len() ==> !(#[trigger] old(self).x.active()[c])[old(self).n as int],
            old(self).x.active().no_duplicates(),
            has_unit_coordinates(old(self).x.active(), (old(self).n + 1) as nat),
        ensures
            final(self).x.active().no_duplicates(),
            has_unit_coordinates(final(self).x.active(), (old(self).n + 1) as nat),
            final(self).x.cols@.len() <= old(self).x.cols@.len(),
            final(self).wf(),
            final(self).n == old(self).n,
            final(self).zero_b == old(self).zero_b,
            final(self).x.cols@.len() + 1 >= old(self).x.cols@.len(),
            forall|c: int|
                0 <= c < final(self).x.cols@.len() ==> meets_first(
                    u.view(),
                    b@,
                    #[trigger] final(self).x.active()[c],
                    i + 1,
                    final(self).n as int,
                ),
            final(self).zero_b ==> forall|c: int|
                0 <= c < final(self).x.cols@.len() ==> !(#[trigger] final(self).x.active()[c])[final(self).n as int],
            forall|c: Seq<bool>|
                old(self).x.active().contains(c) && !syn(u.view()[i as int], b@[i as int], c, old(self).n as int)
                    ==> #[trigger] final(self).x.active().contains(c),
            (forall|c: Seq<bool>| #[trigger] old(self).x.active().contains(c) ==> !syn(u.view()[i as int], b@[i as int], c, old(self).n as int))
                || exists|p: Seq<bool>| {
                &&& #[trigger] old(self).x.active().contains(p)
                &&& syn(u.view()[i as int], b@[i as int], p, old(self).n as int)
                &&& forall|c: Seq<bool>|
                    old(self).x.active().contains(c) && syn(u.view()[i as int], b@[i as int], c, old(self).n as int) && c != p
                        ==> #[trigger] final(self).x.active().contains(crate::bits::xor_seq(c, p))
            },
    {
        self.find_syndrome(i, u, b);
        self.sort_bad_and_good_columns(Ghost(u.view()), Ghost(b@), i);
    }

    /// `n` less the number of basis columns in use, or zero where more are in use.
    pub open spec fn rank_spec(&self) -> nat {
        if self.x.cols@.len() <= self.n {
            (self.n - self.x.cols@.len()) as nat
        } else {
            0
        }
    }

    /// The rank of the last system solved: `n` less the number of basis
    /// columns in use.
    pub fn rank(&self) -> (r: usize)
        ensures
            r == self.rank_spec(),
    {
        self.n.saturating_sub(self.x.cols.len())
    }

    /// Whether no basis column is left in use.
    pub fn is_full_rank(&self) -> (r: bool)
        ensures
            r == (self.x.cols@.len() == 0),
    {
        self.x.cols.len() == 0
    }

    /// Solves `u · x = b` over GF(2) into `self.solution`, succeeding exactly
    /// when the system has a solution. On success the columns left in use
    /// (read as `(x, 0)`) form a basis of the nullspace of `u`: independent,
    /// and every solution of `u · x = 0` is a sum of them; so `rank` reports
    /// `n` less the dimension of the nullspace, and the nullspace has
    /// `2^(n - rank)` elements. Which solution is written is deliberately left
    /// open: any solution serves, and what callers compute from it (the parity
    /// against a vector orthogonal to the nullspace) is the same for all.
    #[verifier::rlimit(40)]
    pub fn solve(&mut self, u: &BitMatrix, b: &Bitstring) -> (r: Option<()>)
        requires
            old(self).wf(),
            u.wf(),
            u.rows@.len() == old(self).n,
            u.number_of_columns == old(self).n,
            b@.len() == old(self).n,
        ensures
            final(self).wf(),
            final(self).n == old(self).n,
            r is Some ==> mat_vec(u.view(), final(self).solution@, final(self).n as int) == b@,
            (exists|x: Seq<bool>| x.len() == old(self).n && #[trigger] mat_vec(u.view(), x, old(self).n as int) == b@)
                ==> r is Some,
            r is Some ==> final(self).spans_kernel_of(u.view()),
            r is Some ==> independent(final(self).basis(), (final(self).n + 1) as nat) && final(self).basis().no_duplicates(),
            r is Some ==> has_unit_coordinates(final(self).basis(), (final(self).n + 1) as nat),
            r is Some ==> final(self).rank_spec() == final(self).n - final(self).basis().len(),
            r is Some ==> crate::span::kernel(u.view(), final(self).n as nat).len() == vstd::arithmetic::power2::pow2(
                (final(self).n - final(self).rank_spec()) as nat,
            ),
    {
        self.reset(b);
        let n = self.n;
        proof {
            let start = self.x.active();
            let len = start.len();
            lemma_units_have_unit_coordinates(start, (n + 1) as nat);
            assert forall|j: int| 0 <= j < len implies start.contains(#[trigger] unit(j, (n + 1) as nat)) by {
                assert(start[j] == unit(j, (n + 1) as nat));
            }
            assert forall|v: Seq<bool>|
                v.len() == n + 1 && (self.zero_b ==> !v[n as int]) && #[trigger] meets_first(u.view(), b@, v, 0, n as int)
                    implies in_span(start, v, (n + 1) as nat) by {
                lemma_units_span(start, v, len as int);
            }
        }
        let mut i: usize = 0;
        while i < n
            invariant
                self.wf(),
                self.n == n,
                i <= n,
                u.wf(),
                u.rows@.len() == n,
                u.number_of_columns == n,
                b@.len() == n,
                self.zero_b == (forall|j: int| 0 <= j < b@.len() ==> !b@[j]),
                self.x.cols@.len() + i >= if self.zero_b { n as int } else { n + 1 },
                forall|c: int|
                    0 <= c < self.x.cols@.len() ==> meets_first(
                        u.view(),
                        b@,
                        #[trigger] self.x.active()[c],
                        i as int,
                        n as int,
                    ),
                self.zero_b ==> forall|c: int|
                    0 <= c < self.x.cols@.len() ==> !(#[trigger] self.x.active()[c])[n as int],
                forall|v: Seq<bool>|
                    v.len() == n + 1 && (self.zero_b ==> !v[n as int]) && #[trigger] meets_first(u.view(), b@, v, i as int, n as int)
                        ==> in_span(self.x.active(), v, (n + 1) as nat),
                self.x.active().no_duplicates(),
                has_unit_coordinates(self.x.active(), (n + 1) as nat),
                self.x.cols@.len() <= if self.zero_b { n as int } else { n + 1 },
            ensures
                i == n || self.x.cols@.len() == 0,
            decreases n - i,
        {
            let ghost before = self.x.active();
            self.reformulate_x_from_augmented_system(i, u, b);
            proof {
                let row = u.view()[i as int];
                let bi = b@[i as int];
                let f = |c: Seq<bool>| syn(row, bi, c, n as int);
                lemma_syn_linear(row, bi, n as int);
                assert(all_of_len(before, (n + 1) as nat)) by {
                    assert forall|k: int| 0 <= k < before.len() implies (#[trigger] before[k]).len() == n + 1 by {
                    }
                }
                assert forall|v: Seq<bool>|
                    v.len() == n + 1 && (self.zero_b ==> !v[n as int]) && #[trigger] meets_first(u.view(), b@, v, i + 1, n as int)
                        implies in_span(self.x.active(), v, (n + 1) as nat) by {
                    assert(meets_first(u.view(), b@, v, i as int, n as int));
                    assert(!syn(row, bi, v, n as int));
                    if forall|c: Seq<bool>| #[trigger] before.contains(c) ==> !syn(row, bi, c, n as int) {
                        assert forall|c: Seq<bool>| #[trigger] before.contains(c) implies self.x.active().contains(c) by {}
                        lemma_span_keep(before, self.x.active(), v, (n + 1) as nat);
                    } else {
                        let p = choose|p: Seq<bool>| {
                            &&& #[trigger] before.contains(p)
                            &&& syn(row, bi, p, n as int)
                            &&& forall|c: Seq<bool>|
                                before.contains(c) && syn(row, bi, c, n as int) && c != p
                                    ==> #[trigger] self.x.active().contains(crate::bits::xor_seq(c, p))
                        };
                        lemma_span_step(f, p, before, self.x.active(), v, (n + 1) as nat);
                    }
                }
            }
            i = i + 1;
            if self.is_full_rank() {
                // every unknown is pinned down; with a nonzero right-hand side
                // the extra column is still in use, so here b = 0 and x = 0
                assert(self.zero_b);
                break;
            }
        }
        assert forall|c: int| 0 <= c < self.x.cols@.len() implies meets_first(
            u.view(),
            b@,
            #[trigger] self.x.active()[c],
            n as int,
            n as int,
        ) by {}
        proof {
            if !self.zero_b && exists|x: Seq<bool>| x.len() == n && #[trigger] mat_vec(u.view(), x, n as int) == b@ {
                let x = choose|x: Seq<bool>| x.len() == n && #[trigger] mat_vec(u.view(), x, n as int) == b@;
                let v = x.push(true);
                assert forall|j: int| 0 <= j < n implies !#[trigger] syn(u.view()[j], b@[j], v, n as int) by {
                    lemma_dot_prefix(u.view()[j], v, u.view()[j], x, n as int);
                    assert(mat_vec(u.view(), x, n as int)[j] == b@[j]);
                }
                assert(meets_first(u.view(), b@, v, i as int, n as int));
                let active = self.x.active();
                assert(in_span(active, v, (n + 1) as nat));
                if forall|c: int| 0 <= c < self.x.cols@.len() ==> !(#[trigger] active[c])[n as int] {
                    lemma_coordinate_linear(n as int, (n + 1) as nat);
                    assert(all_of_len(active, (n + 1) as nat)) by {
                        assert forall|k: int| 0 <= k < active.len() implies (#[trigger] active[k]).len() == n + 1 by {
                        }
                    }
                    assert forall|c: Seq<bool>| #[trigger] active.contains(c) implies !c[n as int] by {
                        let k = choose|k: int| 0 <= k < active.len() && active[k] == c;
                    }
                    lemma_linear_vanishes_on_span(|c: Seq<bool>| c[n as int], active, v, (n + 1) as nat);
                    assert(false);
                }
            }
        }
        assert forall|v: Seq<bool>|
            v.len() == n + 1 && (self.zero_b ==> !v[n as int]) && #[trigger] meets_first(u.view(), b@, v, n as int, n as int)
                implies in_span(self.x.active(), v, (n + 1) as nat) by {
            assert(meets_first(u.view(), b@, v, i as int, n as int));
        }
        let r = self.take_arbitrary_solution_from_x(Ghost(u.view()), Ghost(b@));
        proof {
            if r is Some {
                assert(all_of_len(self.basis(), (n + 1) as nat));
                lemma_unit_coordinates_independent(self.basis(), (n + 1) as nat);
                assert forall|c: int| 0 <= c < self.x.cols@.len() implies !(#[trigger] self.basis()[c])[n as int]
                    && mat_vec(u.view(), self.basis()[c], n as int) == zeros(n as nat) by {
                    let col = self.basis()[c];
                    assert forall|e: int| 0 <= e < n implies !#[trigger] dot(u.view()[e], col, n as int) by {
                        assert(!syn(u.view()[e], b@[e], col, n as int));
                    }
                    assert(mat_vec(u.view(), col, n as int) =~= zeros(n as nat));
                }
                crate::span::lemma_kernel_size(u.view(), self.basis(), n as nat);
            }
        }
        r
    }

    /// Whether `codeword` is orthogonal, over its first `n` coordinates, to
    /// every basis column in use.
    pub fn is_nullspace_codeword(&self, codeword: &Bitstring) -> (r: bool)
        requires
            self.wf(),
            codeword@.len() == self.n,
        ensures
            r == forall|c: int|
                0 <= c < self.x.cols@.len() ==> !dot(codeword@, #[trigger] self.basis()[c], self.n as int),
    {
        let mut c: usize = 0;
        while c < self.x.cols.len()
            invariant
                self.wf(),
                codeword@.len() == self.n,
                c <= self.x.cols@.len(),
                forall|k: int| 0 <= k < c ==> !dot(codeword@, #[trigger] self.basis()[k], self.n as int),
            decreases self.x.cols@.len() - c,
        {
            assert(self.x.cols@[c as int]@ == self.basis()[c as int]);
            if codeword.and_parity(&self.x.cols[c], self.n) {
                return false;
            }
            c = c + 1;
        }
        true
    }
} // impl

/// After a successful solve, a codeword passes `is_nullspace_codeword`
/// (is orthogonal to every basis column) exactly when it is orthogonal to
/// every solution of `rows · x = 0`.
pub proof fn lemma_codeword_iff_orthogonal_to_nullspace(s: SergeySolver, rows: Seq<Seq<bool>>, v: Seq<bool>)
    requires
        s.wf(),
        s.spans_kernel_of(rows),
        v.len() == s.n,
    ensures
        (forall|c: int| 0 <= c < s.basis().len() ==> !dot(v, #[trigger] s.basis()[c], s.n as int)) <==> (forall|x: Seq<bool>|
            x.len() == s.n && #[trigger] mat_vec(rows, x, s.n as int) == zeros(s.n as nat) ==> !dot(v, x, s.n as int)),
{
    let n = s.n as int;
    let len = (s.n + 1) as nat;
    if forall|c: int| 0 <= c < s.basis().len() ==> !dot(v, #[trigger] s.basis()[c], n) {
        let g = |c: Seq<bool>| dot(v, c, n);
        crate::bits::lemma_dot_zero(v, zeros(len), n);
        assert forall|a: Seq<bool>, b: Seq<bool>| a.len() == len && b.len() == len implies #[trigger] g(
            crate::bits::xor_seq(a, b),
        ) == (g(a) != g(b)) by {
            crate::bits::lemma_dot_xor(v, a, b, n);
        }
        assert(all_of_len(s.basis(), len));
        assert forall|c: Seq<bool>| #[trigger] s.basis().contains(c) implies !g(c) by {
            let k = choose|k: int| 0 <= k < s.basis().len() && s.basis()[k] == c;
        }
        assert forall|x: Seq<bool>| x.len() == s.n && #[trigger] mat_vec(rows, x, n) == zeros(s.n as nat) implies !dot(v, x, n) by {
            lemma_linear_vanishes_on_span(g, s.basis(), x.push(false), len);
            lemma_dot_prefix(v, x.push(false), v, x, n);
        }
    }
    if forall|x: Seq<bool>| x.len() == s.n && #[trigger] mat_vec(rows, x, n) == zeros(s.n as nat) ==> !dot(v, x, n) {
        assert forall|c: int| 0 <= c < s.basis().len() implies !dot(v, #[trigger] s.basis()[c], n) by {
            let col = s.basis()[c];
            let x = col.take(n);
            assert forall|j: int| 0 <= j < rows.len() implies #[trigger] mat_vec(rows, x, n)[j] == mat_vec(rows, col, n)[j] by {
                lemma_dot_prefix(rows[j], x, rows[j], col, n);
            }
            assert(mat_vec(rows, x, n) =~= mat_vec(rows, col, n));
            lemma_dot_prefix(v, col, v, x, n);
        }
    }
}

} // verus!
