use vstd::prelude::*;

verus! {

use crate::bits::{dot, Bitstring};

/// A dense matrix over GF(2), stored row by row.
pub struct BitMatrix {
    pub number_of_columns: usize,
    pub rows: Vec<Bitstring>,
}

/// The product of a matrix, given by its rows, with a vector over GF(2):
/// coordinate `i` is the inner product of row `i` with `x` over `k` coordinates.
pub open spec fn mat_vec(rows: Seq<Seq<bool>>, x: Seq<bool>, k: int) -> Seq<bool> {
    Seq::new(rows.len(), |i: int| dot(rows[i], x, k))
}

impl BitMatrix {
    /// The rows, each as a sequence of bits.
    pub open spec fn view(&self) -> Seq<Seq<bool>> {
        self.rows@.map_values(|r: Bitstring| r@)
    }

    /// Every row has `number_of_columns` bits.
    pub open spec fn wf(&self) -> bool {
        forall|i: int| 0 <= i < self.rows@.len() ==> #[trigger] self.rows@[i]@.len() == self.number_of_columns
    }

    /// The `rows` × `cols` zero matrix.
    pub fn zeroes(rows: usize, cols: usize) -> (r: Self)
        ensures
            r.wf(),
            r.number_of_columns == cols,
            r.rows@.len() == rows,
            r.view() == Seq::new(rows as nat, |i: int| Seq::new(cols as nat, |j: int| false)),
    {
        let mut v: Vec<Bitstring> = Vec::new();
        let mut i: usize = 0;
        while i < rows
            invariant
                i <= rows,
                v@.len() == i,
                forall|k: int| 0 <= k < i ==> #[trigger] v@[k]@ == Seq::new(cols as nat, |j: int| false),
            decreases rows - i,
        {
            v.push(Bitstring::zeroes(cols));
            i = i + 1;
        }
        let r = Self { number_of_columns: cols, rows: v };
        assert(r.view() =~= Seq::new(rows as nat, |i: int| Seq::new(cols as nat, |j: int| false)));
        r
    }

    /// The entry at row `r`, column `c`.
    pub fn get(&self, r: usize, c: usize) -> (v: bool)
        requires
            self.wf(),
            r < self.rows@.len(),
            c < self.number_of_columns,
        ensures
            v == self.view()[r as int][c as int],
    {
        self.rows[r].get(c)
    }

    /// Writes `v` at row `r`, column `c`.
    pub fn set(&mut self, r: usize, c: usize, v: bool)
        requires
            old(self).wf(),
            r < old(self).rows@.len(),
            c < old(self).number_of_columns,
        ensures
            final(self).wf(),
            final(self).number_of_columns == old(self).number_of_columns,
            final(self).rows@.len() == old(self).rows@.len(),
            final(self).view() == old(self).view().update(
                r as int,
                old(self).view()[r as int].update(c as int, v),
            ),
    {
        self.rows[r].set(c, v);
        assert(self.view() =~= old(self).view().update(
            r as int,
            old(self).view()[r as int].update(c as int, v),
        ));
    }

    /// Negates the entry at row `r`, column `c`.
    pub fn flip(&mut self, r: usize, c: usize)
        requires
            old(self).wf(),
            r < old(self).rows@.len(),
            c < old(self).number_of_columns,
        ensures
            final(self).wf(),
            final(self).number_of_columns == old(self).number_of_columns,
            final(self).rows@.len() == old(self).rows@.len(),
            final(self).view() == old(self).view().update(
                r as int,
                old(self).view()[r as int].update(c as int, !old(self).view()[r as int][c as int]),
            ),
    {
        self.rows[r].flip(c);
        assert(self.view() =~= old(self).view().update(
            r as int,
            old(self).view()[r as int].update(c as int, !old(self).view()[r as int][c as int]),
        ));
    }
}

/// Whether `u · b = 0` over GF(2): every row of `u` has even overlap with the
/// first `u.number_of_columns` bits of `b`.
pub fn is_in_nullspace(u: &BitMatrix, b: &Bitstring) -> (r: bool)
    requires
        u.wf(),
        b@.len() >= u.number_of_columns,
    ensures
        r == (mat_vec(u.view(), b@, u.number_of_columns as int) == Seq::new(u.rows@.len(), |i: int| false)),
{
    let mut i: usize = 0;
    while i < u.rows.len()
        invariant
            u.wf(),
            b@.len() >= u.number_of_columns,
            i <= u.rows@.len(),
            forall|j: int| 0 <= j < i ==> !dot(#[trigger] u.view()[j], b@, u.number_of_columns as int),
        decreases u.rows@.len() - i,
    {
        if u.rows[i].and_parity(b, u.number_of_columns) {
            assert(mat_vec(u.view(), b@, u.number_of_columns as int)[i as int]);
            return false;
        }
        i = i + 1;
    }
    assert(mat_vec(u.view(), b@, u.number_of_columns as int) =~= Seq::new(u.rows@.len(), |i: int| false));
    true
}

} // verus!
