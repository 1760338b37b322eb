use vstd::prelude::*;

verus! {

use crate::bits::Bitstring;

/// Columns over GF(2) split into two pools, those in use and those set aside,
/// so that columns can be detached and brought back without allocating.
pub struct ColumnMatrix {
    pub cols: Vec<Bitstring>,
    pub removed_cols: Vec<Bitstring>,
    pub number_of_rows: usize,
}

impl ColumnMatrix {
    /// The columns in use, in order.
    pub open spec fn active(&self) -> Seq<Seq<bool>> {
        self.cols@.map_values(|c: Bitstring| c@)
    }

    /// The columns set aside, in the order they were set aside.
    pub open spec fn removed(&self) -> Seq<Seq<bool>> {
        self.removed_cols@.map_values(|c: Bitstring| c@)
    }

    /// Every column, in use or not, has `number_of_rows` bits.
    pub open spec fn wf(&self) -> bool {
        &&& forall|i: int| 0 <= i < self.cols@.len() ==> #[trigger] self.cols@[i]@.len() == self.number_of_rows
        &&& forall|i: int|
            0 <= i < self.removed_cols@.len() ==> #[trigger] self.removed_cols@[i]@.len() == self.number_of_rows
    }

    /// `cols` zero columns of `rows` bits each, all in use.
    pub fn zeroes(rows: usize, cols: usize) -> (r: Self)
        ensures
            r.wf(),
            r.number_of_rows == rows,
            r.cols@.len() == cols,
            r.removed_cols@.len() == 0,
            r.active() == Seq::new(cols as nat, |i: int| Seq::new(rows as nat, |j: int| false)),
            r.removed() == Seq::<Seq<bool>>::empty(),
    {
        let mut v: Vec<Bitstring> = Vec::new();
        let mut i: usize = 0;
        while i < cols
            invariant
                i <= cols,
                v@.len() == i,
                forall|k: int| 0 <= k < i ==> #[trigger] v@[k]@ == Seq::new(rows as nat, |j: int| false),
            decreases cols - i,
        {
            v.push(Bitstring::zeroes(rows));
            i = i + 1;
        }
        let r = Self { cols: v, removed_cols: Vec::new(), number_of_rows: rows };
        assert(r.active() =~= Seq::new(cols as nat, |i: int| Seq::new(rows as nat, |j: int| false)));
        assert(r.removed() =~= Seq::<Seq<bool>>::empty());
        r
    }

    /// Sets aside the column in use at `col_idx`.
    pub fn remove_col(&mut self, col_idx: usize)
        requires
            old(self).wf(),
            col_idx < old(self).cols@.len(),
        ensures
            final(self).wf(),
            final(self).number_of_rows == old(self).number_of_rows,
            final(self).cols@.len() == old(self).cols@.len() - 1,
            final(self).removed_cols@.len() == old(self).removed_cols@.len() + 1,
            final(self).active() == old(self).active().remove(col_idx as int),
            final(self).removed() == old(self).removed().push(old(self).active()[col_idx as int]),
    {
        let removed = self.cols.remove(col_idx);
        self.removed_cols.push(removed);
        assert(self.active() =~= old(self).active().remove(col_idx as int));
        assert(self.removed() =~= old(self).removed().push(old(self).active()[col_idx as int]));
    }

    /// Brings every column set aside back into use, after those in use.
    pub fn reset(&mut self)
        requires
            old(self).wf(),
        ensures
            final(self).wf(),
            final(self).number_of_rows == old(self).number_of_rows,
            final(self).cols@.len() == old(self).cols@.len() + old(self).removed_cols@.len(),
            final(self).removed_cols@.len() == 0,
            final(self).active() == old(self).active() + old(self).removed(),
            final(self).removed() == Seq::<Seq<bool>>::empty(),
    {
        self.cols.append(&mut self.removed_cols);
        assert(self.active() =~= old(self).active() + old(self).removed());
        assert(self.removed() =~= Seq::<Seq<bool>>::empty());
    }

    /// Takes out the column set aside last.
    pub fn pop_from_removed(&mut self) -> (r: Bitstring)
        requires
            old(self).wf(),
            old(self).removed_cols@.len() > 0,
        ensures
            final(self).wf(),
            final(self).number_of_rows == old(self).number_of_rows,
            final(self).active() == old(self).active(),
            final(self).cols@.len() == old(self).cols@.len(),
            final(self).removed_cols@.len() == old(self).removed_cols@.len() - 1,
            final(self).removed() == old(self).removed().drop_last(),
            r@ == old(self).removed().last(),
            r@.len() == old(self).number_of_rows,
    {
        let r = self.removed_cols.pop().unwrap();
        assert(self.removed() =~= old(self).removed().drop_last());
        r
    }

    /// Puts a column into use, after those in use.
    pub fn push_back_into_usage(&mut self, to_add: Bitstring)
        requires
            old(self).wf(),
            to_add@.len() == old(self).number_of_rows,
        ensures
            final(self).wf(),
            final(self).number_of_rows == old(self).number_of_rows,
            final(self).cols@.len() == old(self).cols@.len() + 1,
            final(self).removed_cols@.len() == old(self).removed_cols@.len(),
            final(self).active() == old(self).active().push(to_add@),
            final(self).removed() == old(self).removed(),
    {
        self.cols.push(to_add);
        assert(self.active() =~= old(self).active().push(to_add@));
    }

    /// Sets a column aside, after those already set aside.
    pub fn put_back_in_removed(&mut self, to_add: Bitstring)
        requires
            old(self).wf(),
            to_add@.len() == old(self).number_of_rows,
        ensures
            final(self).wf(),
            final(self).number_of_rows == old(self).number_of_rows,
            final(self).cols@.len() == old(self).cols@.len(),
            final(self).removed_cols@.len() == old(self).removed_cols@.len() + 1,
            final(self).active() == old(self).active(),
            final(self).removed() == old(self).removed().push(to_add@),
    {
        self.removed_cols.push(to_add);
        assert(self.removed() =~= old(self).removed().push(to_add@));
    }
}

} // verus!
