use vstd::prelude::*;

verus! {

use bitvec::order::Lsb0;
use bitvec::vec::BitVec;

/// A fixed-length string of bits over GF(2), packed into machine words.
///
/// The packed storage is a `bitvec` bit-vector, which Verus cannot see into;
/// what it holds is named by `bits_of`, and every access goes through one of
/// the small functions below.
#[verifier::external_body]
pub struct Bitstring {
    packed: BitVec<usize, Lsb0>,
}

/// The bits that a bit string holds, in index order.
pub uninterp spec fn bits_of(v: Bitstring) -> Seq<bool>;

impl View for Bitstring {
    type V = Seq<bool>;

    open spec fn view(&self) -> Seq<bool> {
        bits_of(*self)
    }
}

/// Relies on `BitVec::repeat`: a vector of `len` bits, all equal to `false`.
#[verifier::external_body]
pub(crate) fn zeroed(len: usize) -> (r: Bitstring)
    ensures
        bits_of(r) == Seq::new(len as nat, |i: int| false),
{
    Bitstring { packed: BitVec::repeat(false, len) }
}

/// Relies on `BitVec::len`: the number of bits held.
#[verifier::external_body]
pub(crate) fn bit_len(v: &Bitstring) -> (r: usize)
    ensures
        r == bits_of(*v).len(),
{
    v.packed.len()
}

/// Relies on indexing a `BitSlice` by `usize`: the bit at `i`, which must be in bounds.
#[verifier::external_body]
pub(crate) fn bit_at(v: &Bitstring, i: usize) -> (r: bool)
    requires
        i < bits_of(*v).len(),
    ensures
        r == bits_of(*v)[i as int],
{
    v.packed[i]
}

/// Relies on `BitSlice::set`: writes one bit, which must be in bounds.
#[verifier::external_body]
pub(crate) fn set_bit(v: &mut Bitstring, i: usize, b: bool)
    requires
        i < bits_of(*old(v)).len(),
    ensures
        bits_of(*final(v)) == bits_of(*old(v)).update(i as int, b),
{
    v.packed.set(i, b)
}

/// Relies on `BitSlice ^= &BitSlice`: each bit of `a` is xored with the bit of
/// `b` at the same index (the two have the same length).
#[verifier::external_body]
pub(crate) fn xor_assign(a: &mut Bitstring, b: &Bitstring)
    requires
        bits_of(*old(a)).len() == bits_of(*b).len(),
    ensures
        bits_of(*final(a)) == Seq::new(
            bits_of(*old(a)).len(),
            |i: int| bits_of(*old(a))[i] != bits_of(*b)[i],
        ),
{
    a.packed[..] ^= b.packed.as_bitslice();
}

/// Parity of the number of indices below `k` where both `a` and `b` hold a one:
/// the inner product of the first `k` coordinates over GF(2).
pub open spec fn dot(a: Seq<bool>, b: Seq<bool>, k: int) -> bool
    decreases k,
{
    if k <= 0 {
        false
    } else {
        dot(a, b, k - 1) != (a[k - 1] && b[k - 1])
    }
}

/// Coordinate-wise sum over GF(2) of two bit sequences of the same length.
pub open spec fn xor_seq(a: Seq<bool>, b: Seq<bool>) -> Seq<bool> {
    Seq::new(a.len(), |i: int| a[i] != b[i])
}

/// The inner product is linear in its second argument.
pub proof fn lemma_dot_xor(a: Seq<bool>, b: Seq<bool>, c: Seq<bool>, k: int)
    requires
        0 <= k <= b.len(),
        b.len() == c.len(),
    ensures
        dot(a, xor_seq(b, c), k) == (dot(a, b, k) != dot(a, c, k)),
    decreases k,
{
    if k > 0 {
        lemma_dot_xor(a, b, c, k - 1);
    }
}

/// The inner product only reads the first `k` coordinates.
pub proof fn lemma_dot_prefix(a: Seq<bool>, b: Seq<bool>, a2: Seq<bool>, b2: Seq<bool>, k: int)
    requires
        forall|i: int| 0 <= i < k ==> a[i] == a2[i] && b[i] == b2[i],
    ensures
        dot(a, b, k) == dot(a2, b2, k),
    decreases k,
{
    if k > 0 {
        lemma_dot_prefix(a, b, a2, b2, k - 1);
    }
}

/// The inner product is symmetric.
pub proof fn lemma_dot_symmetric(a: Seq<bool>, b: Seq<bool>, k: int)
    ensures
        dot(a, b, k) == dot(b, a, k),
    decreases k,
{
    if k > 0 {
        lemma_dot_symmetric(a, b, k - 1);
    }
}

/// The inner product with an all-zero sequence is zero.
pub proof fn lemma_dot_zero(a: Seq<bool>, b: Seq<bool>, k: int)
    requires
        k <= b.len(),
        forall|i: int| 0 <= i < b.len() ==> !b[i],
    ensures
        !dot(a, b, k),
    decreases k,
{
    if k > 0 {
        lemma_dot_zero(a, b, k - 1);
    }
}

/// `v` with bit `i` negated (unchanged where `i` is out of range).
pub open spec fn toggle_bit(v: Seq<bool>, i: int) -> Seq<bool> {
    if 0 <= i < v.len() {
        v.update(i, !v[i])
    } else {
        v
    }
}

/// Negating a bit twice restores it.
pub proof fn lemma_toggle_bit_twice(v: Seq<bool>, i: int)
    ensures
        toggle_bit(toggle_bit(v, i), i) == v,
{
    assert(toggle_bit(toggle_bit(v, i), i) =~= v);
}

/// Negations of two bits commute.
pub proof fn lemma_toggle_bit_commute(v: Seq<bool>, i: int, j: int)
    ensures
        toggle_bit(toggle_bit(v, i), j) == toggle_bit(toggle_bit(v, j), i),
{
    assert(toggle_bit(toggle_bit(v, i), j) =~= toggle_bit(toggle_bit(v, j), i));
}

impl Bitstring {
    /// A bit string of `len` zeros.
    pub fn zeroes(len: usize) -> (r: Self)
        ensures
            r@ == Seq::new(len as nat, |i: int| false),
    {
        zeroed(len)
    }

    /// The bit string that holds the given booleans.
    pub fn from_bools(v: &Vec<bool>) -> (r: Self)
        ensures
            r@ == v@,
    {
        let mut r = zeroed(v.len());
        let mut i: usize = 0;
        while i < v.len()
            invariant
                i <= v.len(),
                r@.len() == v@.len(),
                forall|j: int| 0 <= j < i ==> r@[j] == v@[j],
                forall|j: int| i <= j < v.len() ==> !r@[j],
            decreases v.len() - i,
        {
            set_bit(&mut r, i, v[i]);
            i = i + 1;
        }
        assert(r@ =~= v@);
        r
    }

    /// The bits, one boolean each.
    pub fn to_bools(&self) -> (r: Vec<bool>)
        ensures
            r@ == self@,
    {
        let n = bit_len(self);
        let mut r: Vec<bool> = Vec::new();
        let mut i: usize = 0;
        while i < n
            invariant
                i <= n,
                n == self@.len(),
                r@ == self@.take(i as int),
            decreases n - i,
        {
            r.push(bit_at(self, i));
            i = i + 1;
            assert(r@ =~= self@.take(i as int));
        }
        assert(self@.take(n as int) =~= self@);
        r
    }

    /// The number of bits.
    pub fn len(&self) -> (r: usize)
        ensures
            r == self@.len(),
    {
        bit_len(self)
    }

    /// The bit at `i`.
    pub fn get(&self, i: usize) -> (r: bool)
        requires
            i < self@.len(),
        ensures
            r == self@[i as int],
    {
        bit_at(self, i)
    }

    /// Writes `b` at `i`.
    pub fn set(&mut self, i: usize, b: bool)
        requires
            i < old(self)@.len(),
        ensures
            final(self)@ == old(self)@.update(i as int, b),
    {
        set_bit(self, i, b)
    }

    /// Negates the bit at `i`.
    pub fn flip(&mut self, i: usize)
        requires
            i < old(self)@.len(),
        ensures
            final(self)@ == old(self)@.update(i as int, !old(self)@[i as int]),
    {
        let b = bit_at(self, i);
        set_bit(self, i, !b)
    }

    /// Adds `other` into `self` coordinate-wise over GF(2).
    pub fn xor_with(&mut self, other: &Bitstring)
        requires
            old(self)@.len() == other@.len(),
        ensures
            final(self)@ == xor_seq(old(self)@, other@),
    {
        xor_assign(self, other)
    }

    /// Sets every bit to zero.
    pub fn clear(&mut self)
        ensures
            final(self)@ == Seq::new(old(self)@.len(), |i: int| false),
    {
        let n = bit_len(self);
        let mut i: usize = 0;
        while i < n
            invariant
                i <= n,
                n == self@.len(),
                forall|j: int| 0 <= j < i ==> !self@[j],
            decreases n - i,
        {
            set_bit(self, i, false);
            i = i + 1;
        }
        assert(self@ =~= Seq::new(n as nat, |i: int| false));
    }

    /// The index of the first one, or `None` where every bit is zero.
    pub fn first_one(&self) -> (r: Option<usize>)
        ensures
            match r {
                Some(i) => i < self@.len() && self@[i as int] && forall|j: int|
                    0 <= j < i ==> !self@[j],
                None => forall|j: int| 0 <= j < self@.len() ==> !self@[j],
            },
    {
        let n = bit_len(self);
        let mut i: usize = 0;
        while i < n
            invariant
                i <= n,
                n == self@.len(),
                forall|j: int| 0 <= j < i ==> !self@[j],
            decreases n - i,
        {
            if bit_at(self, i) {
                return Some(i);
            }
            i = i + 1;
        }
        None
    }

    /// Parity of the number of indices below `k` where both strings hold a one.
    pub fn and_parity(&self, other: &Bitstring, k: usize) -> (r: bool)
        requires
            k <= self@.len(),
            k <= other@.len(),
        ensures
            r == dot(self@, other@, k as int),
    {
        let mut acc = false;
        let mut i: usize = 0;
        while i < k
            invariant
                i <= k,
                k <= self@.len(),
                k <= other@.len(),
                acc == dot(self@, other@, i as int),
            decreases k - i,
        {
            acc = acc != (bit_at(self, i) && bit_at(other, i));
            i = i + 1;
        }
        acc
    }
}

} // verus!
