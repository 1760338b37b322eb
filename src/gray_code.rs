use vstd::prelude::*;

verus! {

use vstd::arithmetic::power2::{lemma_pow2_pos, lemma_pow2_unfold, pow2};
use vstd::bits::{lemma_u64_pow2_no_overflow, lemma_u64_shl_is_mul};

/// The index of the lowest set bit of `i` (zero for `i = 0`).
pub open spec fn low_bit(i: nat) -> nat
    decreases i,
{
    if i == 0 || i % 2 == 1 {
        0
    } else {
        1 + low_bit(i / 2)
    }
}

/// The `j`-th flip for width `n`: the bit that changes between the `j`-th and
/// `(j + 1)`-th reflected-binary Gray codewords, and, as the last of the
/// `2^n` flips, bit `n - 1`, which closes the cycle.
pub open spec fn gray_flip(n: nat, j: nat) -> nat {
    if j + 1 < pow2(n) {
        low_bit(j + 1)
    } else {
        (n - 1) as nat
    }
}

/// All `2^n` flips for width `n`, in order.
pub open spec fn gray_flips(n: nat) -> Seq<nat> {
    Seq::new(pow2(n), |j: int| gray_flip(n, j as nat))
}

/// Below `2^n`, the lowest set bit of a positive number is below `n`.
pub proof fn lemma_low_bit_below(i: nat, n: nat)
    requires
        1 <= i < pow2(n),
    ensures
        low_bit(i) < n,
    decreases n,
{
    if n == 0 {
        vstd::arithmetic::power2::lemma2_to64();
    } else {
        lemma_pow2_unfold(n);
        if i % 2 == 0 {
            lemma_low_bit_below(i / 2, (n - 1) as nat);
        }
    }
}

/// The lowest set bit of `2^k` is `k`.
proof fn lemma_low_bit_pow2(k: nat)
    ensures
        low_bit(pow2(k)) == k,
    decreases k,
{
    if k == 0 {
        vstd::arithmetic::power2::lemma2_to64();
    } else {
        lemma_pow2_unfold(k);
        lemma_pow2_pos((k - 1) as nat);
        lemma_low_bit_pow2((k - 1) as nat);
    }
}

/// Adding `2^k` to a positive number below `2^k` keeps its lowest set bit.
proof fn lemma_low_bit_shift(i: nat, k: nat)
    requires
        1 <= i < pow2(k),
    ensures
        low_bit(i + pow2(k)) == low_bit(i),
    decreases k,
{
    if k == 0 {
        vstd::arithmetic::power2::lemma2_to64();
    } else {
        lemma_pow2_unfold(k);
        if i % 2 == 0 {
            assert((i + pow2(k)) / 2 == i / 2 + pow2((k - 1) as nat));
            lemma_low_bit_shift(i / 2, (k - 1) as nat);
        }
    }
}

/// The flips of the reflected binary Gray code over `m` bits, without the
/// closing one: the lowest set bit of each of `1 .. 2^m`.
pub open spec fn low_bits(m: nat) -> Seq<nat> {
    Seq::new((pow2(m) - 1) as nat, |j: int| low_bit((j + 1) as nat))
}

/// The flips over `m` bits are those over `m - 1` bits, a flip of bit `m - 1`,
/// and those over `m - 1` bits again.
proof fn lemma_low_bits_unfold(m: nat)
    requires
        m >= 1,
    ensures
        low_bits(m) == low_bits((m - 1) as nat).push((m - 1) as nat) + low_bits((m - 1) as nat),
{
    let h = pow2((m - 1) as nat);
    lemma_pow2_unfold(m);
    lemma_pow2_pos((m - 1) as nat);
    let lhs = low_bits(m);
    let rhs = low_bits((m - 1) as nat).push((m - 1) as nat) + low_bits((m - 1) as nat);
    assert(lhs.len() == rhs.len());
    assert forall|j: int| 0 <= j < lhs.len() implies lhs[j] == rhs[j] by {
        if j < h - 1 {
        } else if j == h - 1 {
            lemma_low_bit_pow2((m - 1) as nat);
        } else {
            let i = (j + 1 - h) as nat;
            lemma_low_bit_shift(i, (m - 1) as nat);
            assert((j + 1) as nat == i + h);
        }
    }
    assert(lhs =~= rhs);
}

/// The result of performing the flips in `l`, in order, from `s`.
pub open spec fn apply_flips<S>(f: spec_fn(S, nat) -> S, s: S, l: Seq<nat>) -> S
    decreases l.len(),
{
    if l.len() == 0 {
        s
    } else {
        f(apply_flips(f, s, l.drop_last()), l.last())
    }
}

/// Each flip undoes itself and any two flips commute.
pub open spec fn is_flip_action<S>(f: spec_fn(S, nat) -> S) -> bool {
    &&& forall|s: S, r: nat| #[trigger] f(f(s, r), r) == s
    &&& forall|s: S, r1: nat, r2: nat| #[trigger] f(f(s, r1), r2) == f(f(s, r2), r1)
}

proof fn lemma_apply_concat<S>(f: spec_fn(S, nat) -> S, s: S, l1: Seq<nat>, l2: Seq<nat>)
    ensures
        apply_flips(f, s, l1 + l2) == apply_flips(f, apply_flips(f, s, l1), l2),
    decreases l2.len(),
{
    if l2.len() == 0 {
        assert(l1 + l2 =~= l1);
    } else {
        assert((l1 + l2).drop_last() =~= l1 + l2.drop_last());
        lemma_apply_concat(f, s, l1, l2.drop_last());
    }
}

proof fn lemma_apply_single<S>(f: spec_fn(S, nat) -> S, s: S, r: nat)
    ensures
        apply_flips(f, s, seq![r]) == f(s, r),
{
    assert(seq![r].drop_last() =~= Seq::<nat>::empty());
    assert(apply_flips(f, s, Seq::<nat>::empty()) == s);
}

proof fn lemma_apply_commutes<S>(f: spec_fn(S, nat) -> S, s: S, r: nat, l: Seq<nat>)
    requires
        is_flip_action(f),
    ensures
        apply_flips(f, f(s, r), l) == f(apply_flips(f, s, l), r),
    decreases l.len(),
{
    if l.len() > 0 {
        lemma_apply_commutes(f, s, r, l.drop_last());
        let x = apply_flips(f, s, l.drop_last());
        assert(f(f(x, r), l.last()) == f(f(x, l.last()), r));
    }
}

/// Performing the flips over `m` bits twice in a row changes nothing.
proof fn lemma_low_bits_twice<S>(f: spec_fn(S, nat) -> S, s: S, m: nat)
    requires
        is_flip_action(f),
    ensures
        apply_flips(f, apply_flips(f, s, low_bits(m)), low_bits(m)) == s,
    decreases m,
{
    if m == 0 {
        vstd::arithmetic::power2::lemma2_to64();
        assert(low_bits(0).len() == 0);
    } else {
        let t = low_bits((m - 1) as nat);
        let top = (m - 1) as nat;
        lemma_low_bits_unfold(m);
        assert(low_bits(m) == t + (seq![top] + t)) by {
            assert(t.push(top) + t =~= t + (seq![top] + t));
        }
        // first pass
        let a = apply_flips(f, s, t);
        lemma_apply_concat(f, s, t, seq![top] + t);
        lemma_apply_concat(f, a, seq![top], t);
        lemma_apply_single(f, a, top);
        let b = apply_flips(f, f(a, top), t);
        assert(apply_flips(f, s, low_bits(m)) == b);
        // second pass
        lemma_apply_concat(f, b, t, seq![top] + t);
        lemma_apply_concat(f, apply_flips(f, b, t), seq![top], t);
        lemma_apply_single(f, apply_flips(f, b, t), top);
        lemma_apply_commutes(f, a, top, t);
        lemma_low_bits_twice(f, a, (m - 1) as nat);
        assert(apply_flips(f, b, t) == f(a, top)) by {
            lemma_apply_commutes(f, apply_flips(f, a, t), top, t);
            lemma_low_bits_twice(f, a, (m - 1) as nat);
        }
        assert(f(f(a, top), top) == a);
        lemma_low_bits_twice(f, s, (m - 1) as nat);
    }
}

/// For width `n >= 1`, all `2^n` flips are the flips over `n` bits and then
/// the closing flip of bit `n - 1`.
proof fn lemma_gray_flips_split(n: nat)
    requires
        n >= 1,
    ensures
        gray_flips(n) == low_bits(n).push((n - 1) as nat),
{
    lemma_pow2_pos(n);
    assert(gray_flips(n) =~= low_bits(n).push((n - 1) as nat));
}

/// Every flip emitted for width `n` is below `n`, and there are `2^n` of them.
pub proof fn lemma_gray_flips_in_range(n: nat)
    requires
        n >= 1,
    ensures
        gray_flips(n).len() == pow2(n),
        forall|j: int| 0 <= j < pow2(n) ==> #[trigger] gray_flips(n)[j] < n,
{
    assert forall|j: int| 0 <= j < pow2(n) implies #[trigger] gray_flips(n)[j] < n by {
        if j + 1 < pow2(n) {
            lemma_low_bit_below((j + 1) as nat, n);
        }
    }
}

/// Performing all `2^n` flips of the Gray code, closing flip included, in
/// order, returns any state to where it started, for any action in which
/// each flip undoes itself and flips commute.
pub proof fn lemma_gray_round_trip<S>(f: spec_fn(S, nat) -> S, s: S, n: nat)
    requires
        n >= 1,
        is_flip_action(f),
    ensures
        apply_flips(f, s, gray_flips(n)) == s,
{
    let t = low_bits((n - 1) as nat);
    let top = (n - 1) as nat;
    lemma_gray_flips_split(n);
    lemma_low_bits_unfold(n);
    let a = apply_flips(f, s, t);
    // gray_flips(n) == t + [top] + t + [top]
    assert(gray_flips(n) == t + (seq![top] + t.push(top))) by {
        assert(t.push(top) + t =~= t + seq![top] + t);
        assert(low_bits(n).push(top) =~= t + (seq![top] + t.push(top)));
    }
    lemma_apply_concat(f, s, t, seq![top] + t.push(top));
    lemma_apply_concat(f, a, seq![top], t.push(top));
    lemma_apply_single(f, a, top);
    assert(t.push(top).drop_last() =~= t);
    lemma_apply_commutes(f, a, top, t);
    lemma_low_bits_twice(f, s, (n - 1) as nat);
    let c = apply_flips(f, a, t);
    assert(apply_flips(f, f(a, top), t.push(top)) == f(f(c, top), top));
}

/// Negating bit `r` of a bit vector, as an action.
pub open spec fn toggle_action() -> spec_fn(Seq<bool>, nat) -> Seq<bool> {
    |v: Seq<bool>, r: nat| crate::bits::toggle_bit(v, r as int)
}

/// Each bit appears an even number of times among the `2^n` flips: negating
/// bit `f` of any bit vector for every flip `f`, in order, gives back the
/// same vector (so a red assignment walked from zero ends at zero).
pub proof fn lemma_gray_flips_even(n: nat, v: Seq<bool>)
    requires
        n >= 1,
    ensures
        apply_flips(toggle_action(), v, gray_flips(n)) == v,
{
    let f = toggle_action();
    assert forall|s: Seq<bool>, r: nat| #[trigger] f(f(s, r), r) == s by {
        crate::bits::lemma_toggle_bit_twice(s, r as int);
    }
    assert forall|s: Seq<bool>, r1: nat, r2: nat| #[trigger] f(f(s, r1), r2) == f(f(s, r2), r1) by {
        crate::bits::lemma_toggle_bit_commute(s, r1 as int, r2 as int);
    }
    lemma_gray_round_trip(f, v, n);
}

/// Emits, one at a time, the bit that flips at each step of the reflected
/// binary Gray code over `number_of_bits` bits, then the closing flip.
pub struct GrayCodeFlipBit {
    index: u64,
    number_of_bits: u32,
    finished: bool,
}

impl GrayCodeFlipBit {
    /// The width of the codewords.
    pub closed spec fn width(&self) -> nat {
        self.number_of_bits as nat
    }

    /// How many flips have been emitted so far.
    pub closed spec fn emitted(&self) -> nat {
        if self.finished {
            pow2(self.number_of_bits as nat)
        } else {
            (self.index - 1) as nat
        }
    }

    pub closed spec fn wf(&self) -> bool {
        &&& 1 <= self.number_of_bits <= 63
        &&& !self.finished ==> 1 <= self.index <= pow2(self.number_of_bits as nat)
    }

    /// A fresh enumerator for codewords of `number_of_bits` bits.
    pub fn new(number_of_bits: u32) -> (r: Self)
        requires
            1 <= number_of_bits <= 63,
        ensures
            r.wf(),
            r.width() == number_of_bits,
            r.emitted() == 0,
            r.emitted() <= pow2(r.width()),
    {
        proof {
            lemma_pow2_pos(number_of_bits as nat);
        }
        Self { index: 1, number_of_bits, finished: false }
    }

    /// The next flip, or `None` once all `2^n` have been emitted.
    pub fn next(&mut self) -> (r: Option<u32>)
        requires
            old(self).wf(),
        ensures
            final(self).wf(),
            final(self).width() == old(self).width(),
            old(self).emitted() <= pow2(old(self).width()) ==> final(self).emitted() <= pow2(final(self).width()),
            old(self).emitted() < pow2(old(self).width()) ==> {
                &&& r == Some(gray_flip(old(self).width(), old(self).emitted()) as u32)
                &&& final(self).emitted() == old(self).emitted() + 1
            },
            old(self).emitted() >= pow2(old(self).width()) ==> {
                &&& r is None
                &&& final(self).emitted() == old(self).emitted()
            },
    {
        if self.finished {
            return None;
        }
        let n = self.number_of_bits;
        proof {
            lemma_u64_pow2_no_overflow(n as nat);
            lemma_u64_shl_is_mul(1, n as u64);
        }
        let limit: u64 = 1u64 << (n as u64);
        if self.index >= limit {
            // always flip the last bit before you leave
            self.finished = true;
            return Some(n - 1);
        }
        proof {
            lemma_low_bit_below(self.index as nat, n as nat);
        }
        let mut m: u64 = self.index;
        let mut k: u32 = 0;
        while m % 2 == 0
            invariant
                1 <= m <= self.index,
                self.index < limit,
                limit == pow2(n as nat),
                n <= 63,
                low_bit(self.index as nat) < n,
                low_bit(self.index as nat) == k + low_bit(m as nat),
            decreases m,
        {
            m = m / 2;
            k = k + 1;
        }
        self.index = self.index + 1;
        Some(k)
    }
}

} // verus!
