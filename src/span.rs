use vstd::prelude::*;

verus! {

use crate::bits::xor_seq;
use vstd::arithmetic::power2::{lemma_pow2_unfold, pow2};
use vstd::relations::injective_on;

/// The all-zero vector.
pub open spec fn zeros(len: nat) -> Seq<bool> {
    Seq::new(len, |j: int| false)
}

/// The unit vector with a one at `k`.
pub open spec fn unit(k: int, len: nat) -> Seq<bool> {
    Seq::new(len, |j: int| j == k)
}

/// The sum over GF(2) of the vectors of `l`, starting from zero.
pub open spec fn xsum(l: Seq<Seq<bool>>, len: nat) -> Seq<bool>
    decreases l.len(),
{
    if l.len() == 0 {
        zeros(len)
    } else {
        xor_seq(xsum(l.drop_last(), len), l.last())
    }
}

/// Every vector of `l` is one of `cols`.
pub open spec fn drawn_from(l: Seq<Seq<bool>>, cols: Seq<Seq<bool>>) -> bool {
    forall|k: int| 0 <= k < l.len() ==> cols.contains(#[trigger] l[k])
}

/// Every vector of `l` has `len` coordinates.
pub open spec fn all_of_len(l: Seq<Seq<bool>>, len: nat) -> bool {
    forall|k: int| 0 <= k < l.len() ==> (#[trigger] l[k]).len() == len
}

/// `v` is a sum of vectors of `cols`: it lies in their span.
pub open spec fn in_span(cols: Seq<Seq<bool>>, v: Seq<bool>, len: nat) -> bool {
    exists|l: Seq<Seq<bool>>| drawn_from(l, cols) && #[trigger] xsum(l, len) == v
}

/// `f` is a linear form on vectors of `len` coordinates over GF(2).
pub open spec fn is_linear(f: spec_fn(Seq<bool>) -> bool, len: nat) -> bool {
    &&& !f(zeros(len))
    &&& forall|a: Seq<bool>, b: Seq<bool>|
        a.len() == len && b.len() == len ==> #[trigger] f(xor_seq(a, b)) == (f(a) != f(b))
}

/// Whether `f` holds of an odd number of the vectors of `l`.
pub open spec fn odd_count(f: spec_fn(Seq<bool>) -> bool, l: Seq<Seq<bool>>) -> bool
    decreases l.len(),
{
    if l.len() == 0 {
        false
    } else {
        odd_count(f, l.drop_last()) != f(l.last())
    }
}

proof fn lemma_xsum_len(l: Seq<Seq<bool>>, len: nat)
    ensures
        xsum(l, len).len() == len,
    decreases l.len(),
{
    if l.len() > 0 {
        lemma_xsum_len(l.drop_last(), len);
    }
}

/// A linear form of a sum is the parity of its values on the summands.
pub proof fn lemma_linear_of_sum(f: spec_fn(Seq<bool>) -> bool, l: Seq<Seq<bool>>, len: nat)
    requires
        is_linear(f, len),
        all_of_len(l, len),
    ensures
        f(xsum(l, len)) == odd_count(f, l),
    decreases l.len(),
{
    if l.len() > 0 {
        let p = l.drop_last();
        assert(all_of_len(p, len)) by {
            assert forall|k: int| 0 <= k < p.len() implies (#[trigger] p[k]).len() == len by {
                assert(p[k] == l[k]);
            }
        }
        lemma_linear_of_sum(f, p, len);
        lemma_xsum_len(p, len);
        assert(l.last() == l[l.len() - 1]);
    }
}

/// How the summands of a sum are rewritten when the vectors on which `f`
/// holds are replaced by their sum with `p`, and `p` itself is dropped.
pub open spec fn rewrite(f: spec_fn(Seq<bool>) -> bool, p: Seq<bool>, l: Seq<Seq<bool>>) -> Seq<Seq<bool>>
    decreases l.len(),
{
    if l.len() == 0 {
        Seq::empty()
    } else {
        let rest = rewrite(f, p, l.drop_last());
        let x = l.last();
        if !f(x) {
            rest.push(x)
        } else if x == p {
            rest
        } else {
            rest.push(xor_seq(x, p))
        }
    }
}

proof fn lemma_rewrite(
    f: spec_fn(Seq<bool>) -> bool,
    p: Seq<bool>,
    l: Seq<Seq<bool>>,
    a: Seq<Seq<bool>>,
    a2: Seq<Seq<bool>>,
    len: nat,
)
    requires
        p.len() == len,
        all_of_len(l, len),
        drawn_from(l, a),
        forall|c: Seq<bool>| a.contains(c) && !f(c) ==> #[trigger] a2.contains(c),
        forall|c: Seq<bool>| a.contains(c) && f(c) && c != p ==> #[trigger] a2.contains(xor_seq(c, p)),
    ensures
        drawn_from(rewrite(f, p, l), a2),
        xsum(l, len) == xor_seq(xsum(rewrite(f, p, l), len), if odd_count(f, l) { p } else { zeros(len) }),
    decreases l.len(),
{
    lemma_xsum_len(l, len);
    if l.len() == 0 {
        assert(xsum(l, len) =~= xor_seq(xsum(rewrite(f, p, l), len), zeros(len)));
    } else {
        let q = l.drop_last();
        let x = l.last();
        assert(x == l[l.len() - 1]);
        assert(a.contains(x));
        assert(all_of_len(q, len)) by {
            assert forall|k: int| 0 <= k < q.len() implies (#[trigger] q[k]).len() == len by {
                assert(q[k] == l[k]);
            }
        }
        assert(drawn_from(q, a)) by {
            assert forall|k: int| 0 <= k < q.len() implies a.contains(#[trigger] q[k]) by {
                assert(q[k] == l[k]);
            }
        }
        lemma_rewrite(f, p, q, a, a2, len);
        lemma_xsum_len(q, len);
        let rq = rewrite(f, p, q);
        lemma_xsum_len(rq, len);
        let r = rewrite(f, p, l);
        assert(drawn_from(r, a2)) by {
            assert forall|k: int| 0 <= k < r.len() implies a2.contains(#[trigger] r[k]) by {
                if k < rq.len() {
                    assert(r[k] == rq[k]);
                }
            }
        }
        let big = if odd_count(f, l) { p } else { zeros(len) };
        if !f(x) {
            assert(r.drop_last() == rq);
            assert(xsum(l, len) =~= xor_seq(xsum(r, len), big));
        } else if x == p {
            assert(xsum(l, len) =~= xor_seq(xsum(r, len), big));
        } else {
            assert(r.drop_last() == rq);
            assert(xsum(l, len) =~= xor_seq(xsum(r, len), big));
        }
    }
}

/// One elimination step keeps every vector on which `f` vanishes in the
/// span: where the columns on which `f` holds are replaced by their sums
/// with one of them, `p`, which is then set aside.
pub proof fn lemma_span_step(
    f: spec_fn(Seq<bool>) -> bool,
    p: Seq<bool>,
    a: Seq<Seq<bool>>,
    a2: Seq<Seq<bool>>,
    v: Seq<bool>,
    len: nat,
)
    requires
        is_linear(f, len),
        p.len() == len,
        all_of_len(a, len),
        forall|c: Seq<bool>| a.contains(c) && !f(c) ==> #[trigger] a2.contains(c),
        forall|c: Seq<bool>| a.contains(c) && f(c) && c != p ==> #[trigger] a2.contains(xor_seq(c, p)),
        in_span(a, v, len),
        !f(v),
    ensures
        in_span(a2, v, len),
{
    let l = choose|l: Seq<Seq<bool>>| drawn_from(l, a) && #[trigger] xsum(l, len) == v;
    assert(all_of_len(l, len)) by {
        assert forall|k: int| 0 <= k < l.len() implies (#[trigger] l[k]).len() == len by {
            assert(a.contains(l[k]));
        }
    }
    lemma_rewrite(f, p, l, a, a2, len);
    lemma_linear_of_sum(f, l, len);
    let r = rewrite(f, p, l);
    lemma_xsum_len(r, len);
    assert(xsum(r, len) =~= v);
}

/// Where `f` holds of no column, every vector of the span stays in the span
/// of any columns that keep them all.
pub proof fn lemma_span_keep(a: Seq<Seq<bool>>, a2: Seq<Seq<bool>>, v: Seq<bool>, len: nat)
    requires
        forall|c: Seq<bool>| a.contains(c) ==> #[trigger] a2.contains(c),
        in_span(a, v, len),
    ensures
        in_span(a2, v, len),
{
    let l = choose|l: Seq<Seq<bool>>| drawn_from(l, a) && #[trigger] xsum(l, len) == v;
    assert(drawn_from(l, a2)) by {
        assert forall|k: int| 0 <= k < l.len() implies a2.contains(#[trigger] l[k]) by {
            assert(a.contains(l[k]));
        }
    }
}

/// The unit vectors of the coordinates below `k` where `v` has a one.
pub open spec fn units_of(v: Seq<bool>, k: int) -> Seq<Seq<bool>>
    decreases k,
{
    if k <= 0 {
        Seq::empty()
    } else if v[k - 1] {
        units_of(v, k - 1).push(unit(k - 1, v.len()))
    } else {
        units_of(v, k - 1)
    }
}

proof fn lemma_units_of(v: Seq<bool>, k: int)
    requires
        0 <= k <= v.len(),
    ensures
        xsum(units_of(v, k), v.len()) == Seq::new(v.len(), |j: int| j < k && v[j]),
        forall|i: int| 0 <= i < units_of(v, k).len() ==> exists|j: int| 0 <= j < k && #[trigger] units_of(v, k)[i] == unit(j, v.len()),
    decreases k,
{
    if k > 0 {
        lemma_units_of(v, k - 1);
        let u = units_of(v, k);
        let u0 = units_of(v, k - 1);
        if v[k - 1] {
            assert(u.drop_last() == u0);
            assert(xsum(u, v.len()) =~= Seq::new(v.len(), |j: int| j < k && v[j]));
            assert forall|i: int| 0 <= i < u.len() implies exists|j: int| 0 <= j < k && #[trigger] u[i] == unit(j, v.len()) by {
                if i < u0.len() {
                    assert(u[i] == u0[i]);
                    let j = choose|j: int| 0 <= j < k - 1 && #[trigger] u0[i] == unit(j, v.len());
                    assert(u[i] == unit(j, v.len()));
                } else {
                    assert(u[i] == unit(k - 1, v.len()));
                }
            }
        } else {
            assert(xsum(u, v.len()) =~= Seq::new(v.len(), |j: int| j < k && v[j]));
            assert forall|i: int| 0 <= i < u.len() implies exists|j: int| 0 <= j < k && #[trigger] u[i] == unit(j, v.len()) by {
                let j = choose|j: int| 0 <= j < k - 1 && #[trigger] u0[i] == unit(j, v.len());
            }
        }
    }
}

/// A vector that is zero from coordinate `k` on lies in the span of any
/// columns that hold the first `k` unit vectors.
pub proof fn lemma_units_span(cols: Seq<Seq<bool>>, v: Seq<bool>, k: int)
    requires
        0 <= k <= v.len(),
        forall|j: int| k <= j < v.len() ==> !v[j],
        forall|j: int| 0 <= j < k ==> cols.contains(#[trigger] unit(j, v.len())),
    ensures
        in_span(cols, v, v.len()),
{
    lemma_units_of(v, k);
    let u = units_of(v, k);
    assert(xsum(u, v.len()) =~= v);
    assert(drawn_from(u, cols)) by {
        assert forall|i: int| 0 <= i < u.len() implies cols.contains(#[trigger] u[i]) by {
            let j = choose|j: int| 0 <= j < k && #[trigger] u[i] == unit(j, v.len());
        }
    }
}

/// Where `f` holds of no summand, it does not hold of an odd number of them.
pub proof fn lemma_odd_count_none(f: spec_fn(Seq<bool>) -> bool, l: Seq<Seq<bool>>)
    requires
        forall|k: int| 0 <= k < l.len() ==> !f(#[trigger] l[k]),
    ensures
        !odd_count(f, l),
    decreases l.len(),
{
    if l.len() > 0 {
        let p = l.drop_last();
        assert forall|k: int| 0 <= k < p.len() implies !f(#[trigger] p[k]) by {
            assert(p[k] == l[k]);
        }
        lemma_odd_count_none(f, p);
        assert(l.last() == l[l.len() - 1]);
    }
}

/// A linear form that vanishes on every column vanishes on their span.
pub proof fn lemma_linear_vanishes_on_span(f: spec_fn(Seq<bool>) -> bool, cols: Seq<Seq<bool>>, v: Seq<bool>, len: nat)
    requires
        is_linear(f, len),
        all_of_len(cols, len),
        forall|c: Seq<bool>| #[trigger] cols.contains(c) ==> !f(c),
        in_span(cols, v, len),
    ensures
        !f(v),
{
    let l = choose|l: Seq<Seq<bool>>| drawn_from(l, cols) && #[trigger] xsum(l, len) == v;
    assert(all_of_len(l, len)) by {
        assert forall|k: int| 0 <= k < l.len() implies (#[trigger] l[k]).len() == len by {
            assert(cols.contains(l[k]));
        }
    }
    assert forall|k: int| 0 <= k < l.len() implies !f(#[trigger] l[k]) by {
        assert(cols.contains(l[k]));
    }
    lemma_odd_count_none(f, l);
    lemma_linear_of_sum(f, l, len);
}

/// Coordinate `k` is a linear form.
pub proof fn lemma_coordinate_linear(k: int, len: nat)
    requires
        0 <= k < len,
    ensures
        is_linear(|c: Seq<bool>| c[k], len),
{
}

/// Each vector of `cols` has a coordinate where it alone, among the distinct
/// vectors of `cols`, has a one.
pub open spec fn has_unit_coordinates(cols: Seq<Seq<bool>>, len: nat) -> bool {
    forall|c: Seq<bool>|
        #[trigger] cols.contains(c) ==> exists|d: int|
            0 <= d < len && c[d] && forall|e: Seq<bool>| cols.contains(e) && e != c ==> !#[trigger] e[d]
}

/// No nonempty family of distinct vectors of `cols` sums to zero.
pub open spec fn independent(cols: Seq<Seq<bool>>, len: nat) -> bool {
    forall|l: Seq<Seq<bool>>|
        l.len() > 0 && l.no_duplicates() && drawn_from(l, cols) ==> #[trigger] xsum(l, len) != zeros(len)
}

/// Exactly one vector of a family without repeats equals `c`, so exactly one
/// has a one at a coordinate where no other vector of `cols` has one.
proof fn lemma_odd_count_single(f: spec_fn(Seq<bool>) -> bool, l: Seq<Seq<bool>>, c: Seq<bool>)
    requires
        l.no_duplicates(),
        l.contains(c),
        f(c),
        forall|k: int| 0 <= k < l.len() && l[k] != c ==> !f(#[trigger] l[k]),
    ensures
        odd_count(f, l),
    decreases l.len(),
{
    let p = l.drop_last();
    if l.last() == c {
        assert forall|k: int| 0 <= k < p.len() implies !f(#[trigger] p[k]) by {
            assert(p[k] == l[k]);
            assert(l[k] != l[l.len() - 1]);
        }
        lemma_odd_count_none(f, p);
    } else {
        let j = choose|j: int| 0 <= j < l.len() && l[j] == c;
        assert(j < l.len() - 1);
        assert(p[j] == c);
        assert(p.no_duplicates()) by {
            assert forall|a: int, b: int| 0 <= a < p.len() && 0 <= b < p.len() && a != b implies p[a] != p[b] by {
                assert(p[a] == l[a] && p[b] == l[b]);
            }
        }
        assert forall|k: int| 0 <= k < p.len() && p[k] != c implies !f(#[trigger] p[k]) by {
            assert(p[k] == l[k]);
        }
        lemma_odd_count_single(f, p, c);
        assert(!f(l.last())) by {
            assert(l.last() == l[l.len() - 1]);
        }
    }
}

/// Vectors with unit coordinates are independent.
pub proof fn lemma_unit_coordinates_independent(cols: Seq<Seq<bool>>, len: nat)
    requires
        has_unit_coordinates(cols, len),
        all_of_len(cols, len),
    ensures
        independent(cols, len),
{
    assert forall|l: Seq<Seq<bool>>| l.len() > 0 && l.no_duplicates() && drawn_from(l, cols) implies #[trigger] xsum(l, len)
        != zeros(len) by {
        let c = l[0];
        assert(cols.contains(c));
        let d = choose|d: int|
            0 <= d < len && c[d] && forall|e: Seq<bool>| cols.contains(e) && e != c ==> !#[trigger] e[d];
        let f = |x: Seq<bool>| x[d];
        lemma_coordinate_linear(d, len);
        assert(all_of_len(l, len)) by {
            assert forall|k: int| 0 <= k < l.len() implies (#[trigger] l[k]).len() == len by {
                assert(cols.contains(l[k]));
            }
        }
        assert forall|k: int| 0 <= k < l.len() && l[k] != c implies !f(#[trigger] l[k]) by {
            assert(cols.contains(l[k]));
        }
        assert(l.contains(c));
        lemma_odd_count_single(f, l, c);
        lemma_linear_of_sum(f, l, len);
        assert(xsum(l, len)[d]);
    }
}

/// Replacing, in a family with unit coordinates, each vector on which `f`
/// holds by its sum with one of them, `p`, and dropping `p`, keeps unit
/// coordinates.
pub proof fn lemma_unit_coordinates_step(
    f: spec_fn(Seq<bool>) -> bool,
    p: Seq<bool>,
    a: Seq<Seq<bool>>,
    a2: Seq<Seq<bool>>,
    len: nat,
)
    requires
        has_unit_coordinates(a, len),
        all_of_len(a, len),
        a.contains(p),
        f(p),
        forall|e: Seq<bool>|
            #[trigger] a2.contains(e) ==> (a.contains(e) && !f(e)) || exists|c: Seq<bool>|
                a.contains(c) && f(c) && c != p && e == xor_seq(c, p),
    ensures
        has_unit_coordinates(a2, len),
{
    assert forall|e: Seq<bool>| #[trigger] a2.contains(e) implies exists|d: int|
        0 <= d < len && e[d] && forall|e2: Seq<bool>| a2.contains(e2) && e2 != e ==> !#[trigger] e2[d] by {
        if a.contains(e) && !f(e) {
            let d = choose|d: int| 0 <= d < len && e[d] && forall|x: Seq<bool>| a.contains(x) && x != e ==> !#[trigger] x[d];
            assert forall|e2: Seq<bool>| a2.contains(e2) && e2 != e implies !#[trigger] e2[d] by {
                if !(a.contains(e2) && !f(e2)) {
                    let c2 = choose|c2: Seq<bool>| a.contains(c2) && f(c2) && c2 != p && e2 == xor_seq(c2, p);
                    assert(c2 != e && p != e);
                    assert(e2[d] == (c2[d] != p[d]));
                }
            }
        } else {
            let c = choose|c: Seq<bool>| a.contains(c) && f(c) && c != p && e == xor_seq(c, p);
            let d = choose|d: int| 0 <= d < len && c[d] && forall|x: Seq<bool>| a.contains(x) && x != c ==> !#[trigger] x[d];
            assert(e[d] == (c[d] != p[d]));
            assert forall|e2: Seq<bool>| a2.contains(e2) && e2 != e implies !#[trigger] e2[d] by {
                if a.contains(e2) && !f(e2) {
                    assert(e2 != c);
                } else {
                    let c2 = choose|c2: Seq<bool>| a.contains(c2) && f(c2) && c2 != p && e2 == xor_seq(c2, p);
                    assert(c2 != c);
                    assert(e2[d] == (c2[d] != p[d]));
                }
            }
        }
    }
}

/// The first `k` unit vectors have unit coordinates.
pub proof fn lemma_units_have_unit_coordinates(cols: Seq<Seq<bool>>, len: nat)
    requires
        cols.len() <= len,
        forall|k: int| 0 <= k < cols.len() ==> #[trigger] cols[k] == unit(k, len),
    ensures
        has_unit_coordinates(cols, len),
        cols.no_duplicates(),
{
    assert forall|c: Seq<bool>| #[trigger] cols.contains(c) implies exists|d: int|
        0 <= d < len && c[d] && forall|e: Seq<bool>| cols.contains(e) && e != c ==> !#[trigger] e[d] by {
        let k = choose|k: int| 0 <= k < cols.len() && cols[k] == c;
        assert forall|e: Seq<bool>| cols.contains(e) && e != c implies !#[trigger] e[k] by {
            let j = choose|j: int| 0 <= j < cols.len() && cols[j] == e;
            assert(j != k);
        }
        assert(0 <= k < len && c[k] && forall|e: Seq<bool>| cols.contains(e) && e != c ==> !#[trigger] e[k]);
    }
    assert forall|a: int, b: int| 0 <= a < cols.len() && 0 <= b < cols.len() && a != b implies cols[a] != cols[b] by {
        assert(cols[a][a] != cols[b][a]);
    }
}

/// The span of no vectors holds only zero.
pub proof fn lemma_span_of_nothing(v: Seq<bool>, len: nat)
    requires
        in_span(Seq::<Seq<bool>>::empty(), v, len),
    ensures
        v == zeros(len),
{
    let l = choose|l: Seq<Seq<bool>>| drawn_from(l, Seq::<Seq<bool>>::empty()) && #[trigger] xsum(l, len) == v;
    if l.len() > 0 {
        assert(Seq::<Seq<bool>>::empty().contains(l[0]));
    }
}

/// All bit sequences of length `m`.
pub open spec fn bool_seqs(m: nat) -> Set<Seq<bool>> {
    Set::new(|s: Seq<bool>| s.len() == m)
}

/// There are `2^m` bit sequences of length `m`.
pub proof fn lemma_bool_seqs_len(m: nat)
    ensures
        bool_seqs(m).finite(),
        bool_seqs(m).len() == pow2(m),
    decreases m,
{
    if m == 0 {
        assert forall|t: Seq<bool>| bool_seqs(0).contains(t) implies t == Seq::<bool>::empty() by {
            assert(t =~= Seq::<bool>::empty());
        }
        assert(bool_seqs(0) =~= set![Seq::<bool>::empty()]);
        vstd::arithmetic::power2::lemma2_to64();
    } else {
        let prev = bool_seqs((m - 1) as nat);
        lemma_bool_seqs_len((m - 1) as nat);
        let f0 = |s: Seq<bool>| s.push(false);
        let f1 = |s: Seq<bool>| s.push(true);
        let a = prev.map(f0);
        let b = prev.map(f1);
        assert(injective_on(f0, prev)) by {
            assert forall|x1: Seq<bool>, x2: Seq<bool>| prev.contains(x1) && prev.contains(x2) && #[trigger] f0(x1) == #[trigger] f0(
                x2,
            ) implies x1 == x2 by {
                assert(x1 == f0(x1).drop_last());
                assert(x2 == f0(x2).drop_last());
            }
        }
        assert(injective_on(f1, prev)) by {
            assert forall|x1: Seq<bool>, x2: Seq<bool>| prev.contains(x1) && prev.contains(x2) && #[trigger] f1(x1) == #[trigger] f1(
                x2,
            ) implies x1 == x2 by {
                assert(x1 == f1(x1).drop_last());
                assert(x2 == f1(x2).drop_last());
            }
        }
        vstd::set_lib::lemma_map_size(prev, a, f0);
        vstd::set_lib::lemma_map_size(prev, b, f1);
        assert(bool_seqs(m) =~= a + b) by {
            assert forall|t: Seq<bool>| bool_seqs(m).contains(t) implies (a + b).contains(t) by {
                let x = t.drop_last();
                assert(prev.contains(x));
                if t.last() {
                    assert(t =~= f1(x));
                } else {
                    assert(t =~= f0(x));
                }
            }
        }
        assert(a.disjoint(b)) by {
            assert forall|t: Seq<bool>| a.contains(t) implies !b.contains(t) by {
                let x = choose|x: Seq<bool>| prev.contains(x) && t == f0(x);
                if b.contains(t) {
                    let y = choose|y: Seq<bool>| prev.contains(y) && t == f1(y);
                    assert(f0(x).last() != f1(y).last());
                }
            }
        }
        vstd::set_lib::lemma_set_disjoint_lens(a, b);
        lemma_pow2_unfold(m);
    }
}

/// The vectors of `cols` at the positions where `sel` holds, in order.
pub open spec fn select(cols: Seq<Seq<bool>>, sel: Seq<bool>) -> Seq<Seq<bool>>
    decreases cols.len(),
{
    if cols.len() == 0 || sel.len() == 0 {
        Seq::empty()
    } else if sel.last() {
        select(cols.drop_last(), sel.drop_last()).push(cols.last())
    } else {
        select(cols.drop_last(), sel.drop_last())
    }
}

#[verifier::rlimit(40)]
proof fn lemma_select_drawn(cols: Seq<Seq<bool>>, sel: Seq<bool>)
    requires
        sel.len() == cols.len(),
    ensures
        drawn_from(select(cols, sel), cols),
        cols.no_duplicates() ==> select(cols, sel).no_duplicates(),
        cols.no_duplicates() ==> forall|i: int| 0 <= i < cols.len() ==> (select(cols, sel).contains(#[trigger] cols[i]) <==> sel[i]),
    decreases cols.len(),
{
    if cols.len() > 0 {
        let c0 = cols.drop_last();
        let s0 = sel.drop_last();
        lemma_select_drawn(c0, s0);
        let r0 = select(c0, s0);
        let r = select(cols, sel);
        assert forall|k: int| 0 <= k < r.len() implies cols.contains(#[trigger] r[k]) by {
            if k < r0.len() {
                assert(r[k] == r0[k]);
                assert(c0.contains(r0[k]));
                let j = choose|j: int| 0 <= j < c0.len() && c0[j] == r0[k];
                assert(cols[j] == c0[j]);
            } else {
                assert(r[k] == cols[cols.len() - 1]);
            }
        }
        if cols.no_duplicates() {
            assert(c0.no_duplicates()) by {
                assert forall|x: int, y: int| 0 <= x < c0.len() && 0 <= y < c0.len() && x != y implies c0[x] != c0[y] by {
                    assert(c0[x] == cols[x] && c0[y] == cols[y]);
                }
            }
            let last = cols.last();
            assert forall|k: int| 0 <= k < r0.len() implies #[trigger] r0[k] != last by {
                assert(c0.contains(r0[k]));
                let j = choose|j: int| 0 <= j < c0.len() && c0[j] == r0[k];
                assert(cols[j] == r0[k]);
                assert(cols[cols.len() - 1] == last);
            }
            assert(r.no_duplicates()) by {
                assert forall|x: int, y: int| 0 <= x < r.len() && 0 <= y < r.len() && x != y implies r[x] != r[y] by {
                    if x < r0.len() && y < r0.len() {
                        assert(r[x] == r0[x] && r[y] == r0[y]);
                    } else if x < r0.len() {
                        assert(r[x] == r0[x] && r[y] == last);
                    } else if y < r0.len() {
                        assert(r[y] == r0[y] && r[x] == last);
                    }
                }
            }
            assert forall|i: int| 0 <= i < cols.len() implies (r.contains(#[trigger] cols[i]) <==> sel[i]) by {
                if i < cols.len() - 1 {
                    assert(cols[i] == c0[i]);
                    assert(cols[i] != last);
                    assert(sel[i] == s0[i]);
                    if r.contains(cols[i]) {
                        let k = choose|k: int| 0 <= k < r.len() && r[k] == cols[i];
                        if k < r0.len() {
                            assert(r0[k] == cols[i]);
                        }
                    }
                    if r0.contains(cols[i]) {
                        let k = choose|k: int| 0 <= k < r0.len() && r0[k] == cols[i];
                        assert(r[k] == cols[i]);
                    }
                } else {
                    if r.contains(cols[i]) && !sel[i] {
                        let k = choose|k: int| 0 <= k < r.len() && r[k] == cols[i];
                        assert(r0[k] != last);
                    }
                    if sel[i] {
                        assert(r[r.len() - 1] == cols[i]);
                    }
                }
            }
        }
    }
}

/// A coordinate where the `i`-th vector of `cols` alone has a one.
pub open spec fn coord(cols: Seq<Seq<bool>>, i: int, len: nat) -> int {
    choose|d: int| 0 <= d < len && cols[i][d] && forall|e: Seq<bool>| cols.contains(e) && e != cols[i] ==> !#[trigger] e[d]
}

/// The values of `v` at the unit coordinates of `cols`.
pub open spec fn coords_of(cols: Seq<Seq<bool>>, v: Seq<bool>, len: nat) -> Seq<bool> {
    Seq::new(cols.len(), |i: int| v[coord(cols, i, len)])
}

proof fn lemma_coord(cols: Seq<Seq<bool>>, i: int, len: nat)
    requires
        has_unit_coordinates(cols, len),
        cols.no_duplicates(),
        0 <= i < cols.len(),
    ensures
        0 <= coord(cols, i, len) < len,
        forall|j: int| 0 <= j < cols.len() ==> (#[trigger] cols[j][coord(cols, i, len)] <==> j == i),
{
    assert(cols.contains(cols[i]));
    let d = coord(cols, i, len);
    assert forall|j: int| 0 <= j < cols.len() implies (#[trigger] cols[j][d] <==> j == i) by {
        if j != i {
            assert(cols[j] != cols[i]);
            assert(cols.contains(cols[j]));
        }
    }
}

/// Adding the `k`-th vector to a selection's sum toggles it in the selection.
#[verifier::rlimit(40)]
proof fn lemma_select_toggle(cols: Seq<Seq<bool>>, sel: Seq<bool>, k: int, len: nat)
    requires
        sel.len() == cols.len(),
        0 <= k < cols.len(),
        all_of_len(cols, len),
    ensures
        xsum(select(cols, sel.update(k, !sel[k])), len) == xor_seq(xsum(select(cols, sel), len), cols[k]),
    decreases cols.len(),
{
    let sel2 = sel.update(k, !sel[k]);
    let c0 = cols.drop_last();
    let s0 = sel.drop_last();
    let t0 = sel2.drop_last();
    let last = cols.last();
    assert(last == cols[cols.len() - 1]);
    assert(all_of_len(c0, len)) by {
        assert forall|j: int| 0 <= j < c0.len() implies (#[trigger] c0[j]).len() == len by {
            assert(c0[j] == cols[j]);
        }
    }
    lemma_xsum_len(select(c0, s0), len);
    lemma_xsum_len(select(c0, t0), len);
    lemma_xsum_len(select(cols, sel), len);
    assert(cols[k].len() == len);
    // one unfolding of `select` and `xsum` on each side
    let r = select(cols, sel);
    let r2 = select(cols, sel2);
    assert(select(c0, s0).push(last).drop_last() =~= select(c0, s0));
    assert(select(c0, t0).push(last).drop_last() =~= select(c0, t0));
    assert(r == if sel.last() { select(c0, s0).push(last) } else { select(c0, s0) });
    assert(r2 == if sel2.last() { select(c0, t0).push(last) } else { select(c0, t0) });
    assert(xsum(select(c0, s0).push(last), len) == xor_seq(xsum(select(c0, s0), len), last));
    assert(xsum(select(c0, t0).push(last), len) == xor_seq(xsum(select(c0, t0), len), last));
    if k == cols.len() - 1 {
        assert(t0 =~= s0);
        let base = xsum(select(c0, s0), len);
        if sel[k] {
            assert(xor_seq(xor_seq(base, cols[k]), cols[k]) =~= base);
        } else {
            assert(xsum(r2, len) == xor_seq(base, cols[k]));
        }
    } else {
        assert(t0 =~= s0.update(k, !s0[k]));
        assert(c0[k] == cols[k]);
        lemma_select_toggle(c0, s0, k, len);
        let a = xsum(select(c0, s0), len);
        assert(xsum(select(c0, t0), len) == xor_seq(a, cols[k]));
        assert(sel2.last() == sel.last());
        if sel.last() {
            assert(xsum(r2, len) =~= xor_seq(xsum(r, len), cols[k]));
        } else {
            assert(xsum(r2, len) =~= xor_seq(xsum(r, len), cols[k]));
        }
    }
}

/// Every sum of vectors with unit coordinates is the sum of those whose
/// unit coordinate it has a one at.
proof fn lemma_sum_is_selection(cols: Seq<Seq<bool>>, l: Seq<Seq<bool>>, len: nat)
    requires
        has_unit_coordinates(cols, len),
        cols.no_duplicates(),
        all_of_len(cols, len),
        drawn_from(l, cols),
    ensures
        xsum(l, len) == xsum(select(cols, coords_of(cols, xsum(l, len), len)), len),
    decreases l.len(),
{
    let m = cols.len();
    if l.len() == 0 {
        let z = coords_of(cols, zeros(len), len);
        assert forall|i: int| 0 <= i < m implies !z[i] by {
            lemma_coord(cols, i, len);
        }
        lemma_select_drawn(cols, z);
        let r = select(cols, z);
        if r.len() > 0 {
            assert(cols.contains(r[0]));
            let j = choose|j: int| 0 <= j < m && cols[j] == r[0];
            assert(r.contains(cols[j]));
        }
        assert(r =~= Seq::<Seq<bool>>::empty());
    } else {
        let l0 = l.drop_last();
        let c = l.last();
        assert(drawn_from(l0, cols)) by {
            assert forall|q: int| 0 <= q < l0.len() implies cols.contains(#[trigger] l0[q]) by {
                assert(l0[q] == l[q]);
            }
        }
        lemma_sum_is_selection(cols, l0, len);
        assert(c == l[l.len() - 1]);
        assert(cols.contains(c));
        let k = choose|k: int| 0 <= k < m && cols[k] == c;
        let v0 = xsum(l0, len);
        lemma_xsum_len(l0, len);
        let s0 = coords_of(cols, v0, len);
        let v = xsum(l, len);
        assert(v == xor_seq(v0, c));
        assert(coords_of(cols, v, len) =~= s0.update(k, !s0[k])) by {
            assert forall|i: int| 0 <= i < m implies coords_of(cols, v, len)[i] == s0.update(k, !s0[k])[i] by {
                lemma_coord(cols, i, len);
                let d = coord(cols, i, len);
                assert(v[d] == (v0[d] != c[d]));
                assert(c[d] == (k == i));
            }
        }
        lemma_select_toggle(cols, s0, k, len);
    }
}

/// The solutions of `rows · x = 0` over `n` unknowns.
pub open spec fn kernel(rows: Seq<Seq<bool>>, n: nat) -> Set<Seq<bool>> {
    Set::new(|x: Seq<bool>| x.len() == n && crate::matrix::mat_vec(rows, x, n as int) == zeros(n))
}

/// A nullspace with a basis of `m` vectors with unit coordinates has `2^m`
/// elements.
#[verifier::rlimit(40)]
pub proof fn lemma_kernel_size(rows: Seq<Seq<bool>>, basis: Seq<Seq<bool>>, n: nat)
    requires
        rows.len() == n,
        has_unit_coordinates(basis, n + 1),
        basis.no_duplicates(),
        all_of_len(basis, n + 1),
        forall|c: int|
            0 <= c < basis.len() ==> !(#[trigger] basis[c])[n as int] && crate::matrix::mat_vec(rows, basis[c], n as int)
                == zeros(n),
        forall|x: Seq<bool>|
            x.len() == n && #[trigger] crate::matrix::mat_vec(rows, x, n as int) == zeros(n) ==> in_span(
                basis,
                x.push(false),
                n + 1,
            ),
    ensures
        kernel(rows, n).finite(),
        kernel(rows, n).len() == pow2(basis.len()),
{
    let m = basis.len();
    let len = n + 1;
    let phi = |sel: Seq<bool>| xsum(select(basis, sel), len).take(n as int);
    let dom = bool_seqs(m);
    lemma_bool_seqs_len(m);
    // the unit coordinates lie below n
    assert forall|i: int| 0 <= i < m implies coord(basis, i, len) < n by {
        lemma_coord(basis, i, len);
        if coord(basis, i, len) == n {
            assert(basis[i][n as int]);
        }
    }
    // every selection sums to a solution
    assert forall|sel: Seq<bool>| dom.contains(sel) implies kernel(rows, n).contains(#[trigger] phi(sel)) by {
        lemma_select_drawn(basis, sel);
        let v = xsum(select(basis, sel), len);
        lemma_xsum_len(select(basis, sel), len);
        assert(in_span(basis, v, len));
        lemma_coordinate_linear(n as int, len);
        assert forall|c: Seq<bool>| #[trigger] basis.contains(c) implies !c[n as int] by {
            let j = choose|j: int| 0 <= j < m && basis[j] == c;
        }
        lemma_linear_vanishes_on_span(|c: Seq<bool>| c[n as int], basis, v, len);
        let x = phi(sel);
        assert forall|j: int| 0 <= j < rows.len() implies #[trigger] crate::matrix::mat_vec(rows, x, n as int)[j] == false by {
            let g = |c: Seq<bool>| crate::bits::dot(rows[j], c, n as int);
            crate::bits::lemma_dot_zero(rows[j], zeros(len), n as int);
            assert forall|a: Seq<bool>, b: Seq<bool>| a.len() == len && b.len() == len implies #[trigger] g(
                xor_seq(a, b),
            ) == (g(a) != g(b)) by {
                crate::bits::lemma_dot_xor(rows[j], a, b, n as int);
            }
            assert forall|c: Seq<bool>| #[trigger] basis.contains(c) implies !g(c) by {
                let q = choose|q: int| 0 <= q < m && basis[q] == c;
                assert(crate::matrix::mat_vec(rows, basis[q], n as int) == zeros(n));
                assert(crate::matrix::mat_vec(rows, basis[q], n as int)[j] == zeros(n)[j]);
                assert(crate::matrix::mat_vec(rows, basis[q], n as int)[j] == crate::bits::dot(rows[j], basis[q], n as int));
            }
            lemma_linear_vanishes_on_span(g, basis, v, len);
            crate::bits::lemma_dot_prefix(rows[j], x, rows[j], v, n as int);
        }
        assert(crate::matrix::mat_vec(rows, x, n as int) =~= zeros(n));
    }
    // every solution is such a sum
    assert forall|x: Seq<bool>| kernel(rows, n).contains(x) implies dom.map(phi).contains(x) by {
        let v = x.push(false);
        assert(in_span(basis, v, len));
        let l = choose|l: Seq<Seq<bool>>| drawn_from(l, basis) && #[trigger] xsum(l, len) == v;
        lemma_sum_is_selection(basis, l, len);
        let sel = coords_of(basis, v, len);
        assert(dom.contains(sel));
        assert(phi(sel) =~= x);
    }
    assert(dom.map(phi) =~= kernel(rows, n));
    // different selections give different sums
    assert(injective_on(phi, dom)) by {
        assert forall|s1: Seq<bool>, s2: Seq<bool>| dom.contains(s1) && dom.contains(s2) && #[trigger] phi(s1) == #[trigger] phi(
            s2,
        ) implies s1 == s2 by {
            assert forall|i: int| 0 <= i < m implies s1[i] == s2[i] by {
                lemma_sum_at_coord(basis, s1, i, len);
                lemma_sum_at_coord(basis, s2, i, len);
                lemma_coord(basis, i, len);
                let d = coord(basis, i, len);
                assert(0 <= d < n);
                lemma_xsum_len(select(basis, s1), len);
                lemma_xsum_len(select(basis, s2), len);
                let v1 = xsum(select(basis, s1), len);
                let v2 = xsum(select(basis, s2), len);
                assert(phi(s1) == v1.take(n as int));
                assert(phi(s2) == v2.take(n as int));
                assert(v1.take(n as int)[d] == v1[d]);
                assert(v2.take(n as int)[d] == v2[d]);
            }
            assert(s1 =~= s2);
        }
    }
    vstd::set_lib::lemma_map_size(dom, kernel(rows, n), phi);
}

/// A selection's sum has a one at the `i`-th unit coordinate exactly when
/// the `i`-th vector is selected.
proof fn lemma_sum_at_coord(cols: Seq<Seq<bool>>, sel: Seq<bool>, i: int, len: nat)
    requires
        has_unit_coordinates(cols, len),
        cols.no_duplicates(),
        all_of_len(cols, len),
        sel.len() == cols.len(),
        0 <= i < cols.len(),
    ensures
        xsum(select(cols, sel), len)[coord(cols, i, len)] == sel[i],
{
    lemma_coord(cols, i, len);
    lemma_select_drawn(cols, sel);
    let d = coord(cols, i, len);
    let f = |x: Seq<bool>| x[d];
    lemma_coordinate_linear(d, len);
    let r = select(cols, sel);
    assert(all_of_len(r, len)) by {
        assert forall|k: int| 0 <= k < r.len() implies (#[trigger] r[k]).len() == len by {
            assert(cols.contains(r[k]));
        }
    }
    assert forall|k: int| 0 <= k < r.len() && r[k] != cols[i] implies !f(#[trigger] r[k]) by {
        assert(cols.contains(r[k]));
        let j = choose|j: int| 0 <= j < cols.len() && cols[j] == r[k];
    }
    if sel[i] {
        assert(r.contains(cols[i]));
        lemma_odd_count_single(f, r, cols[i]);
    } else {
        assert forall|k: int| 0 <= k < r.len() implies !f(#[trigger] r[k]) by {
            if r[k] == cols[i] {
                assert(r.contains(cols[i]));
            }
        }
        lemma_odd_count_none(f, r);
    }
    lemma_linear_of_sum(f, r, len);
}

} // verus!
