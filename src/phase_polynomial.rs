use vstd::prelude::*;

verus! {

use indexmap::{IndexMap, IndexSet};
use crate::qubit::{color_of, node_of_color, Color, MonomialColors, Qubit};
use crate::iqp_simulations::simulation_params::SimulationParams;

/// A table from node to a list of node pairs, in key insertion order.
pub type PairTable = IndexMap<u32, Vec<(u32, u32)>>;

/// A table from node to a list of nodes, in key insertion order.
pub type IndexTable = IndexMap<u32, Vec<u32>>;

#[verifier::external_type_specification]
#[verifier::external_body]
#[verifier::reject_recursive_types(T)]
#[verifier::reject_recursive_types(S)]
pub struct ExIndexSet<T, S>(IndexSet<T, S>);

#[verifier::external_type_specification]
#[verifier::external_body]
#[verifier::reject_recursive_types(K)]
#[verifier::reject_recursive_types(V)]
#[verifier::reject_recursive_types(S)]
pub struct ExIndexMap<K, V, S>(IndexMap<K, V, S>);

/// The monomial codes an insertion-ordered set holds, in insertion order.
pub uninterp spec fn set_items(s: IndexSet<(u32, u32, u32)>) -> Seq<(u32, u32, u32)>;

/// Relies on `IndexSet::new`: an empty set.
#[verifier::external_body]
fn set_new() -> (r: IndexSet<(u32, u32, u32)>)
    ensures
        set_items(r) == Seq::<(u32, u32, u32)>::empty(),
{
    IndexSet::new()
}

/// Relies on `IndexSet::contains`: whether an equal item is in the set.
#[verifier::external_body]
fn set_contains(s: &IndexSet<(u32, u32, u32)>, k: (u32, u32, u32)) -> (r: bool)
    ensures
        r == set_items(*s).contains(k),
{
    s.contains(&k)
}

/// Relies on `IndexSet::insert`: an item not yet in the set goes in last.
#[verifier::external_body]
fn set_insert(s: &mut IndexSet<(u32, u32, u32)>, k: (u32, u32, u32))
    requires
        !set_items(*old(s)).contains(k),
    ensures
        set_items(*final(s)) == set_items(*old(s)).push(k),
{
    s.insert(k);
}

/// The items of `s` other than `k`, in order.
pub open spec fn without(s: Seq<(u32, u32, u32)>, k: (u32, u32, u32)) -> Seq<(u32, u32, u32)> {
    s.filter(differs_from(k))
}

/// Whether a code differs from `k`.
pub open spec fn differs_from(k: (u32, u32, u32)) -> spec_fn((u32, u32, u32)) -> bool {
    |x: (u32, u32, u32)| x != k
}

/// Relies on `IndexSet::shift_remove`: the item equal to `k` leaves, and those
/// after it keep their relative order.
#[verifier::external_body]
fn set_shift_remove(s: &mut IndexSet<(u32, u32, u32)>, k: (u32, u32, u32))
    ensures
        set_items(*final(s)) == without(set_items(*old(s)), k),
{
    s.shift_remove(&k);
}

/// Relies on `IndexSet::len`: the number of items.
#[verifier::external_body]
fn set_len(s: &IndexSet<(u32, u32, u32)>) -> (r: usize)
    ensures
        r == set_items(*s).len(),
{
    s.len()
}

/// Relies on `IndexSet::get_index`: the item at position `i` in insertion order.
#[verifier::external_body]
fn set_get_index(s: &IndexSet<(u32, u32, u32)>, i: usize) -> (r: (u32, u32, u32))
    requires
        i < set_items(*s).len(),
    ensures
        r == set_items(*s)[i as int],
{
    *s.get_index(i).unwrap()
}

/// The lists held by a table of pairs, by key.
pub uninterp spec fn pair_table(m: PairTable) -> Map<u32, Seq<(u32, u32)>>;

/// The lists held by a table of indices, by key.
pub uninterp spec fn index_table(m: IndexTable) -> Map<u32, Seq<u32>>;

/// Relies on `IndexMap::new`: an empty table.
#[verifier::external_body]
fn pair_table_new() -> (r: PairTable)
    ensures
        pair_table(r).dom() == Set::<u32>::empty(),
{
    IndexMap::new()
}

/// Relies on `IndexMap::new`: an empty table.
#[verifier::external_body]
fn index_table_new() -> (r: IndexTable)
    ensures
        index_table(r).dom() == Set::<u32>::empty(),
{
    IndexMap::new()
}

/// Relies on `IndexMap::entry` and `Entry::or_default`: appends `v` to the
/// list under `k`, which starts empty where `k` is new.
#[verifier::external_body]
fn pair_table_push(m: &mut PairTable, k: u32, v: (u32, u32))
    ensures
        pair_table(*final(m)) == pair_table(*old(m)).insert(k, list_of(pair_table(*old(m)), k).push(v)),
{
    m.entry(k).or_default().push(v);
}

/// Relies on `IndexMap::entry` and `Entry::or_default`: appends `v` to the
/// list under `k`, which starts empty where `k` is new.
#[verifier::external_body]
fn index_table_push(m: &mut IndexTable, k: u32, v: u32)
    ensures
        index_table(*final(m)) == index_table(*old(m)).insert(k, list_of(index_table(*old(m)), k).push(v)),
{
    m.entry(k).or_default().push(v);
}

/// Relies on `IndexMap::get`: the list under `k`, if `k` is a key.
#[verifier::external_body]
pub(crate) fn pair_table_get(m: &PairTable, k: u32) -> (r: Option<&Vec<(u32, u32)>>)
    ensures
        match r {
            Some(v) => pair_table(*m).contains_key(k) && v@ == pair_table(*m)[k],
            None => !pair_table(*m).contains_key(k),
        },
{
    m.get(&k)
}

/// Relies on `IndexMap::get`: the list under `k`, if `k` is a key.
#[verifier::external_body]
pub(crate) fn index_table_get(m: &IndexTable, k: u32) -> (r: Option<&Vec<u32>>)
    ensures
        match r {
            Some(v) => index_table(*m).contains_key(k) && v@ == index_table(*m)[k],
            None => !index_table(*m).contains_key(k),
        },
{
    m.get(&k)
}

/// The list under `k`, empty where `k` is not a key.
pub open spec fn list_of<T>(m: Map<u32, Seq<T>>, k: u32) -> Seq<T> {
    if m.contains_key(k) {
        m[k]
    } else {
        Seq::empty()
    }
}

/// The monomials of a phase polynomial, grouped by colour and indexed by
/// node: for each red node `r`, the blue-green pairs (`rbg_monomials`), blue
/// nodes (`rb_monomials`) and green nodes (`rg_monomials`) it multiplies;
/// and the blue-green pairs with no red factor (`bg_monomials`).
pub struct PolynomialGraph {
    pub rbg_monomials: PairTable,
    pub rb_monomials: IndexTable,
    pub rg_monomials: IndexTable,
    pub bg_monomials: Vec<(u32, u32)>,
}

impl PolynomialGraph {
    /// The blue-green pairs toggled when red node `r` flips.
    pub open spec fn rbg(&self, r: u32) -> Seq<(u32, u32)> {
        list_of(pair_table(self.rbg_monomials), r)
    }

    /// The blue nodes toggled when red node `r` flips.
    pub open spec fn rb(&self, r: u32) -> Seq<u32> {
        list_of(index_table(self.rb_monomials), r)
    }

    /// The green nodes toggled when red node `r` flips.
    pub open spec fn rg(&self, r: u32) -> Seq<u32> {
        list_of(index_table(self.rg_monomials), r)
    }

    /// Every node named in the tables is below `n`.
    pub open spec fn wf(&self, n: nat) -> bool {
        &&& forall|r: u32, i: int| 0 <= i < self.rbg(r).len() ==> (#[trigger] self.rbg(r)[i]).0 < n && self.rbg(r)[i].1 < n
        &&& forall|r: u32, i: int| 0 <= i < self.rb(r).len() ==> #[trigger] self.rb(r)[i] < n
        &&& forall|r: u32, i: int| 0 <= i < self.rg(r).len() ==> #[trigger] self.rg(r)[i] < n
        &&& forall|i: int| 0 <= i < self.bg_monomials@.len() ==> (#[trigger] self.bg_monomials@[i]).0 < n && self.bg_monomials@[i].1 < n
    }
}

/// Marks the empty third slot in the code of a degree-2 monomial.
pub const NO_QUBIT: u32 = 0xFFFF_FFFF;

/// A product of two or three qubit variables of the phase polynomial, its
/// qubits in increasing index order.
#[derive(Debug, Clone, Copy)]
pub enum Monomial {
    Two([Qubit; 2]),
    Three([Qubit; 3]),
}

/// `s` with positions `i` and `j` exchanged where the qubit at `i` has the
/// larger index.
pub open spec fn compare_swap(s: Seq<Qubit>, i: int, j: int) -> Seq<Qubit> {
    if s[i].index > s[j].index {
        s.update(i, s[j]).update(j, s[i])
    } else {
        s
    }
}

/// Three qubits in increasing index order.
pub open spec fn sort3(s: Seq<Qubit>) -> Seq<Qubit> {
    compare_swap(compare_swap(compare_swap(s, 0, 1), 1, 2), 0, 1)
}

/// The qubits of `s` with the first equal to `from` (the last one, where none
/// is) replaced by `to`.
pub open spec fn replace_qubit(s: Seq<Qubit>, from: Qubit, to: Qubit) -> Seq<Qubit> {
    if s[0] == from {
        s.update(0, to)
    } else if s.len() == 3 && s[1] == from {
        s.update(1, to)
    } else {
        s.update(s.len() - 1, to)
    }
}

/// The code of a monomial given by its qubits: their indices, with
/// `NO_QUBIT` in the third slot for two qubits.
pub open spec fn code_of(qs: Seq<Qubit>) -> (u32, u32, u32) {
    if qs.len() == 2 {
        (qs[0].index, qs[1].index, NO_QUBIT)
    } else {
        (qs[0].index, qs[1].index, qs[2].index)
    }
}

/// The qubits that a code stands for.
pub open spec fn qubits_of_code(k: (u32, u32, u32)) -> Seq<Qubit> {
    if k.2 == NO_QUBIT {
        seq![Qubit { index: k.0, color: color_of(k.0) }, Qubit { index: k.1, color: color_of(k.1) }]
    } else {
        seq![
            Qubit { index: k.0, color: color_of(k.0) },
            Qubit { index: k.1, color: color_of(k.1) },
            Qubit { index: k.2, color: color_of(k.2) },
        ]
    }
}

impl Monomial {
    /// The qubits, in order.
    pub open spec fn qubits(&self) -> Seq<Qubit> {
        match self {
            Monomial::Two(a) => seq![a[0], a[1]],
            Monomial::Three(a) => seq![a[0], a[1], a[2]],
        }
    }

    /// The qubits, in order.
    pub fn qubit_vec(&self) -> (r: Vec<Qubit>)
        ensures
            r@ == self.qubits(),
    {
        let mut v: Vec<Qubit> = Vec::new();
        match self {
            Monomial::Two(a) => {
                v.push(a[0]);
                v.push(a[1]);
            },
            Monomial::Three(a) => {
                v.push(a[0]);
                v.push(a[1]);
                v.push(a[2]);
            },
        }
        assert(v@ =~= self.qubits());
        v
    }

    /// Whether `q` is one of the qubits.
    pub fn contains(&self, q: &Qubit) -> (r: bool)
        ensures
            r == self.qubits().contains(*q),
    {
        let r = match self {
            Self::Two(a) => a[0] == *q || a[1] == *q,
            Self::Three(a) => a[0] == *q || a[1] == *q || a[2] == *q,
        };
        proof {
            if r {
                let s = self.qubits();
                if s[0] == *q {
                    assert(s[0] == *q);
                } else if s[1] == *q {
                    assert(s[1] == *q);
                } else {
                    assert(s[2] == *q);
                }
            }
        }
        r
    }

    /// Replaces `replaced_qubit` (the last qubit, where it is not there) by
    /// `new_qubit` and restores increasing index order.
    pub fn swap_qubit(&mut self, replaced_qubit: &Qubit, new_qubit: Qubit)
        ensures
            old(self).qubits().len() == 2 ==> final(self).qubits() == compare_swap(
                replace_qubit(old(self).qubits(), *replaced_qubit, new_qubit),
                0,
                1,
            ),
            old(self).qubits().len() == 3 ==> final(self).qubits() == sort3(
                replace_qubit(old(self).qubits(), *replaced_qubit, new_qubit),
            ),
    {
        match *self {
            Self::Two(tup) => {
                let (a, b) = if tup[0] == *replaced_qubit {
                    (new_qubit, tup[1])
                } else {
                    (tup[0], new_qubit)
                };
                let r = if a.index > b.index { [b, a] } else { [a, b] };
                *self = Self::Two(r);
                assert(self.qubits() =~= compare_swap(
                    replace_qubit(old(self).qubits(), *replaced_qubit, new_qubit),
                    0,
                    1,
                ));
            },
            Self::Three(tup) => {
                let (a, b, c) = if tup[0] == *replaced_qubit {
                    (new_qubit, tup[1], tup[2])
                } else if tup[1] == *replaced_qubit {
                    (tup[0], new_qubit, tup[2])
                } else {
                    (tup[0], tup[1], new_qubit)
                };
                let r = sorted_three(a, b, c);
                *self = Self::Three(r);
                assert(self.qubits() =~= sort3(
                    replace_qubit(old(self).qubits(), *replaced_qubit, new_qubit),
                ));
            },
        }
    }

    /// The code of the monomial.
    pub fn code(&self) -> (r: (u32, u32, u32))
        ensures
            r == code_of(self.qubits()),
    {
        match self {
            Self::Two(a) => (a[0].index, a[1].index, NO_QUBIT),
            Self::Three(a) => (a[0].index, a[1].index, a[2].index),
        }
    }

    /// The monomial that a code stands for.
    pub fn from_code(k: (u32, u32, u32)) -> (r: Self)
        ensures
            r.qubits() == qubits_of_code(k),
    {
        let r = if k.2 == NO_QUBIT {
            Self::Two([Qubit::new(k.0), Qubit::new(k.1)])
        } else {
            Self::Three([Qubit::new(k.0), Qubit::new(k.1), Qubit::new(k.2)])
        };
        assert(r.qubits() =~= qubits_of_code(k));
        r
    }
}

/// Three qubits in increasing index order, by the compare-and-swap network
/// of `sort3`.
fn sorted_three(a: Qubit, b: Qubit, c: Qubit) -> (r: [Qubit; 3])
    ensures
        seq![r[0], r[1], r[2]] == sort3(seq![a, b, c]),
{
    let (a, b) = if a.index > b.index { (b, a) } else { (a, b) };
    let (b, c) = if b.index > c.index { (c, b) } else { (b, c) };
    let (a, b) = if a.index > b.index { (b, a) } else { (a, b) };
    let r = [a, b, c];
    assert(seq![r[0], r[1], r[2]] =~= sort3(seq![a, b, c])) by {
        let s0 = seq![a, b, c];
    }
    r
}

/// Why a gate cannot be applied to the phase polynomial.
#[derive(Debug, Clone, Copy, PartialEq, Eq, Structural)]
pub enum CircuitError {
    /// A CCZ gate whose three qubits do not have three distinct colours.
    CczColorsNotDistinct,
    /// A CZ gate on two qubits of the same colour.
    CzSameColor,
    /// A CNOT gate whose control and target are the same qubit.
    CnotSameQubit,
    /// A CNOT gate whose control and target differ in colour.
    CnotColorMismatch,
}

/// `s` with `k` removed where it is there, appended where it is not.
pub open spec fn toggle_code(s: Seq<(u32, u32, u32)>, k: (u32, u32, u32)) -> Seq<(u32, u32, u32)> {
    if s.contains(k) {
        without(s, k)
    } else {
        s.push(k)
    }
}

/// `s` with each code of `l` toggled, in order.
pub open spec fn toggle_codes(s: Seq<(u32, u32, u32)>, l: Seq<(u32, u32, u32)>) -> Seq<(u32, u32, u32)>
    decreases l.len(),
{
    if l.len() == 0 {
        s
    } else {
        toggle_code(toggle_codes(s, l.drop_last()), l.last())
    }
}

/// The code of monomial `k` after a CNOT from `c` to `t`: `t` replaced by `c`,
/// then sorted.
pub open spec fn swapped_code(k: (u32, u32, u32), t: Qubit, c: Qubit) -> (u32, u32, u32) {
    let qs = replace_qubit(qubits_of_code(k), t, c);
    if qs.len() == 2 {
        code_of(compare_swap(qs, 0, 1))
    } else {
        code_of(sort3(qs))
    }
}

/// For the monomials of `s` that hold `t`, in order, their codes after a CNOT
/// from `c` to `t`.
pub open spec fn cnot_images(s: Seq<(u32, u32, u32)>, t: Qubit, c: Qubit) -> Seq<(u32, u32, u32)>
    decreases s.len(),
{
    if s.len() == 0 {
        Seq::empty()
    } else if qubits_of_code(s.last()).contains(t) {
        cnot_images(s.drop_last(), t, c).push(swapped_code(s.last(), t, c))
    } else {
        cnot_images(s.drop_last(), t, c)
    }
}

/// A qubit whose colour is the one its index gives.
pub open spec fn well_formed_qubit(q: Qubit, n_qubits: nat) -> bool {
    q.color == color_of(q.index) && q.index < n_qubits
}

/// The qubits a code names have distinct colours: two or three of them.
pub open spec fn well_colored(k: (u32, u32, u32)) -> bool {
    if k.2 == NO_QUBIT {
        color_of(k.0) != color_of(k.1)
    } else {
        color_of(k.0) != color_of(k.1) && color_of(k.1) != color_of(k.2) && color_of(k.0) != color_of(k.2)
    }
}

/// A monomial whose qubits have distinct colours is never missing a colour.
proof fn lemma_well_colored_not_malformed(k: (u32, u32, u32))
    requires
        well_colored(k),
    ensures
        !malformed(k),
{
    reveal_with_fuel(node_of_color, 4);
    let qs = qubits_of_code(k);
    if k.2 == NO_QUBIT {
        assert(qs.drop_last().drop_last() =~= Seq::<Qubit>::empty());
        assert(qs.drop_last() =~= seq![qs[0]]);
    } else {
        assert(qs.drop_last().drop_last().drop_last() =~= Seq::<Qubit>::empty());
        assert(qs.drop_last().drop_last() =~= seq![qs[0]]);
        assert(qs.drop_last() =~= seq![qs[0], qs[1]]);
    }
}

/// Qubits whose colours are those their indices give, and pairwise distinct.
pub open spec fn distinct_colors(s: Seq<Qubit>) -> bool {
    &&& forall|p: int| 0 <= p < s.len() ==> (#[trigger] s[p]).color == color_of(s[p].index)
    &&& forall|p: int, q: int| 0 <= p < s.len() && 0 <= q < s.len() && p != q ==> #[trigger] s[p].color != #[trigger] s[q].color
}

proof fn lemma_compare_swap_keeps_colors(s: Seq<Qubit>, i: int, j: int)
    requires
        distinct_colors(s),
        0 <= i < s.len(),
        0 <= j < s.len(),
        i != j,
    ensures
        distinct_colors(compare_swap(s, i, j)),
        compare_swap(s, i, j).len() == s.len(),
{
    let r = compare_swap(s, i, j);
    if s[i].index > s[j].index {
        assert forall|p: int| 0 <= p < r.len() implies (#[trigger] r[p]).color == color_of(r[p].index) by {
            if p == i {
                assert(r[p] == s[j]);
            } else if p == j {
                assert(r[p] == s[i]);
            } else {
                assert(r[p] == s[p]);
            }
        }
        assert forall|p: int, q: int| 0 <= p < r.len() && 0 <= q < r.len() && p != q implies #[trigger] r[p].color
            != #[trigger] r[q].color by {
            let p2 = if p == i { j } else if p == j { i } else { p };
            let q2 = if q == i { j } else if q == j { i } else { q };
            assert(r[p] == s[p2] && r[q] == s[q2]);
        }
    }
}

/// The code of distinct-coloured qubits names qubits of distinct colours.
proof fn lemma_code_well_colored(s: Seq<Qubit>)
    requires
        distinct_colors(s),
        s.len() == 2 || s.len() == 3,
        s.len() == 3 ==> s[2].index != NO_QUBIT,
    ensures
        well_colored(code_of(s)),
{
    assert(s[0].color != s[1].color);
    if s.len() == 3 {
        assert(s[1].color != s[2].color);
        assert(s[0].color != s[2].color);
    }
}

/// Replacing `t` by a qubit `c` of its colour keeps colours distinct.
proof fn lemma_replace_keeps_colors(qs: Seq<Qubit>, t: Qubit, c: Qubit)
    requires
        distinct_colors(qs),
        qs.len() == 2 || qs.len() == 3,
        qs.contains(t),
        c.color == t.color,
        c.color == color_of(c.index),
    ensures
        distinct_colors(replace_qubit(qs, t, c)),
        replace_qubit(qs, t, c).len() == qs.len(),
        forall|p: int| 0 <= p < qs.len() ==> (#[trigger] replace_qubit(qs, t, c)[p] == qs[p] || replace_qubit(qs, t, c)[p] == c),
{
    let j = choose|j: int| 0 <= j < qs.len() && qs[j] == t;
    let r = replace_qubit(qs, t, c);
    let pos = if qs[0] == t { 0 } else if qs.len() == 3 && qs[1] == t { 1 } else { qs.len() - 1 };
    assert(qs[pos] == t);
    assert(r == qs.update(pos, c));
    assert forall|p: int, q: int| 0 <= p < r.len() && 0 <= q < r.len() && p != q implies #[trigger] r[p].color
        != #[trigger] r[q].color by {
        assert(r[p].color == qs[p].color);
        assert(r[q].color == qs[q].color);
    }
}

/// A CNOT from `c` to `t` keeps the colours of a monomial holding `t`
/// distinct.
#[verifier::rlimit(40)]
proof fn lemma_swap_keeps_colors(k: (u32, u32, u32), t: Qubit, c: Qubit, n_qubits: nat)
    requires
        well_colored(k),
        code_in_range(k, n_qubits),
        n_qubits < NO_QUBIT,
        qubits_of_code(k).contains(t),
        well_formed_qubit(t, n_qubits),
        well_formed_qubit(c, n_qubits),
        c.color == t.color,
    ensures
        well_colored(swapped_code(k, t, c)),
{
    let qs = qubits_of_code(k);
    assert(distinct_colors(qs));
    lemma_replace_keeps_colors(qs, t, c);
    let r = replace_qubit(qs, t, c);
    if qs.len() == 2 {
        lemma_compare_swap_keeps_colors(r, 0, 1);
        lemma_code_well_colored(compare_swap(r, 0, 1));
    } else {
        assert(r[2].index < n_qubits) by {
            assert(r[2] == qs[2] || r[2] == c);
        }
        assert(r[0].index < n_qubits && r[1].index < n_qubits) by {
            assert(r[0] == qs[0] || r[0] == c);
            assert(r[1] == qs[1] || r[1] == c);
        }
        lemma_sort3_keeps_colors(r, n_qubits);
    }
}

/// Sorting three distinct-coloured qubits below `n_qubits` keeps their
/// colours distinct and their indices below `n_qubits`.
proof fn lemma_sort3_keeps_colors(r: Seq<Qubit>, n_qubits: nat)
    requires
        distinct_colors(r),
        r.len() == 3,
        n_qubits < NO_QUBIT,
        r[0].index < n_qubits,
        r[1].index < n_qubits,
        r[2].index < n_qubits,
    ensures
        well_colored(code_of(sort3(r))),
{
    lemma_compare_swap_keeps_colors(r, 0, 1);
    let s1 = compare_swap(r, 0, 1);
    lemma_compare_swap_keeps_colors(s1, 1, 2);
    let s2 = compare_swap(s1, 1, 2);
    lemma_compare_swap_keeps_colors(s2, 0, 1);
    let s3 = compare_swap(s2, 0, 1);
    assert(s1[2].index < n_qubits && s1[1].index < n_qubits && s1[0].index < n_qubits);
    assert(s2[2].index < n_qubits);
    assert(s3[2] == s2[2]);
    lemma_code_well_colored(s3);
}

/// Every qubit a code names is below `n_qubits`.
pub open spec fn code_in_range(k: (u32, u32, u32), n_qubits: nat) -> bool {
    &&& k.0 < n_qubits
    &&& k.1 < n_qubits
    &&& (k.2 == NO_QUBIT || k.2 < n_qubits)
}

/// A phase polynomial over GF(2): a set of monomials, kept in the order they
/// were added, each standing for `(-1)` raised to the product of its qubits.
pub struct PhasePolynomial {
    monomials: IndexSet<(u32, u32, u32)>,
    n_qubits: u32,
}

impl PhasePolynomial {
    /// The codes of the monomials, in insertion order.
    pub closed spec fn items(&self) -> Seq<(u32, u32, u32)> {
        set_items(self.monomials)
    }

    /// The number of qubits of the circuit.
    pub closed spec fn qubit_count(&self) -> nat {
        self.n_qubits as nat
    }

    /// Every monomial names qubits of the circuit only.
    pub open spec fn wf(&self) -> bool {
        &&& self.qubit_count() < NO_QUBIT
        &&& forall|i: int|
            0 <= i < self.items().len() ==> code_in_range(#[trigger] self.items()[i], self.qubit_count()) && well_colored(
                self.items()[i],
            )
    }

    /// The empty polynomial, for a circuit with the qubits of `params`.
    pub fn new(params: &SimulationParams) -> (r: Self)
        requires
            params.n_qubits < NO_QUBIT,
        ensures
            r.wf(),
            r.qubit_count() == params.n_qubits,
            r.items() == Seq::<(u32, u32, u32)>::empty(),
    {
        Self { monomials: set_new(), n_qubits: params.n_qubits }
    }

    /// Adds monomial `k` where it is absent, removes it where it is present.
    fn toggle(&mut self, k: (u32, u32, u32))
        requires
            old(self).wf(),
            code_in_range(k, old(self).qubit_count()),
            well_colored(k),
        ensures
            final(self).wf(),
            final(self).qubit_count() == old(self).qubit_count(),
            final(self).items() == toggle_code(old(self).items(), k),
    {
        if set_contains(&self.monomials, k) {
            set_shift_remove(&mut self.monomials, k);
            proof {
                assert forall|i: int| 0 <= i < self.items().len() implies code_in_range(#[trigger] self.items()[i], self.qubit_count())
                    && well_colored(self.items()[i]) by {
                    let x = self.items()[i];
                    assert(without(old(self).items(), k).contains(x));
                    old(self).items().lemma_filter_contains_rev(differs_from(k), x);
                    assert(old(self).items().contains(x));
                    let j = choose|j: int| 0 <= j < old(self).items().len() && old(self).items()[j] == x;
                    assert(code_in_range(old(self).items()[j], self.qubit_count()));
                }
            }
        } else {
            set_insert(&mut self.monomials, k);
            assert forall|i: int| 0 <= i < self.items().len() implies code_in_range(#[trigger] self.items()[i], self.qubit_count())
                && well_colored(self.items()[i]) by {
                if i < old(self).items().len() {
                    assert(self.items()[i] == old(self).items()[i]);
                }
            }
        }
    }

    /// A CCZ gate: toggles the degree-3 monomial of its qubits. The three
    /// qubits must have three distinct colours.
    pub fn ccz(&mut self, q1: Qubit, q2: Qubit, q3: Qubit) -> (r: Result<(), CircuitError>)
        requires
            old(self).wf(),
            well_formed_qubit(q1, old(self).qubit_count()),
            well_formed_qubit(q2, old(self).qubit_count()),
            well_formed_qubit(q3, old(self).qubit_count()),
        ensures
            final(self).wf(),
            final(self).qubit_count() == old(self).qubit_count(),
            (q1.color != q2.color && q2.color != q3.color && q1.color != q3.color) ==> {
                &&& r is Ok
                &&& final(self).items() == toggle_code(old(self).items(), code_of(sort3(seq![q1, q2, q3])))
            },
            !(q1.color != q2.color && q2.color != q3.color && q1.color != q3.color) ==> {
                &&& r == Err::<(), CircuitError>(CircuitError::CczColorsNotDistinct)
                &&& final(self).items() == old(self).items()
            },
    {
        if q1.color == q2.color || q2.color == q3.color || q1.color == q3.color {
            return Err(CircuitError::CczColorsNotDistinct);
        }
        let qubits = Monomial::Three(sorted_three(q1, q2, q3));
        let k = qubits.code();
        assert(qubits.qubits() =~= sort3(seq![q1, q2, q3]));
        self.toggle(k);
        Ok(())
    }

    /// A CZ gate: toggles the degree-2 monomial of its qubits, which must
    /// differ in colour.
    pub fn cz(&mut self, q1: Qubit, q2: Qubit) -> (r: Result<(), CircuitError>)
        requires
            old(self).wf(),
            well_formed_qubit(q1, old(self).qubit_count()),
            well_formed_qubit(q2, old(self).qubit_count()),
        ensures
            final(self).wf(),
            final(self).qubit_count() == old(self).qubit_count(),
            q1.color != q2.color ==> {
                &&& r is Ok
                &&& final(self).items() == toggle_code(old(self).items(), code_of(compare_swap(seq![q1, q2], 0, 1)))
            },
            q1.color == q2.color ==> {
                &&& r == Err::<(), CircuitError>(CircuitError::CzSameColor)
                &&& final(self).items() == old(self).items()
            },
    {
        if q1.color == q2.color {
            return Err(CircuitError::CzSameColor);
        }
        let qubits = if q1.index > q2.index { Monomial::Two([q2, q1]) } else { Monomial::Two([q1, q2]) };
        let k = qubits.code();
        assert(qubits.qubits() =~= compare_swap(seq![q1, q2], 0, 1));
        self.toggle(k);
        Ok(())
    }

    /// A CNOT gate from control `c` to target `t`, absorbed into the
    /// polynomial: each monomial that holds `t` toggles its copy with `t`
    /// replaced by `c`. Control and target must be distinct qubits of the same
    /// colour.
    #[verifier::rlimit(40)]
    pub fn cnot(&mut self, c: Qubit, t: Qubit) -> (r: Result<(), CircuitError>)
        requires
            old(self).wf(),
            well_formed_qubit(c, old(self).qubit_count()),
            well_formed_qubit(t, old(self).qubit_count()),
        ensures
            final(self).wf(),
            final(self).qubit_count() == old(self).qubit_count(),
            c.index == t.index ==> r == Err::<(), CircuitError>(CircuitError::CnotSameQubit),
            c.index != t.index && c.color != t.color ==> r == Err::<(), CircuitError>(CircuitError::CnotColorMismatch),
            r is Err ==> final(self).items() == old(self).items(),
            c.index != t.index && c.color == t.color ==> {
                &&& r is Ok
                &&& final(self).items() == toggle_codes(old(self).items(), cnot_images(old(self).items(), t, c))
            },
    {
        if c.index == t.index {
            return Err(CircuitError::CnotSameQubit);
        }
        if c.color != t.color {
            return Err(CircuitError::CnotColorMismatch);
        }
        let ghost start = self.items();
        let len = set_len(&self.monomials);
        let mut impacted: Vec<(u32, u32, u32)> = Vec::new();
        let mut i: usize = 0;
        while i < len
            invariant
                i <= len,
                len == start.len(),
                self.items() == start,
                self.wf(),
                well_formed_qubit(c, self.qubit_count()),
                well_formed_qubit(t, self.qubit_count()),
                impacted@ == cnot_images(start.take(i as int), t, c),
                forall|j: int| 0 <= j < impacted@.len() ==> code_in_range(#[trigger] impacted@[j], self.qubit_count())
                    && well_colored(impacted@[j]),
                c.color == t.color,
            decreases len - i,
        {
            let k = set_get_index(&self.monomials, i);
            let mut m = Monomial::from_code(k);
            assert(start.take(i as int + 1).drop_last() =~= start.take(i as int));
            assert(start.take(i as int + 1).last() == k);
            let ghost m0 = m;
            if m.contains(&t) {
                m.swap_qubit(&t, c);
                let mk = m.code();
                proof {
                    assert(code_in_range(k, self.qubit_count()));
                    assert(well_colored(k));
                    assert(m0.qubits().contains(t));
                    lemma_swap_keeps_colors(k, t, c, self.qubit_count());
                    let qs = replace_qubit(qubits_of_code(k), t, c);
                    if k.2 == NO_QUBIT {
                        assert(compare_swap(qs, 0, 1) =~= m.qubits());
                    } else {
                        assert(sort3(qs) =~= m.qubits());
                    }
                }
                impacted.push(mk);
            }
            i = i + 1;
        }
        assert(start.take(len as int) =~= start);
        let mut j: usize = 0;
        while j < impacted.len()
            invariant
                j <= impacted@.len(),
                impacted@ == cnot_images(start, t, c),
                self.wf(),
                self.qubit_count() == old(self).qubit_count(),
                old(self).items() == start,
                forall|q: int| 0 <= q < impacted@.len() ==> code_in_range(#[trigger] impacted@[q], self.qubit_count())
                    && well_colored(impacted@[q]),
                self.items() == toggle_codes(start, impacted@.take(j as int)),
            decreases impacted@.len() - j,
        {
            let k = impacted[j];
            assert(impacted@.take(j as int + 1).drop_last() =~= impacted@.take(j as int));
            self.toggle(k);
            j = j + 1;
        }
        assert(impacted@.take(impacted@.len() as int) =~= impacted@);
        Ok(())
    }

    /// Groups the monomials by colour into the tables of a polynomial graph,
    /// keeping their order. Every monomial has distinct colours, so each
    /// finds its table.
    #[verifier::rlimit(40)]
    pub fn into_polynomial_graph(self) -> (r: Result<PolynomialGraph, CircuitError>)
        requires
            self.wf(),
            self.qubit_count() % 3 == 0,
        ensures
            r is Ok,
            r is Ok ==> {
                let g = r->Ok_0;
                &&& g.wf(self.qubit_count() / 3)
                &&& forall|x: u32| #[trigger] g.rbg(x) == rbg_list(self.items(), x)
                &&& forall|x: u32| #[trigger] g.rb(x) == rb_list(self.items(), x)
                &&& forall|x: u32| #[trigger] g.rg(x) == rg_list(self.items(), x)
                &&& g.bg_monomials@ == bg_list(self.items())
                &&& pair_table(g.rbg_monomials).dom() == Set::new(|x: u32| rbg_list(self.items(), x).len() > 0)
                &&& index_table(g.rb_monomials).dom() == Set::new(|x: u32| rb_list(self.items(), x).len() > 0)
                &&& index_table(g.rg_monomials).dom() == Set::new(|x: u32| rg_list(self.items(), x).len() > 0)
            },
    {
        let ghost items = self.items();
        let ghost nodes = self.qubit_count() / 3;
        let mut rbg_monomials = pair_table_new();
        let mut rg_monomials = index_table_new();
        let mut rb_monomials = index_table_new();
        let mut bg_monomials: Vec<(u32, u32)> = Vec::new();
        let len = set_len(&self.monomials);
        let mut i: usize = 0;
        while i < len
            invariant
                i <= len,
                len == items.len(),
                items == self.items(),
                self.wf(),
                nodes == self.qubit_count() / 3,
                self.qubit_count() % 3 == 0,
                forall|x: u32| #[trigger] list_of(pair_table(rbg_monomials), x) == rbg_list(items.take(i as int), x),
                forall|x: u32| #[trigger] list_of(index_table(rb_monomials), x) == rb_list(items.take(i as int), x),
                forall|x: u32| #[trigger] list_of(index_table(rg_monomials), x) == rg_list(items.take(i as int), x),
                bg_monomials@ == bg_list(items.take(i as int)),
                forall|x: u32| #[trigger] pair_table(rbg_monomials).contains_key(x) <==> rbg_list(items.take(i as int), x).len() > 0,
                forall|x: u32| #[trigger] index_table(rb_monomials).contains_key(x) <==> rb_list(items.take(i as int), x).len() > 0,
                forall|x: u32| #[trigger] index_table(rg_monomials).contains_key(x) <==> rg_list(items.take(i as int), x).len() > 0,
                forall|x: u32, j: int|
                    0 <= j < list_of(pair_table(rbg_monomials), x).len() ==> (#[trigger] list_of(
                        pair_table(rbg_monomials),
                        x,
                    )[j]).0 < nodes && list_of(pair_table(rbg_monomials), x)[j].1 < nodes,
                forall|x: u32, j: int|
                    0 <= j < list_of(index_table(rb_monomials), x).len() ==> #[trigger] list_of(index_table(rb_monomials), x)[j] < nodes,
                forall|x: u32, j: int|
                    0 <= j < list_of(index_table(rg_monomials), x).len() ==> #[trigger] list_of(index_table(rg_monomials), x)[j] < nodes,
                forall|j: int|
                    0 <= j < bg_monomials@.len() ==> (#[trigger] bg_monomials@[j]).0 < nodes && bg_monomials@[j].1 < nodes,
            decreases len - i,
        {
            let ghost rbg0 = pair_table(rbg_monomials);
            let ghost rb0 = index_table(rb_monomials);
            let ghost rg0 = index_table(rg_monomials);
            let k = set_get_index(&self.monomials, i);
            let monomial = Monomial::from_code(k);
            let mc = Color::seperate_monomial_colors(&monomial);
            let ghost prefix = items.take(i as int);
            assert(items.take(i as int + 1).drop_last() =~= prefix);
            assert(items.take(i as int + 1).last() == k);
            proof {
                assert(code_in_range(k, self.qubit_count()));
                lemma_colors_in_range(k, self.qubit_count());
            }
            match (mc.red, mc.blue, mc.green) {
                (Some(r), None, Some(g)) => {
                    index_table_push(&mut rg_monomials, r, g);
                },
                (Some(r), Some(b), None) => {
                    index_table_push(&mut rb_monomials, r, b);
                },
                (None, Some(b), Some(g)) => {
                    bg_monomials.push((b, g));
                },
                (Some(r), Some(b), Some(g)) => {
                    pair_table_push(&mut rbg_monomials, r, (b, g));
                },
                _ => {
                    proof {
                        assert(malformed(items[i as int]));
                        lemma_well_colored_not_malformed(items[i as int]);
                    }
                    return unreached();
                },
            }
            proof {
                let next = items.take(i as int + 1);
                assert forall|x: u32| #[trigger] list_of(pair_table(rbg_monomials), x) == rbg_list(next, x) by {
                    assert(list_of(rbg0, x) == rbg_list(prefix, x));
                }
                assert forall|x: u32| #[trigger] pair_table(rbg_monomials).contains_key(x) <==> rbg_list(next, x).len() > 0 by {
                    assert(rbg0.contains_key(x) <==> rbg_list(prefix, x).len() > 0);
                    assert(list_of(rbg0, x) == rbg_list(prefix, x));
                }
                assert forall|x: u32| #[trigger] index_table(rb_monomials).contains_key(x) <==> rb_list(next, x).len() > 0 by {
                    assert(rb0.contains_key(x) <==> rb_list(prefix, x).len() > 0);
                    assert(list_of(rb0, x) == rb_list(prefix, x));
                }
                assert forall|x: u32| #[trigger] index_table(rg_monomials).contains_key(x) <==> rg_list(next, x).len() > 0 by {
                    assert(rg0.contains_key(x) <==> rg_list(prefix, x).len() > 0);
                    assert(list_of(rg0, x) == rg_list(prefix, x));
                }
                assert forall|x: u32| #[trigger] list_of(index_table(rb_monomials), x) == rb_list(next, x) by {
                    assert(list_of(rb0, x) == rb_list(prefix, x));
                }
                assert forall|x: u32| #[trigger] list_of(index_table(rg_monomials), x) == rg_list(next, x) by {
                    assert(list_of(rg0, x) == rg_list(prefix, x));
                }
                assert forall|x: u32, j: int|
                    0 <= j < list_of(pair_table(rbg_monomials), x).len() implies (#[trigger] list_of(
                        pair_table(rbg_monomials),
                        x,
                    )[j]).0 < nodes && list_of(pair_table(rbg_monomials), x)[j].1 < nodes by {
                    if j < list_of(rbg0, x).len() {
                        assert(list_of(pair_table(rbg_monomials), x)[j] == list_of(rbg0, x)[j]);
                    }
                }
                assert forall|x: u32, j: int|
                    0 <= j < list_of(index_table(rb_monomials), x).len() implies #[trigger] list_of(index_table(rb_monomials), x)[j] < nodes by {
                    if j < list_of(rb0, x).len() {
                        assert(list_of(index_table(rb_monomials), x)[j] == list_of(rb0, x)[j]);
                    }
                }
                assert forall|x: u32, j: int|
                    0 <= j < list_of(index_table(rg_monomials), x).len() implies #[trigger] list_of(index_table(rg_monomials), x)[j] < nodes by {
                    if j < list_of(rg0, x).len() {
                        assert(list_of(index_table(rg_monomials), x)[j] == list_of(rg0, x)[j]);
                    }
                }
            }
            i = i + 1;
        }
        assert(items.take(len as int) =~= items);
        assert(pair_table(rbg_monomials).dom() =~= Set::new(|x: u32| rbg_list(items, x).len() > 0));
        assert(index_table(rb_monomials).dom() =~= Set::new(|x: u32| rb_list(items, x).len() > 0));
        assert(index_table(rg_monomials).dom() =~= Set::new(|x: u32| rg_list(items, x).len() > 0));
        Ok(PolynomialGraph { rbg_monomials, rb_monomials, rg_monomials, bg_monomials })
    }
}

/// The node of each colour in the monomial that code `k` stands for.
pub open spec fn colors_of_code(k: (u32, u32, u32)) -> MonomialColors {
    MonomialColors {
        red: node_of_color(qubits_of_code(k), Color::Red),
        blue: node_of_color(qubits_of_code(k), Color::Blue),
        green: node_of_color(qubits_of_code(k), Color::Green),
    }
}

/// A monomial that lacks a colour its kind needs: a red-green one without
/// red or green, a red-blue one without red, a blue-green one without
/// either.
pub open spec fn malformed(k: (u32, u32, u32)) -> bool {
    let mc = colors_of_code(k);
    match (mc.red, mc.blue, mc.green) {
        (Some(_), None, Some(_)) => false,
        (Some(_), Some(_), None) => false,
        (None, Some(_), Some(_)) => false,
        (Some(_), Some(_), Some(_)) => false,
        _ => true,
    }
}

/// The blue-green node pairs of the monomials of `s` with all three colours
/// and red node `x`, in order.
pub open spec fn rbg_list(s: Seq<(u32, u32, u32)>, x: u32) -> Seq<(u32, u32)>
    decreases s.len(),
{
    if s.len() == 0 {
        Seq::empty()
    } else {
        let mc = colors_of_code(s.last());
        let rest = rbg_list(s.drop_last(), x);
        match (mc.red, mc.blue, mc.green) {
            (Some(r), Some(b), Some(g)) => if r == x { rest.push((b, g)) } else { rest },
            _ => rest,
        }
    }
}

/// The blue nodes of the red-blue monomials of `s` with red node `x`, in order.
pub open spec fn rb_list(s: Seq<(u32, u32, u32)>, x: u32) -> Seq<u32>
    decreases s.len(),
{
    if s.len() == 0 {
        Seq::empty()
    } else {
        let mc = colors_of_code(s.last());
        let rest = rb_list(s.drop_last(), x);
        match (mc.red, mc.blue, mc.green) {
            (Some(r), Some(b), None) => if r == x { rest.push(b) } else { rest },
            _ => rest,
        }
    }
}

/// The green nodes of the red-green monomials of `s` with red node `x`, in order.
pub open spec fn rg_list(s: Seq<(u32, u32, u32)>, x: u32) -> Seq<u32>
    decreases s.len(),
{
    if s.len() == 0 {
        Seq::empty()
    } else {
        let mc = colors_of_code(s.last());
        let rest = rg_list(s.drop_last(), x);
        match (mc.red, mc.blue, mc.green) {
            (Some(r), None, Some(g)) => if r == x { rest.push(g) } else { rest },
            _ => rest,
        }
    }
}

/// The blue-green node pairs of the blue-green monomials of `s`, in order.
pub open spec fn bg_list(s: Seq<(u32, u32, u32)>) -> Seq<(u32, u32)>
    decreases s.len(),
{
    if s.len() == 0 {
        Seq::empty()
    } else {
        let mc = colors_of_code(s.last());
        let rest = bg_list(s.drop_last());
        match (mc.red, mc.blue, mc.green) {
            (None, Some(b), Some(g)) => rest.push((b, g)),
            _ => rest,
        }
    }
}

/// The nodes of a monomial whose qubits are below `n_qubits = 3 * nodes` are
/// below `nodes`.
proof fn lemma_colors_in_range(k: (u32, u32, u32), n_qubits: nat)
    requires
        code_in_range(k, n_qubits),
        n_qubits % 3 == 0,
    ensures
        colors_of_code(k).red matches Some(x) ==> x < n_qubits / 3,
        colors_of_code(k).blue matches Some(x) ==> x < n_qubits / 3,
        colors_of_code(k).green matches Some(x) ==> x < n_qubits / 3,
{
    reveal_with_fuel(node_of_color, 4);
    let qs = qubits_of_code(k);
    if qs.len() == 2 {
        assert(qs.drop_last().drop_last() =~= Seq::<Qubit>::empty());
        assert(qs.drop_last() =~= seq![qs[0]]);
    } else {
        assert(qs.drop_last().drop_last().drop_last() =~= Seq::<Qubit>::empty());
        assert(qs.drop_last().drop_last() =~= seq![qs[0]]);
        assert(qs.drop_last() =~= seq![qs[0], qs[1]]);
    }
}

} // verus!
