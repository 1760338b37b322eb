use vstd::prelude::*;

verus! {

use crate::bits::{
    dot, lemma_toggle_bit_commute, lemma_toggle_bit_twice, toggle_bit, Bitstring,
};
use crate::gray_code::{apply_flips, is_flip_action};
use crate::matrix::{mat_vec, BitMatrix};
use crate::span::{all_of_len, independent, kernel, zeros};
use crate::phase_polynomial::{index_table_get, pair_table_get, PolynomialGraph};
use crate::solver::SergeySolver;
use crate::iqp_simulations::swap_check::{bit_of, symmetry_class, SwapSymmetries};

/// `v` with each bit listed in `l` negated, in order.
pub open spec fn toggle_bits(v: Seq<bool>, l: Seq<u32>) -> Seq<bool>
    decreases l.len(),
{
    if l.len() == 0 {
        v
    } else {
        toggle_bit(toggle_bits(v, l.drop_last()), l.last() as int)
    }
}

/// `m` with entry `(e.0, e.1)` negated (unchanged where it is out of range).
pub open spec fn toggle_entry(m: Seq<Seq<bool>>, e: (u32, u32)) -> Seq<Seq<bool>> {
    if (e.0 as int) < m.len() {
        m.update(e.0 as int, toggle_bit(m[e.0 as int], e.1 as int))
    } else {
        m
    }
}

/// `m` with each entry listed in `l` negated, in order.
pub open spec fn toggle_entries(m: Seq<Seq<bool>>, l: Seq<(u32, u32)>) -> Seq<Seq<bool>>
    decreases l.len(),
{
    if l.len() == 0 {
        m
    } else {
        toggle_entry(toggle_entries(m, l.drop_last()), l.last())
    }
}

proof fn lemma_toggle_bits_commute_one(v: Seq<bool>, l: Seq<u32>, i: int)
    ensures
        toggle_bit(toggle_bits(v, l), i) == toggle_bits(toggle_bit(v, i), l),
    decreases l.len(),
{
    if l.len() > 0 {
        lemma_toggle_bits_commute_one(v, l.drop_last(), i);
        lemma_toggle_bit_commute(toggle_bits(v, l.drop_last()), i, l.last() as int);
    }
}

proof fn lemma_toggle_bits_commute(v: Seq<bool>, l1: Seq<u32>, l2: Seq<u32>)
    ensures
        toggle_bits(toggle_bits(v, l1), l2) == toggle_bits(toggle_bits(v, l2), l1),
    decreases l2.len(),
{
    if l2.len() > 0 {
        lemma_toggle_bits_commute(v, l1, l2.drop_last());
        lemma_toggle_bits_commute_one(toggle_bits(v, l2.drop_last()), l1, l2.last() as int);
    }
}

proof fn lemma_toggle_bits_twice(v: Seq<bool>, l: Seq<u32>)
    ensures
        toggle_bits(toggle_bits(v, l), l) == v,
    decreases l.len(),
{
    if l.len() > 0 {
        let p = l.drop_last();
        let i = l.last() as int;
        lemma_toggle_bits_commute_one(toggle_bit(toggle_bits(v, p), i), p, i);
        lemma_toggle_bits_commute_one(toggle_bits(v, p), p, i);
        lemma_toggle_bit_twice(toggle_bits(toggle_bits(v, p), p), i);
        lemma_toggle_bits_twice(v, p);
    }
}

proof fn lemma_toggle_entry_commute(m: Seq<Seq<bool>>, e1: (u32, u32), e2: (u32, u32))
    ensures
        toggle_entry(toggle_entry(m, e1), e2) == toggle_entry(toggle_entry(m, e2), e1),
{
    if e1.0 == e2.0 && (e1.0 as int) < m.len() {
        lemma_toggle_bit_commute(m[e1.0 as int], e1.1 as int, e2.1 as int);
    }
    assert(toggle_entry(toggle_entry(m, e1), e2) =~= toggle_entry(toggle_entry(m, e2), e1));
}

proof fn lemma_toggle_entry_twice(m: Seq<Seq<bool>>, e: (u32, u32))
    ensures
        toggle_entry(toggle_entry(m, e), e) == m,
{
    if (e.0 as int) < m.len() {
        lemma_toggle_bit_twice(m[e.0 as int], e.1 as int);
    }
    assert(toggle_entry(toggle_entry(m, e), e) =~= m);
}

proof fn lemma_toggle_entries_commute_one(m: Seq<Seq<bool>>, l: Seq<(u32, u32)>, e: (u32, u32))
    ensures
        toggle_entry(toggle_entries(m, l), e) == toggle_entries(toggle_entry(m, e), l),
    decreases l.len(),
{
    if l.len() > 0 {
        lemma_toggle_entries_commute_one(m, l.drop_last(), e);
        lemma_toggle_entry_commute(toggle_entries(m, l.drop_last()), e, l.last());
    }
}

proof fn lemma_toggle_entries_commute(m: Seq<Seq<bool>>, l1: Seq<(u32, u32)>, l2: Seq<(u32, u32)>)
    ensures
        toggle_entries(toggle_entries(m, l1), l2) == toggle_entries(toggle_entries(m, l2), l1),
    decreases l2.len(),
{
    if l2.len() > 0 {
        lemma_toggle_entries_commute(m, l1, l2.drop_last());
        lemma_toggle_entries_commute_one(toggle_entries(m, l2.drop_last()), l1, l2.last());
    }
}

proof fn lemma_toggle_entries_twice(m: Seq<Seq<bool>>, l: Seq<(u32, u32)>)
    ensures
        toggle_entries(toggle_entries(m, l), l) == m,
    decreases l.len(),
{
    if l.len() > 0 {
        let p = l.drop_last();
        let e = l.last();
        lemma_toggle_entries_commute_one(toggle_entry(toggle_entries(m, p), e), p, e);
        lemma_toggle_entries_commute_one(toggle_entries(m, p), p, e);
        lemma_toggle_entry_twice(toggle_entries(toggle_entries(m, p), p), e);
        lemma_toggle_entries_twice(m, p);
    }
}

/// The algebraic state at one step of the evaluation: the coefficient matrix,
/// the two parity vectors and the red assignment.
pub struct SystemState {
    pub gamma: Seq<Seq<bool>>,
    pub delta_b: Seq<bool>,
    pub delta_g: Seq<bool>,
    pub x_r: Seq<bool>,
}

/// The state after red bit `r` flips: the red bit is negated, and so is
/// each entry of the coefficient matrix and each parity bit that the
/// tables list for `r`.
pub open spec fn flip_state(st: SystemState, r: u32, g: PolynomialGraph) -> SystemState {
    SystemState {
        gamma: toggle_entries(st.gamma, g.rbg(r)),
        delta_b: toggle_bits(st.delta_b, g.rb(r)),
        delta_g: toggle_bits(st.delta_g, g.rg(r)),
        x_r: toggle_bit(st.x_r, r as int),
    }
}

/// Flipping a red bit, as an action on states.
pub open spec fn flip_action(g: PolynomialGraph) -> spec_fn(SystemState, nat) -> SystemState {
    |st: SystemState, r: nat| flip_state(st, r as u32, g)
}

/// Flipping the same red bit twice restores the state, and flips of two red
/// bits commute.
pub proof fn lemma_flip_action(g: PolynomialGraph)
    ensures
        is_flip_action(flip_action(g)),
{
    let f = flip_action(g);
    assert forall|s: SystemState, r: nat| #[trigger] f(f(s, r), r) == s by {
        let r32 = r as u32;
        lemma_toggle_entries_twice(s.gamma, g.rbg(r32));
        lemma_toggle_bits_twice(s.delta_b, g.rb(r32));
        lemma_toggle_bits_twice(s.delta_g, g.rg(r32));
        lemma_toggle_bit_twice(s.x_r, r32 as int);
    }
    assert forall|s: SystemState, r1: nat, r2: nat| #[trigger] f(f(s, r1), r2) == f(f(s, r2), r1) by {
        let a = r1 as u32;
        let b = r2 as u32;
        lemma_toggle_entries_commute(s.gamma, g.rbg(a), g.rbg(b));
        lemma_toggle_bits_commute(s.delta_b, g.rb(a), g.rb(b));
        lemma_toggle_bits_commute(s.delta_g, g.rg(a), g.rg(b));
        lemma_toggle_bit_commute(s.x_r, a as int, b as int);
    }
}

/// Round trip: from any state, performing all `2^n` flips of the Gray code
/// over `n` red bits, in order, gives back the same state.
pub proof fn lemma_state_round_trip(st: SystemState, g: PolynomialGraph, n: nat)
    requires
        n >= 1,
    ensures
        apply_flips(flip_action(g), st, crate::gray_code::gray_flips(n)) == st,
{
    lemma_flip_action(g);
    crate::gray_code::lemma_gray_round_trip(flip_action(g), st, n);
}

/// The weight that one contributing step adds to the amplitude, scaled by
/// `2^n`: `(-1)^phase * 2^(n - rank)`, where the phase is the parity of
/// `x_g · sg_delta_g` plus that of `x_r · s_r`.
pub open spec fn term_value(x_g: Seq<bool>, sg_delta_g: Seq<bool>, x_r: Seq<bool>, s_r: Seq<bool>, n: nat, rank: nat) -> int {
    if dot(x_g, sg_delta_g, n as int) != dot(x_r, s_r, n as int) {
        -vstd::arithmetic::power2::pow2((n - rank) as nat)
    } else {
        vstd::arithmetic::power2::pow2((n - rank) as nat) as int
    }
}

/// The quick check: the red assignment has even overlap with both
/// `s_B ⊕ δ_B` and `s_G ⊕ δ_G`.
pub open spec fn quick_check_passes(x_r: Seq<bool>, sb_delta_b: Seq<bool>, sg_delta_g: Seq<bool>, n: nat) -> bool {
    !dot(x_r, sb_delta_b, n as int) && !dot(x_r, sg_delta_g, n as int)
}

/// `rows · x = b` has a solution over GF(2).
pub open spec fn solvable(rows: Seq<Seq<bool>>, b: Seq<bool>, n: nat) -> bool {
    exists|x: Seq<bool>| x.len() == n && #[trigger] mat_vec(rows, x, n as int) == b
}

/// `v` is orthogonal to every solution of `rows · x = 0`.
pub open spec fn orthogonal_to_kernel(rows: Seq<Seq<bool>>, v: Seq<bool>, n: nat) -> bool {
    forall|x: Seq<bool>| x.len() == n && #[trigger] mat_vec(rows, x, n as int) == zeros(n) ==> !dot(v, x, n as int)
}

/// The weight that the step at state `st` adds to the amplitude, scaled by
/// `2^n`: zero unless the quick check passes, `Γ · x = s_B ⊕ δ_B` has a
/// solution and `s_G ⊕ δ_G` is orthogonal to the nullspace of `Γ`; then the
/// size of that nullspace (`2^(n - rank)`), negated where
/// `x · (s_G ⊕ δ_G) + x_R · s_R` is odd for a solution `x` (any one gives the
/// same parity).
pub open spec fn step_value(st: SystemState, s_b: Seq<bool>, s_g: Seq<bool>, s_r: Seq<bool>, n: nat) -> int {
    let sb = crate::bits::xor_seq(s_b, st.delta_b);
    let sg = crate::bits::xor_seq(s_g, st.delta_g);
    if quick_check_passes(st.x_r, sb, sg, n) && solvable(st.gamma, sb, n) && orthogonal_to_kernel(st.gamma, sg, n) {
        let x = choose|x: Seq<bool>| x.len() == n && #[trigger] mat_vec(st.gamma, x, n as int) == sb;
        let k = kernel(st.gamma, n).len() as int;
        if dot(x, sg, n as int) != dot(st.x_r, s_r, n as int) {
            -k
        } else {
            k
        }
    } else {
        0
    }
}

/// The per-step algebraic state of the evaluation, patched in place as red
/// bits flip, with the scratch space that each step reuses.
pub struct LinearSystems {
    pub gamma: BitMatrix,
    pub delta_b: Bitstring,
    pub delta_g: Bitstring,
    pub x_r: Bitstring,
    pub solver: SergeySolver,
    // caching allocations for often used intermediary vectors
    pub sb_delta_b: Bitstring,
    pub sg_delta_g: Bitstring,
    /// The swap-symmetry bookkeeping, for at most 16 red nodes.
    pub symmetry_checker: Option<SwapSymmetries>,
}

impl LinearSystems {
    /// Where the swap-symmetry bookkeeping runs: the symmetry class of the
    /// current red pattern if it is not covered yet (and marks it covered),
    /// `None` where it is covered or the bookkeeping does not run.
    pub fn dmitri_check(&mut self) -> (r: Option<std::collections::BTreeSet<u16>>)
        requires
            old(self).wf(old(self).solver.n as nat),
        ensures
            final(self).wf(old(self).solver.n as nat),
            final(self).state() == old(self).state(),
            final(self).solver == old(self).solver,
            old(self).symmetry_checker is None ==> r is None && final(self).symmetry_checker is None,
            old(self).symmetry_checker matches Some(c) ==> {
                let p = c.current_bit_pattern;
                &&& final(self).symmetry_checker matches Some(c2) && c2.current_bit_pattern == p
                &&& c.symmetries@.contains(p) ==> r is None && final(self).symmetry_checker->0.symmetries@ == c.symmetries@
                &&& !c.symmetries@.contains(p) ==> {
                    &&& r matches Some(class) && class@ == crate::iqp_simulations::swap_check::symmetry_class(p)
                    &&& final(self).symmetry_checker->0.symmetries@ == c.symmetries@.union(symmetry_class(p))
                }
            },
    {
        match &mut self.symmetry_checker {
            Some(checker) => checker.check_for_symmetries(),
            None => None,
        }
    }

    /// The state as mathematical values.
    pub open spec fn state(&self) -> SystemState {
        SystemState {
            gamma: self.gamma.view(),
            delta_b: self.delta_b@,
            delta_g: self.delta_g@,
            x_r: self.x_r@,
        }
    }

    /// Everything has the shape that `n` nodes per colour call for.
    pub open spec fn wf(&self, n: nat) -> bool {
        &&& self.gamma.wf()
        &&& self.gamma.rows@.len() == n
        &&& self.gamma.number_of_columns == n
        &&& self.delta_b@.len() == n
        &&& self.delta_g@.len() == n
        &&& self.x_r@.len() == n
        &&& self.sb_delta_b@.len() == n
        &&& self.sg_delta_g@.len() == n
        &&& self.solver.wf()
        &&& self.solver.n == n
        &&& (self.symmetry_checker matches Some(c) ==> {
            &&& n <= 16
            &&& forall|i: u16| i < 16 ==> #[trigger] bit_of(c.current_bit_pattern, i) == (i < n && self.x_r@[i as int])
        })
    }

    /// The starting state for `nodes` nodes per colour (the solver's `n + 1`
    /// columns must be countable): the coefficient
    /// matrix has a one at each blue-green pair of `bg_monomials`, and the
    /// parity vectors and the red assignment are zero.
    pub fn new(nodes: u32, phase_graph: &PolynomialGraph) -> (r: Self)
        requires
            nodes < 0xFFFF_FFFF,
            phase_graph.wf(nodes as nat),
        ensures
            r.wf(nodes as nat),
            r.state().delta_b == Seq::new(nodes as nat, |i: int| false),
            r.state().delta_g == Seq::new(nodes as nat, |i: int| false),
            r.state().x_r == Seq::new(nodes as nat, |i: int| false),
            r.sb_delta_b@ == Seq::new(nodes as nat, |i: int| false),
            r.sg_delta_g@ == Seq::new(nodes as nat, |i: int| false),
            forall|b: int, g: int|
                0 <= b < nodes && 0 <= g < nodes ==> #[trigger] r.state().gamma[b][g] == exists|k: int|
                    0 <= k < phase_graph.bg_monomials@.len() && phase_graph.bg_monomials@[k] == (
                    b as u32,
                    g as u32,
                ),
    {
        let n = nodes as usize;
        let mut gamma = BitMatrix::zeroes(n, n);
        let mut k: usize = 0;
        let bg = &phase_graph.bg_monomials;
        while k < bg.len()
            invariant
                gamma.wf(),
                gamma.rows@.len() == n,
                gamma.number_of_columns == n,
                n == nodes,
                k <= bg@.len(),
                phase_graph.wf(nodes as nat),
                bg == &phase_graph.bg_monomials,
                forall|b: int, g: int|
                    0 <= b < n && 0 <= g < n ==> #[trigger] gamma.view()[b][g] == exists|j: int|
                        0 <= j < k && bg@[j] == (b as u32, g as u32),
            decreases bg@.len() - k,
        {
            let (b, g) = bg[k];
            let ghost prev = gamma.view();
            gamma.set(b as usize, g as usize, true);
            assert forall|bb: int, gg: int| 0 <= bb < n && 0 <= gg < n implies #[trigger] gamma.view()[bb][gg] == exists|j: int|
                0 <= j < k + 1 && bg@[j] == (bb as u32, gg as u32) by {
                if bb == b && gg == g {
                    assert(bg@[k as int] == (bb as u32, gg as u32));
                } else {
                    assert(gamma.view()[bb][gg] == prev[bb][gg]);
                    if exists|j: int| 0 <= j < k + 1 && bg@[j] == (bb as u32, gg as u32) {
                        let j = choose|j: int| 0 <= j < k + 1 && bg@[j] == (bb as u32, gg as u32);
                        assert(j < k);
                    }
                }
            }
            k = k + 1;
        }
        Self {
            gamma,
            delta_b: Bitstring::zeroes(n),
            delta_g: Bitstring::zeroes(n),
            x_r: Bitstring::zeroes(n),
            solver: SergeySolver::zero(n),
            sb_delta_b: Bitstring::zeroes(n),
            sg_delta_g: Bitstring::zeroes(n),
            symmetry_checker: if nodes <= 16 {
                let c = SwapSymmetries::new();
                assert forall|i: u16| i < 16 implies #[trigger] bit_of(c.current_bit_pattern, i) == false by {
                    assert((0u16 >> i) & 1 == 0) by (bit_vector);
                }
                Some(c)
            } else {
                None
            },
        }
    }

    /// Negates bit `i` of `v` for each `i` in `list`, in order.
    fn toggle_listed(v: &mut Bitstring, list: &Vec<u32>)
        requires
            forall|k: int| 0 <= k < list@.len() ==> (#[trigger] list@[k] as int) < old(v)@.len(),
        ensures
            final(v)@.len() == old(v)@.len(),
            final(v)@ == toggle_bits(old(v)@, list@),
    {
        let mut k: usize = 0;
        while k < list.len()
            invariant
                k <= list@.len(),
                v@.len() == old(v)@.len(),
                forall|j: int| 0 <= j < list@.len() ==> (#[trigger] list@[j] as int) < v@.len(),
                v@ == toggle_bits(old(v)@, list@.take(k as int)),
            decreases list@.len() - k,
        {
            let h = list[k];
            v.flip(h as usize);
            assert(list@.take(k as int + 1).drop_last() =~= list@.take(k as int));
            k = k + 1;
        }
        assert(list@.take(list@.len() as int) =~= list@);
    }

    /// Negates entry `(b, g)` of `m` for each `(b, g)` in `list`, in order.
    fn toggle_listed_entries(m: &mut BitMatrix, list: &Vec<(u32, u32)>)
        requires
            old(m).wf(),
            old(m).rows@.len() == old(m).number_of_columns,
            forall|k: int|
                0 <= k < list@.len() ==> ((#[trigger] list@[k]).0 as int) < old(m).rows@.len() && (list@[k].1 as int)
                    < old(m).number_of_columns,
        ensures
            final(m).wf(),
            final(m).rows@.len() == old(m).rows@.len(),
            final(m).number_of_columns == old(m).number_of_columns,
            final(m).view() == toggle_entries(old(m).view(), list@),
    {
        let mut k: usize = 0;
        while k < list.len()
            invariant
                k <= list@.len(),
                m.wf(),
                m.rows@.len() == old(m).rows@.len(),
                m.number_of_columns == old(m).number_of_columns,
                forall|j: int|
                    0 <= j < list@.len() ==> ((#[trigger] list@[j]).0 as int) < m.rows@.len() && (list@[j].1 as int)
                        < m.number_of_columns,
                m.view() == toggle_entries(old(m).view(), list@.take(k as int)),
            decreases list@.len() - k,
        {
            let (h0, h1) = list[k];
            m.flip(h0 as usize, h1 as usize);
            assert(list@.take(k as int + 1).drop_last() =~= list@.take(k as int));
            k = k + 1;
        }
        assert(list@.take(list@.len() as int) =~= list@);
    }

    /// Patches the state for a flip of red bit `flip_bit`, using the tables
    /// of `phase_graph` alone.
    pub fn update_with_flip_bit(&mut self, flip_bit: u32, phase_graph: &PolynomialGraph)
        requires
            old(self).wf(old(self).solver.n as nat),
            phase_graph.wf(old(self).solver.n as nat),
            flip_bit < old(self).solver.n,
        ensures
            final(self).wf(old(self).solver.n as nat),
            final(self).solver == old(self).solver,
            final(self).sb_delta_b == old(self).sb_delta_b,
            final(self).sg_delta_g == old(self).sg_delta_g,
            final(self).state() == flip_state(old(self).state(), flip_bit, *phase_graph),
    {
        let ghost n = self.solver.n as nat;
        let flip_index = flip_bit as usize;
        self.x_r.flip(flip_index);
        if let Some(ss) = &mut self.symmetry_checker {
            let ghost before = ss.current_bit_pattern;
            ss.increment_bit(Some(flip_bit));
            proof {
                let f = flip_bit as u16;
                assert forall|i: u16| i < 16 implies #[trigger] bit_of(ss.current_bit_pattern, i) == (bit_of(before, i) != (i
                    == f)) by {
                    assert(f < 16 && i < 16 ==> (((before ^ (1u16 << f)) >> i) & 1 == 1) == ((((before >> i) & 1) == 1) != (i
                        == f))) by (bit_vector);
                }
            }
        }
        match pair_table_get(&phase_graph.rbg_monomials, flip_bit) {
            Some(list) => {
                assert forall|k: int| 0 <= k < list@.len() implies ((#[trigger] list@[k]).0 as int) < n && (list@[k].1 as int) < n by {
                    assert(phase_graph.rbg(flip_bit)[k] == list@[k]);
                }
                Self::toggle_listed_entries(&mut self.gamma, list);
            }
            None => {
                assert(phase_graph.rbg(flip_bit) =~= Seq::<(u32, u32)>::empty());
            }
        }
        match index_table_get(&phase_graph.rb_monomials, flip_bit) {
            Some(list) => {
                assert forall|k: int| 0 <= k < list@.len() implies (#[trigger] list@[k] as int) < self.delta_b@.len() by {
                    assert(phase_graph.rb(flip_bit)[k] == list@[k]);
                }
                Self::toggle_listed(&mut self.delta_b, list);
            }
            None => {
                assert(phase_graph.rb(flip_bit) =~= Seq::<u32>::empty());
            }
        }
        match index_table_get(&phase_graph.rg_monomials, flip_bit) {
            Some(list) => {
                assert forall|k: int| 0 <= k < list@.len() implies (#[trigger] list@[k] as int) < self.delta_g@.len() by {
                    assert(phase_graph.rg(flip_bit)[k] == list@[k]);
                }
                Self::toggle_listed(&mut self.delta_g, list);
            }
            None => {
                assert(phase_graph.rg(flip_bit) =~= Seq::<u32>::empty());
            }
        }
        assert(self.state() == flip_state(old(self).state(), flip_bit, *phase_graph));
    }

    /// Writes `s_b ⊕ δ_B` and `s_G ⊕ δ_G` into the scratch vectors, and
    /// passes where the red assignment has even overlap with both.
    fn sergey_check(&mut self, s_b: &Bitstring, s_g: &Bitstring) -> (r: Option<()>)
        requires
            old(self).wf(old(self).solver.n as nat),
            s_b@.len() == old(self).solver.n,
            s_g@.len() == old(self).solver.n,
        ensures
            final(self).wf(old(self).solver.n as nat),
            final(self).state() == old(self).state(),
            final(self).gamma == old(self).gamma,
            final(self).solver == old(self).solver,
            final(self).sb_delta_b@ == crate::bits::xor_seq(s_b@, old(self).delta_b@),
            final(self).sg_delta_g@ == crate::bits::xor_seq(s_g@, old(self).delta_g@),
            r is Some <==> quick_check_passes(old(self).x_r@, final(self).sb_delta_b@, final(self).sg_delta_g@, old(self).solver.n as nat),
    {
        let n = self.solver.n;
        let mut idx: usize = 0;
        while idx < n
            invariant
                self.wf(n as nat),
                self.solver.n == n,
                self.state() == old(self).state(),
                self.gamma == old(self).gamma,
                self.solver == old(self).solver,
                s_b@.len() == n,
                s_g@.len() == n,
                idx <= n,
                forall|j: int| 0 <= j < idx ==> self.sb_delta_b@[j] == (s_b@[j] != self.delta_b@[j]),
                forall|j: int| 0 <= j < idx ==> self.sg_delta_g@[j] == (s_g@[j] != self.delta_g@[j]),
            decreases n - idx,
        {
            let xb = s_b.get(idx) != self.delta_b.get(idx);
            self.sb_delta_b.set(idx, xb);
            let xg = s_g.get(idx) != self.delta_g.get(idx);
            self.sg_delta_g.set(idx, xg);
            idx = idx + 1;
        }
        assert(self.sb_delta_b@ =~= crate::bits::xor_seq(s_b@, old(self).delta_b@));
        assert(self.sg_delta_g@ =~= crate::bits::xor_seq(s_g@, old(self).delta_g@));
        let odd_b = self.x_r.and_parity(&self.sb_delta_b, n);
        let odd_g = self.x_r.and_parity(&self.sg_delta_g, n);
        if !odd_b && !odd_g {
            Some(())
        } else {
            None
        }
    }

    /// One step of the evaluation, on the state before the step's flip: runs
    /// the quick check, then the solver on `Γ · x = s_B ⊕ δ_B`, and where both
    /// pass and `s_G ⊕ δ_G` is orthogonal to the solver's nullspace basis (or
    /// the rank is full), returns the step's weight scaled by `2^n`.
    #[verifier::rlimit(40)]
    pub fn solve_if_gamma_null_space_quick_check(
        &mut self,
        s_b: &Bitstring,
        s_g: &Bitstring,
        s_r: &Bitstring,
    ) -> (r: Option<i128>)
        requires
            old(self).wf(old(self).solver.n as nat),
            old(self).solver.n <= 100,
            s_b@.len() == old(self).solver.n,
            s_g@.len() == old(self).solver.n,
            s_r@.len() == old(self).solver.n,
        ensures
            final(self).wf(old(self).solver.n as nat),
            final(self).solver.n == old(self).solver.n,
            final(self).state() == old(self).state(),
            final(self).sb_delta_b@ == crate::bits::xor_seq(s_b@, old(self).delta_b@),
            final(self).sg_delta_g@ == crate::bits::xor_seq(s_g@, old(self).delta_g@),
            !quick_check_passes(old(self).x_r@, final(self).sb_delta_b@, final(self).sg_delta_g@, old(self).solver.n as nat) ==> r is None,
            r is Some <==> {
                &&& quick_check_passes(old(self).x_r@, final(self).sb_delta_b@, final(self).sg_delta_g@, old(self).solver.n as nat)
                &&& solvable(old(self).gamma.view(), final(self).sb_delta_b@, old(self).solver.n as nat)
                &&& orthogonal_to_kernel(old(self).gamma.view(), final(self).sg_delta_g@, old(self).solver.n as nat)
            },
            r is Some ==> {
                let n = old(self).solver.n as nat;
                let rank = final(self).solver.rank_spec();
                &&& final(self).solver.spans_kernel_of(old(self).gamma.view())
                &&& independent(final(self).solver.basis(), n + 1)
                &&& final(self).solver.basis().no_duplicates()
                &&& rank == n - final(self).solver.basis().len()
                &&& forall|x: Seq<bool>|
                    x.len() == n && #[trigger] mat_vec(old(self).gamma.view(), x, n as int) == final(self).sb_delta_b@ ==> r->0
                        == term_value(x, final(self).sg_delta_g@, old(self).x_r@, s_r@, n, rank)
            },
            r matches Some(v) ==> v == step_value(old(self).state(), s_b@, s_g@, s_r@, old(self).solver.n as nat),
            r is None ==> step_value(old(self).state(), s_b@, s_g@, s_r@, old(self).solver.n as nat) == 0,
    {
        let n = self.solver.n;
        if self.sergey_check(s_b, s_g).is_none() {
            return None;
        }
        if self.solver.solve(&self.gamma, &self.sb_delta_b).is_none() {
            return None;
        }
        let ghost rows = self.gamma.view();
        let ghost sg = self.sg_delta_g@;
        proof {
            crate::solver::lemma_codeword_iff_orthogonal_to_nullspace(self.solver, rows, sg);
            assert forall|x: Seq<bool>| x.len() == n && #[trigger] mat_vec(rows, x, n as int) == zeros(n as nat) && !dot(
                sg,
                x,
                n as int,
            ) implies dot(sg, x, n as int) == dot(x, sg, n as int) by {
                crate::bits::lemma_dot_symmetric(sg, x, n as int);
            }
            if self.solver.x.cols@.len() == 0 {
                assert(self.solver.basis() =~= Seq::<Seq<bool>>::empty());
                assert forall|x: Seq<bool>| x.len() == n && #[trigger] mat_vec(rows, x, n as int) == zeros(n as nat)
                    implies !dot(sg, x, n as int) by {
                    crate::span::lemma_span_of_nothing(x.push(false), (n + 1) as nat);
                    assert(x.push(false) == zeros((n + 1) as nat));
                    assert forall|i: int| 0 <= i < x.len() implies !x[i] by {
                        assert(x.push(false)[i] == zeros((n + 1) as nat)[i]);
                    }
                    crate::bits::lemma_dot_zero(sg, x, n as int);
                }
            }
        }
        if !self.solver.is_full_rank() && !self.solver.is_nullspace_codeword(&self.sg_delta_g) {
            return None;
        }
        proof {
            assert(orthogonal_to_kernel(rows, sg, n as nat));
        }
        let xg_overlap = self.solver.solution.and_parity(&self.sg_delta_g, n);
        let sr_overlap = self.x_r.and_parity(s_r, n);
        let rank = self.solver.rank();
        let e = n - rank;
        let mut weight: i128 = 1;
        let mut k: usize = 0;
        proof {
            vstd::arithmetic::power2::lemma2_to64();
        }
        while k < e
            invariant
                k <= e,
                e <= 100,
                weight == vstd::arithmetic::power2::pow2(k as nat),
            decreases e - k,
        {
            proof {
                vstd::arithmetic::power2::lemma_pow2_unfold((k + 1) as nat);
                vstd::arithmetic::power2::lemma_pow2_strictly_increases((k + 1) as nat, 127);
                vstd::arithmetic::power2::lemma_pow2_adds(63, 64);
                vstd::arithmetic::power2::lemma2_to64();
                vstd::arithmetic::power2::lemma2_to64_rest();
                assert(vstd::arithmetic::power2::pow2(127) == 0x8000_0000_0000_0000 * 0x1_0000_0000_0000_0000);
                assert(weight * 2 == vstd::arithmetic::power2::pow2((k + 1) as nat));
            }
            weight = weight * 2;
            k = k + 1;
        }
        proof {
            let xg = self.solver.solution@;
            assert forall|x: Seq<bool>| x.len() == n && #[trigger] mat_vec(rows, x, n as int) == self.sb_delta_b@ implies dot(
                x,
                sg,
                n as int,
            ) == dot(xg, sg, n as int) by {
                let d = crate::bits::xor_seq(x, xg);
                assert forall|j: int| 0 <= j < rows.len() implies #[trigger] mat_vec(rows, d, n as int)[j] == zeros(n as nat)[j] by {
                    crate::bits::lemma_dot_xor(rows[j], x, xg, n as int);
                    assert(mat_vec(rows, x, n as int)[j] == mat_vec(rows, xg, n as int)[j]);
                }
                assert(mat_vec(rows, d, n as int) =~= zeros(n as nat));
                assert(!dot(sg, d, n as int));
                crate::bits::lemma_dot_xor(sg, x, xg, n as int);
                crate::bits::lemma_dot_symmetric(sg, x, n as int);
                crate::bits::lemma_dot_symmetric(sg, xg, n as int);
            }
        }
        proof {
            let basis = self.solver.basis();
            assert(all_of_len(basis, (n + 1) as nat));
            crate::span::lemma_kernel_size(rows, basis, n as nat);
        }
        if xg_overlap != sr_overlap {
            Some(-weight)
        } else {
            Some(weight)
        }
    }
}

} // verus!
