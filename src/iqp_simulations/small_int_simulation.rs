use vstd::prelude::*;

verus! {

use vstd::arithmetic::power2::{pow2, lemma_pow2_adds, lemma_pow2_strictly_increases};
use crate::bits::Bitstring;
use crate::gray_code::GrayCodeFlipBit;
use crate::iqp_simulations::iqp_circuit::{build_iqp_circuit, iqp_items, QubitColoringIndexes};
use crate::iqp_simulations::simulation_params::SimulationParams;
use crate::iqp_simulations::statevector::generate_random_statevector;
use crate::gray_code::{apply_flips, gray_flips};
use crate::linear_systems::{flip_action, step_value, LinearSystems, SystemState};
use crate::phase_polynomial::{bg_list, rb_list, rbg_list, rg_list, PolynomialGraph};
use crate::span::zeros;
use crate::phase_polynomial::CircuitError;

/// An amplitude as an exact dyadic rational: `numerator / 2^log2_denominator`.
#[derive(Debug, Clone, Copy, PartialEq, Eq, Structural)]
pub struct Amplitude {
    pub numerator: i128,
    pub log2_denominator: u32,
}

/// Evaluates one amplitude `<s|U|0...0>` of the IQP circuit on the hypercube
/// of a given dimension, for a bitstring `s` given or drawn at random.
pub struct CPUSmallIntSimulation {
    params: SimulationParams,
    statevector: Option<Bitstring>,
    use_symmetry_filter: bool,
}

/// The bits of `s` at the given qubit indices, in order.
fn select_bits(s: &Bitstring, idx: &Vec<u32>) -> (r: Bitstring)
    requires
        forall|i: int| 0 <= i < idx@.len() ==> (#[trigger] idx@[i] as int) < s@.len(),
    ensures
        r@ == Seq::new(idx@.len(), |i: int| s@[idx@[i] as int]),
{
    let mut r = Bitstring::zeroes(idx.len());
    let mut i: usize = 0;
    while i < idx.len()
        invariant
            i <= idx@.len(),
            r@.len() == idx@.len(),
            forall|j: int| 0 <= j < idx@.len() ==> (#[trigger] idx@[j] as int) < s@.len(),
            forall|j: int| 0 <= j < i ==> r@[j] == s@[idx@[j] as int],
        decreases idx@.len() - i,
    {
        let b = s.get(idx[i] as usize);
        r.set(i, b);
        i = i + 1;
    }
    assert(r@ =~= Seq::new(idx@.len(), |i: int| s@[idx@[i] as int]));
    r
}

/// The state before any flip: the coefficient matrix has a one at each
/// blue-green pair of `bg_monomials`; the parity vectors and the red
/// assignment are zero.
pub open spec fn seed_state(g: PolynomialGraph, n: nat) -> SystemState {
    SystemState {
        gamma: Seq::new(
            n,
            |b: int|
                Seq::new(
                    n,
                    |c: int| exists|k: int| 0 <= k < g.bg_monomials@.len() && g.bg_monomials@[k] == (b as u32, c as u32),
                ),
        ),
        delta_b: zeros(n),
        delta_g: zeros(n),
        x_r: zeros(n),
    }
}

/// The sum of the weights of the first `e` steps of the Gray walk from
/// `init`, each taken before that step's flip.
pub open spec fn walk_sum(
    g: PolynomialGraph,
    init: SystemState,
    s_b: Seq<bool>,
    s_g: Seq<bool>,
    s_r: Seq<bool>,
    n: nat,
    e: nat,
) -> int
    decreases e,
{
    if e == 0 {
        0
    } else {
        walk_sum(g, init, s_b, s_g, s_r, n, (e - 1) as nat) + step_value(
            apply_flips(flip_action(g), init, gray_flips(n).take(e - 1)),
            s_b,
            s_g,
            s_r,
            n,
        )
    }
}

/// The graph's tables hold, under each red node, the lists that the
/// monomials `items` give, and its blue-green pairs are theirs.
pub open spec fn tables_of(g: PolynomialGraph, items: Seq<(u32, u32, u32)>) -> bool {
    &&& forall|x: u32| #[trigger] g.rbg(x) == rbg_list(items, x)
    &&& forall|x: u32| #[trigger] g.rb(x) == rb_list(items, x)
    &&& forall|x: u32| #[trigger] g.rg(x) == rg_list(items, x)
    &&& g.bg_monomials@ == bg_list(items)
}

/// The bits of `s` at the qubits of colour `c` (red 0, blue 1, green 2),
/// node by node.
pub open spec fn colour_bits(s: Seq<bool>, n: nat, c: int) -> Seq<bool> {
    Seq::new(n, |i: int| s[3 * i + c])
}

/// The sizes of the circuit on the hypercube of dimension `k`.
pub open spec fn sizes_for(k: nat) -> SimulationParams {
    SimulationParams { boolean_cube_dimension: k as u32, nodes: pow2(k) as u32, n_qubits: (3 * pow2(k)) as u32 }
}

/// The amplitude `<s|U|0...0>` of the IQP circuit on the hypercube of
/// dimension `k`, times `4^n` for `n = 2^k` nodes: the sum of the step
/// weights along the Gray walk over the circuit's monomial tables, with `s`
/// split by colour.
pub open spec fn circuit_numerator(k: nat, s: Seq<bool>) -> int {
    let n = pow2(k);
    let g = choose|g: PolynomialGraph| tables_of(g, iqp_items(sizes_for(k)));
    walk_sum(g, seed_state(g, n), colour_bits(s, n, 1), colour_bits(s, n, 2), colour_bits(s, n, 0), n, pow2(n))
}

/// The walk only reads the graph's lists.
pub proof fn lemma_walk_sum_reads_lists(
    g1: PolynomialGraph,
    g2: PolynomialGraph,
    s_b: Seq<bool>,
    s_g: Seq<bool>,
    s_r: Seq<bool>,
    n: nat,
    e: nat,
)
    requires
        forall|x: u32| #[trigger] g1.rbg(x) == g2.rbg(x),
        forall|x: u32| #[trigger] g1.rb(x) == g2.rb(x),
        forall|x: u32| #[trigger] g1.rg(x) == g2.rg(x),
        g1.bg_monomials@ == g2.bg_monomials@,
    ensures
        walk_sum(g1, seed_state(g1, n), s_b, s_g, s_r, n, e) == walk_sum(g2, seed_state(g2, n), s_b, s_g, s_r, n, e),
    decreases e,
{
    assert(seed_state(g1, n) =~~= seed_state(g2, n));
    assert(flip_action(g1) =~= flip_action(g2)) by {
        assert forall|st: SystemState, r: nat| #[trigger] flip_action(g1)(st, r) == flip_action(g2)(st, r) by {
            assert(g1.rbg(r as u32) == g2.rbg(r as u32));
            assert(g1.rb(r as u32) == g2.rb(r as u32));
            assert(g1.rg(r as u32) == g2.rg(r as u32));
        }
    }
    if e > 0 {
        lemma_walk_sum_reads_lists(g1, g2, s_b, s_g, s_r, n, (e - 1) as nat);
    }
}

/// Walks the `2^n` red assignments in Gray-code order from the seed state,
/// adding up the step weights (each scaled by `2^n`): the amplitude is the
/// result divided by `4^n`. With `use_symmetry_filter`, the swap-symmetry
/// bookkeeping classifies each red pattern before its step; the result is
/// the same either way.
#[verifier::rlimit(40)]
pub fn evaluate(
    phase_graph: &PolynomialGraph,
    nodes: u32,
    s_b: &Bitstring,
    s_g: &Bitstring,
    s_r: &Bitstring,
    use_symmetry_filter: bool,
) -> (r: i128)
    requires
        1 <= nodes <= 32,
        phase_graph.wf(nodes as nat),
        s_b@.len() == nodes,
        s_g@.len() == nodes,
        s_r@.len() == nodes,
    ensures
        r == walk_sum(*phase_graph, seed_state(*phase_graph, nodes as nat), s_b@, s_g@, s_r@, nodes as nat, pow2(nodes as nat)),
        -pow2((2 * nodes) as nat) <= r <= pow2((2 * nodes) as nat),
{
    let n = nodes;
    let mut gc_flip_bit = GrayCodeFlipBit::new(n);
    let mut ls = LinearSystems::new(n, phase_graph);
    let ghost g = *phase_graph;
    let ghost init = seed_state(g, n as nat);
    let ghost f = flip_action(g);
    let ghost flips = gray_flips(n as nat);
    let ghost p = pow2(n as nat);
    proof {
        assert(ls.state().gamma =~~= init.gamma);
        assert(ls.state().delta_b =~= init.delta_b);
        assert(ls.state().delta_g =~= init.delta_g);
        assert(ls.state().x_r =~= init.x_r);
        assert(ls.state() == init);
        assert(flips.take(0) =~= Seq::<nat>::empty());
        lemma_pow2_strictly_increases(n as nat, 33);
        lemma_pow2_adds(n as nat, n as nat);
        lemma_pow2_strictly_increases((2 * n) as nat, 127);
        lemma_pow2_adds(63, 64);
        vstd::arithmetic::power2::lemma2_to64();
        vstd::arithmetic::power2::lemma2_to64_rest();
        crate::gray_code::lemma_gray_flips_in_range(n as nat);
    }
    let mut amplitude: i128 = 0;
    loop
        invariant
            1 <= n <= 32,
            p == pow2(n as nat),
            p * p == pow2((2 * n) as nat),
            pow2((2 * n) as nat) < pow2(127),
            pow2(127) == 0x8000_0000_0000_0000 * 0x1_0000_0000_0000_0000,
            gc_flip_bit.wf(),
            gc_flip_bit.width() == n,
            gc_flip_bit.emitted() <= p,
            flips == gray_flips(n as nat),
            flips.len() == p,
            forall|j: int| 0 <= j < p ==> #[trigger] flips[j] < n,
            f == flip_action(g),
            g == *phase_graph,
            ls.wf(n as nat),
            ls.solver.n == n,
            phase_graph.wf(n as nat),
            s_b@.len() == n,
            s_g@.len() == n,
            s_r@.len() == n,
            ls.state() == apply_flips(f, init, flips.take(gc_flip_bit.emitted() as int)),
            amplitude == walk_sum(g, init, s_b@, s_g@, s_r@, n as nat, gc_flip_bit.emitted()),
            -(gc_flip_bit.emitted() * p) <= amplitude <= gc_flip_bit.emitted() * p,
        ensures
            gc_flip_bit.emitted() == p,
            amplitude == walk_sum(g, init, s_b@, s_g@, s_r@, n as nat, p),
            -(p * p) <= amplitude <= p * p,
        decreases p - gc_flip_bit.emitted(),
    {
        let ghost e = gc_flip_bit.emitted();
        match gc_flip_bit.next() {
            Some(flip_bit) => {
                proof {
                    assert(flips[e as int] < n);
                }
                if use_symmetry_filter {
                    let _ = ls.dmitri_check();
                }
                match ls.solve_if_gamma_null_space_quick_check(s_b, s_g, s_r) {
                    Some(amplitude_increment) => {
                        proof {
                            let rank = ls.solver.rank_spec();
                            if rank > 0 {
                                lemma_pow2_strictly_increases((n - rank) as nat, n as nat);
                            }
                            assert(-p <= amplitude_increment <= p);
                            assert((e + 1) * p == e * p + p) by (nonlinear_arith);
                            assert((e + 1) * p <= p * p) by (nonlinear_arith)
                                requires
                                    e + 1 <= p,
                                    p >= 0,
                            ;
                        }
                        amplitude = amplitude + amplitude_increment;
                    },
                    None => {
                        proof {
                            assert((e + 1) * p == e * p + p) by (nonlinear_arith);
                        }
                    },
                }
                ls.update_with_flip_bit(flip_bit, phase_graph);
                proof {
                    assert(flips.take(e as int + 1).drop_last() =~= flips.take(e as int));
                    assert(flips.take(e as int + 1).last() == flips[e as int]);
                    assert(flip_bit as nat == flips[e as int]);
                }
            },
            None => {
                proof {
                    assert(e * p <= p * p) by (nonlinear_arith)
                        requires
                            e <= p,
                            p >= 0,
                    ;
                }
                break;
            },
        }
    }
    amplitude
}

impl CPUSmallIntSimulation {
    /// The simulation sizes.
    pub closed spec fn sizes(&self) -> SimulationParams {
        self.params
    }

    /// The bitstring to evaluate, where one was given.
    pub closed spec fn given(&self) -> Option<Seq<bool>> {
        match self.statevector {
            Some(s) => Some(s@),
            None => None,
        }
    }

    /// The sizes are those of a cube of dimension at most five, and a given
    /// bitstring has one bit per qubit.
    pub open spec fn wf(&self) -> bool {
        &&& self.sizes().boolean_cube_dimension <= 5
        &&& self.sizes().nodes == pow2(self.sizes().boolean_cube_dimension as nat)
        &&& self.sizes().n_qubits == 3 * self.sizes().nodes
        &&& (self.given() matches Some(s) ==> s.len() == self.sizes().n_qubits)
    }

    /// A simulation on a random bitstring.
    pub fn new(boolean_cube_dimension: u32) -> (r: Self)
        requires
            boolean_cube_dimension <= 5,
        ensures
            r.wf(),
            r.sizes().boolean_cube_dimension == boolean_cube_dimension,
            r.given() is None,
    {
        Self { params: SimulationParams::new(boolean_cube_dimension), statevector: None, use_symmetry_filter: false }
    }

    /// A simulation on bitstring `sv`, one bit per qubit.
    pub fn with_sv(boolean_cube_dimension: u32, sv: Bitstring) -> (r: Self)
        requires
            boolean_cube_dimension <= 5,
            sv@.len() == 3 * pow2(boolean_cube_dimension as nat),
        ensures
            r.wf(),
            r.sizes().boolean_cube_dimension == boolean_cube_dimension,
            r.given() == Some(sv@),
    {
        Self {
            params: SimulationParams::new(boolean_cube_dimension),
            statevector: Some(sv),
            use_symmetry_filter: false,
        }
    }

    /// Turns the swap-symmetry bookkeeping on or off for later runs; the
    /// amplitude is the same either way.
    pub fn set_symmetry_filter(&mut self, on: bool)
        ensures
            final(self).sizes() == old(self).sizes(),
            final(self).given() == old(self).given(),
    {
        self.use_symmetry_filter = on;
    }

    /// Evaluates the amplitude: builds the circuit's monomial tables, splits
    /// the bitstring by colour and runs `evaluate` on them, which sums, over
    /// the `2^n` red assignments in Gray-code order, `(-1)^phase * 2^(-rank)`
    /// for each step whose checks pass; the sum is divided by `2^n`. The
    /// result is exact, with denominator `2^(2n)`, and at most one in
    /// absolute value.
    pub fn run(&mut self) -> (r: Result<Amplitude, CircuitError>)
        requires
            old(self).wf(),
        ensures
            r matches Ok(a) ==> {
                &&& a.log2_denominator == 2 * old(self).sizes().nodes
                &&& -pow2(a.log2_denominator as nat) <= a.numerator <= pow2(a.log2_denominator as nat)
                &&& old(self).given() matches Some(s) ==> a.numerator == circuit_numerator(
                    old(self).sizes().boolean_cube_dimension as nat,
                    s,
                )
                &&& exists|s: Seq<bool>|
                    s.len() == old(self).sizes().n_qubits && #[trigger] circuit_numerator(
                        old(self).sizes().boolean_cube_dimension as nat,
                        s,
                    ) == a.numerator
            },
            r is Ok,
    {
        let ghost given = self.given();
        let s = match self.statevector.take() {
            Some(s) => s,
            None => generate_random_statevector(&self.params),
        };
        proof {
            lemma_pow2_strictly_increases(self.params.boolean_cube_dimension as nat, 6);
            vstd::arithmetic::power2::lemma2_to64();
        }
        let n = self.params.nodes;
        let (phase_polynomial, coloring) = match build_iqp_circuit(&self.params) {
            Ok(v) => v,
            Err(e) => return Err(e),
        };
        let QubitColoringIndexes { red, green, blue } = coloring;
        let phase_graph = phase_polynomial.into_polynomial_graph()?;
        assert forall|i: int| 0 <= i < red@.len() implies (#[trigger] red@[i] as int) < s@.len() by {}
        assert forall|i: int| 0 <= i < blue@.len() implies (#[trigger] blue@[i] as int) < s@.len() by {}
        assert forall|i: int| 0 <= i < green@.len() implies (#[trigger] green@[i] as int) < s@.len() by {}
        let s_r = select_bits(&s, &red);
        let s_b = select_bits(&s, &blue);
        let s_g = select_bits(&s, &green);
        let amplitude = evaluate(&phase_graph, n, &s_b, &s_g, &s_r, self.use_symmetry_filter);
        proof {
            let k = self.params.boolean_cube_dimension as nat;
            assert(self.params == sizes_for(k));
            let items = iqp_items(sizes_for(k));
            assert(tables_of(phase_graph, items));
            let g = choose|g: PolynomialGraph| tables_of(g, items);
            let nn = n as nat;
            assert(s_b@ =~= colour_bits(s@, nn, 1));
            assert(s_g@ =~= colour_bits(s@, nn, 2));
            assert(s_r@ =~= colour_bits(s@, nn, 0));
            lemma_walk_sum_reads_lists(g, phase_graph, s_b@, s_g@, s_r@, nn, pow2(nn));
            assert(amplitude == circuit_numerator(k, s@));
        }
        Ok(Amplitude { numerator: amplitude, log2_denominator: 2 * n })
    }
}

} // verus!
