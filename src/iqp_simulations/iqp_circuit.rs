use vstd::prelude::*;

verus! {

use vstd::arithmetic::power2::pow2;
use crate::iqp_simulations::simulation_params::SimulationParams;
use crate::phase_polynomial::{
    cnot_images, code_of, compare_swap, sort3, toggle_code, toggle_codes, CircuitError, PhasePolynomial,
};
use crate::qubit::{color_of, Color, Qubit};

/// The qubits of a circuit split by colour, each list in increasing index
/// order.
pub struct QubitColoring {
    pub red: Vec<Qubit>,
    pub blue: Vec<Qubit>,
    pub green: Vec<Qubit>,
}

/// The qubit indices of a circuit split by colour.
pub struct QubitColoringIndexes {
    pub red: Vec<u32>,
    pub blue: Vec<u32>,
    pub green: Vec<u32>,
}

/// Whether the popcount of `x` is odd.
pub open spec fn odd_popcount(x: nat) -> bool
    decreases x,
{
    if x == 0 {
        false
    } else {
        (x % 2 == 1) != odd_popcount(x / 2)
    }
}

fn has_odd_popcount(x: u32) -> (r: bool)
    ensures
        r == odd_popcount(x as nat),
{
    let mut m = x;
    let mut acc = false;
    while m > 0
        invariant
            odd_popcount(x as nat) == (acc != odd_popcount(m as nat)),
        decreases m,
    {
        acc = acc != (m % 2 == 1);
        m = m / 2;
    }
    acc
}

impl QubitColoring {
    /// Node `i` of the coloring holds qubits `3i` (red), `3i + 1` (blue) and
    /// `3i + 2` (green).
    pub open spec fn is_coloring_of(&self, nodes: nat) -> bool {
        &&& self.red@.len() == nodes
        &&& self.blue@.len() == nodes
        &&& self.green@.len() == nodes
        &&& forall|i: int| 0 <= i < nodes ==> #[trigger] self.red@[i] == Qubit { index: (3 * i) as u32, color: Color::Red }
        &&& forall|i: int| 0 <= i < nodes ==> #[trigger] self.blue@[i] == Qubit { index: (3 * i + 1) as u32, color: Color::Blue }
        &&& forall|i: int| 0 <= i < nodes ==> #[trigger] self.green@[i] == Qubit { index: (3 * i + 2) as u32, color: Color::Green }
    }

    /// The qubits `0 .. n_qubits` split by colour; `n_qubits` is a multiple of three.
    pub fn new_for_n_qubits(n_qubits: u32) -> (r: Self)
        requires
            n_qubits % 3 == 0,
        ensures
            r.is_coloring_of((n_qubits / 3) as nat),
    {
        let mut coloring = Self { red: vec![], blue: vec![], green: vec![] };
        let mut i: u32 = 0;
        while i < n_qubits
            invariant
                i <= n_qubits,
                n_qubits % 3 == 0,
                i % 3 == 0,
                coloring.is_coloring_of((i / 3) as nat),
            decreases n_qubits - i,
        {
            let ghost prev = coloring;
            let mut j: u32 = 0;
            while j < 3
                invariant
                    j <= 3,
                    i + 3 <= n_qubits,
                    i % 3 == 0,
                    coloring.red@ == if j > 0 { prev.red@.push(Qubit { index: i, color: Color::Red }) } else { prev.red@ },
                    coloring.blue@ == if j > 1 { prev.blue@.push(Qubit { index: (i + 1) as u32, color: Color::Blue }) } else { prev.blue@ },
                    coloring.green@ == if j > 2 { prev.green@.push(Qubit { index: (i + 2) as u32, color: Color::Green }) } else { prev.green@ },
                decreases 3 - j,
            {
                let qubit = Qubit::new(i + j);
                match qubit.color {
                    Color::Red => coloring.red.push(qubit),
                    Color::Blue => coloring.blue.push(qubit),
                    Color::Green => coloring.green.push(qubit),
                }
                j = j + 1;
            }
            i = i + 3;
        }
        coloring
    }

    /// The indices of the qubits, split by colour as they are.
    pub fn into_indexes(self) -> (r: QubitColoringIndexes)
        ensures
            r.red@ == self.red@.map_values(|q: Qubit| q.index),
            r.blue@ == self.blue@.map_values(|q: Qubit| q.index),
            r.green@ == self.green@.map_values(|q: Qubit| q.index),
    {
        QubitColoringIndexes {
            red: Self::indexes_of(&self.red),
            green: Self::indexes_of(&self.green),
            blue: Self::indexes_of(&self.blue),
        }
    }

    fn indexes_of(qs: &Vec<Qubit>) -> (r: Vec<u32>)
        ensures
            r@ == qs@.map_values(|q: Qubit| q.index),
    {
        let mut r: Vec<u32> = Vec::new();
        let mut i: usize = 0;
        while i < qs.len()
            invariant
                i <= qs@.len(),
                r@ == qs@.take(i as int).map_values(|q: Qubit| q.index),
            decreases qs@.len() - i,
        {
            r.push(qs[i].index);
            i = i + 1;
            assert(r@ =~= qs@.take(i as int).map_values(|q: Qubit| q.index));
        }
        assert(qs@.take(qs@.len() as int) =~= qs@);
        r
    }
}

/// The node across direction `direction` of the hypercube from node `x`.
fn neighbour(x: u32, direction: u32, k: u32) -> (y: u32)
    requires
        direction < k,
        k <= 30,
        x < pow2(k as nat),
    ensures
        y == x ^ (1u32 << direction),
        y < pow2(k as nat),
        y != x,
{
    proof {
        vstd::bits::lemma_u32_pow2_no_overflow(k as nat);
        vstd::bits::lemma_u32_shl_is_mul(1, k);
        assert(x < (1u32 << k) && direction < k && k < 32 ==> (x ^ (1u32 << direction)) < (1u32 << k) && (x
            ^ (1u32 << direction)) != x) by (bit_vector);
    }
    x ^ (1u32 << direction)
}

/// The qubits of node `i`, red, blue and green.
pub open spec fn red_qubit(i: int) -> Qubit {
    Qubit { index: (3 * i) as u32, color: Color::Red }
}

pub open spec fn blue_qubit(i: int) -> Qubit {
    Qubit { index: (3 * i + 1) as u32, color: Color::Blue }
}

pub open spec fn green_qubit(i: int) -> Qubit {
    Qubit { index: (3 * i + 2) as u32, color: Color::Green }
}

/// The monomials after a CZ gate on `a` and `b`.
pub open spec fn after_cz(items: Seq<(u32, u32, u32)>, a: Qubit, b: Qubit) -> Seq<(u32, u32, u32)> {
    toggle_code(items, code_of(compare_swap(seq![a, b], 0, 1)))
}

/// The monomials after a rectangle on node `i`: a CCZ on its three qubits
/// and CZs on red-blue, blue-green and, with `with_rg`, red-green.
pub open spec fn after_rectangle(items: Seq<(u32, u32, u32)>, i: int, with_rg: bool) -> Seq<(u32, u32, u32)> {
    let t1 = toggle_code(items, code_of(sort3(seq![red_qubit(i), blue_qubit(i), green_qubit(i)])));
    let t2 = after_cz(t1, red_qubit(i), blue_qubit(i));
    let t3 = after_cz(t2, blue_qubit(i), green_qubit(i));
    if with_rg {
        after_cz(t3, red_qubit(i), green_qubit(i))
    } else {
        t3
    }
}

/// The monomials after rectangles on nodes `0 .. count`, in order.
pub open spec fn after_rectangles(items: Seq<(u32, u32, u32)>, count: nat, with_rg: bool) -> Seq<(u32, u32, u32)>
    decreases count,
{
    if count == 0 {
        items
    } else {
        after_rectangle(after_rectangles(items, (count - 1) as nat, with_rg), count - 1, with_rg)
    }
}

/// The monomials after a CNOT from `c` to `t`.
pub open spec fn after_cnot(items: Seq<(u32, u32, u32)>, c: Qubit, t: Qubit) -> Seq<(u32, u32, u32)> {
    toggle_codes(items, cnot_images(items, t, c))
}

/// The monomials after the CNOTs of node `x` along `direction`: where `x` has
/// even popcount, from each of its qubits to the same-coloured qubit of its
/// neighbour.
pub open spec fn after_node_cnots(items: Seq<(u32, u32, u32)>, direction: u32, x: u32) -> Seq<(u32, u32, u32)> {
    if odd_popcount(x as nat) {
        items
    } else {
        let y = x ^ (1u32 << direction);
        let a = after_cnot(items, red_qubit(x as int), red_qubit(y as int));
        let b = after_cnot(a, blue_qubit(x as int), blue_qubit(y as int));
        after_cnot(b, green_qubit(x as int), green_qubit(y as int))
    }
}

/// The monomials after the CNOTs of nodes `0 .. count` along `direction`.
pub open spec fn after_cnots(items: Seq<(u32, u32, u32)>, direction: u32, count: nat) -> Seq<(u32, u32, u32)>
    decreases count,
{
    if count == 0 {
        items
    } else {
        after_node_cnots(after_cnots(items, direction, (count - 1) as nat), direction, (count - 1) as u32)
    }
}

/// The monomials after the layers of directions `0 .. d` on `nodes` nodes:
/// for each, its CNOTs and then a layer of rectangles whose red-green CZ is
/// there in odd directions only.
pub open spec fn after_directions(items: Seq<(u32, u32, u32)>, nodes: nat, d: nat) -> Seq<(u32, u32, u32)>
    decreases d,
{
    if d == 0 {
        items
    } else {
        let before = after_directions(items, nodes, (d - 1) as nat);
        after_rectangles(after_cnots(before, (d - 1) as u32, nodes), nodes, (d - 1) % 2 != 0)
    }
}

/// The monomials of the IQP circuit of `params`, in insertion order.
pub open spec fn iqp_items(params: SimulationParams) -> Seq<(u32, u32, u32)> {
    after_directions(
        after_rectangles(Seq::empty(), params.nodes as nat, true),
        params.nodes as nat,
        params.boolean_cube_dimension as nat,
    )
}

/// The IQP circuit on the boolean hypercube of dimension `k`, as a phase
/// polynomial, with its qubits split by colour. A first layer of
/// "A-rectangles" (a CCZ and three CZs on each node's three qubits) is
/// followed, for each direction of the cube, by CNOTs from each node of even
/// popcount to its neighbour across that direction on all three colours,
/// and a layer of rectangles whose red-green CZ is there in odd directions
/// only.
pub fn build_iqp_circuit(params: &SimulationParams) -> (r: Result<(PhasePolynomial, QubitColoringIndexes), CircuitError>)
    requires
        params.boolean_cube_dimension <= 30,
        params.nodes == pow2(params.boolean_cube_dimension as nat),
        params.n_qubits == 3 * params.nodes,
    ensures
        r is Ok,
        r matches Ok((pp, c)) ==> {
            &&& pp.items() == iqp_items(*params)
            &&& pp.wf()
            &&& pp.qubit_count() == params.n_qubits
            &&& c.red@.len() == params.nodes
            &&& c.blue@.len() == params.nodes
            &&& c.green@.len() == params.nodes
            &&& forall|i: int| 0 <= i < params.nodes ==> #[trigger] c.red@[i] == 3 * i
            &&& forall|i: int| 0 <= i < params.nodes ==> #[trigger] c.blue@[i] == 3 * i + 1
            &&& forall|i: int| 0 <= i < params.nodes ==> #[trigger] c.green@[i] == 3 * i + 2
        },
{
    proof {
        vstd::arithmetic::power2::lemma_pow2_strictly_increases(params.boolean_cube_dimension as nat, 31);
        vstd::arithmetic::power2::lemma2_to64();
    }
    let nodes = params.nodes;
    let c = QubitColoring::new_for_n_qubits(params.n_qubits);
    assert((params.n_qubits / 3) as nat == nodes);
    let mut pp = PhasePolynomial::new(params);
    // apply the initial layer of "A-rectangles"
    let mut i: u32 = 0;
    while i < nodes
        invariant
            i <= nodes,
            nodes == params.nodes,
            params.n_qubits == 3 * nodes,
            nodes <= 0x4000_0000,
            c.is_coloring_of(nodes as nat),
            pp.wf(),
            pp.qubit_count() == params.n_qubits,
            pp.items() == after_rectangles(Seq::empty(), i as nat, true),
        decreases nodes - i,
    {
        let ix = i as usize;
        pp.ccz(c.red[ix], c.blue[ix], c.green[ix])?;
        pp.cz(c.red[ix], c.blue[ix])?;
        pp.cz(c.blue[ix], c.green[ix])?;
        pp.cz(c.red[ix], c.green[ix])?;
        // Pauli Z gates are left out: a Pauli frame absorbs them
        i = i + 1;
    }
    let ghost first = pp.items();
    let mut direction: u32 = 0;
    while direction < params.boolean_cube_dimension
        invariant
            first == after_rectangles(Seq::empty(), nodes as nat, true),
            pp.items() == after_directions(first, nodes as nat, direction as nat),
            direction <= params.boolean_cube_dimension,
            params.boolean_cube_dimension <= 30,
            nodes == params.nodes,
            nodes == pow2(params.boolean_cube_dimension as nat),
            params.n_qubits == 3 * nodes,
            nodes <= 0x4000_0000,
            c.is_coloring_of(nodes as nat),
            pp.wf(),
            pp.qubit_count() == params.n_qubits,
        decreases params.boolean_cube_dimension - direction,
    {
        // CNOTs along this direction: nodes of even popcount control
        let ghost before = pp.items();
        let mut x: u32 = 0;
        while x < nodes
            invariant
                pp.items() == after_cnots(before, direction, x as nat),
                x <= nodes,
                direction < params.boolean_cube_dimension,
                params.boolean_cube_dimension <= 30,
                nodes == params.nodes,
                nodes == pow2(params.boolean_cube_dimension as nat),
                params.n_qubits == 3 * nodes,
                nodes <= 0x4000_0000,
                c.is_coloring_of(nodes as nat),
                pp.wf(),
                pp.qubit_count() == params.n_qubits,
            decreases nodes - x,
        {
            if !has_odd_popcount(x) {
                let y = neighbour(x, direction, params.boolean_cube_dimension);
                let (xi, yi) = (x as usize, y as usize);
                pp.cnot(c.red[xi], c.red[yi])?;
                pp.cnot(c.blue[xi], c.blue[yi])?;
                pp.cnot(c.green[xi], c.green[yi])?;
            }
            x = x + 1;
        }
        // alternate between layers of A and B rectangles
        let ghost crossed = pp.items();
        let mut i: u32 = 0;
        while i < nodes
            invariant
                pp.items() == after_rectangles(crossed, i as nat, direction % 2 != 0),
                i <= nodes,
                nodes == params.nodes,
                params.n_qubits == 3 * nodes,
                nodes <= 0x4000_0000,
                c.is_coloring_of(nodes as nat),
                pp.wf(),
                pp.qubit_count() == params.n_qubits,
            decreases nodes - i,
        {
            let ix = i as usize;
            pp.ccz(c.red[ix], c.blue[ix], c.green[ix])?;
            pp.cz(c.red[ix], c.blue[ix])?;
            pp.cz(c.blue[ix], c.green[ix])?;
            if direction % 2 != 0 {
                pp.cz(c.red[ix], c.green[ix])?;
            }
            i = i + 1;
        }
        direction = direction + 1;
    }
    let ghost cc = c;
    let idx = c.into_indexes();
    proof {
        assert forall|i: int| 0 <= i < nodes implies #[trigger] idx.red@[i] == 3 * i by {
            assert(cc.red@[i].index == 3 * i);
        }
        assert forall|i: int| 0 <= i < nodes implies #[trigger] idx.blue@[i] == 3 * i + 1 by {
            assert(cc.blue@[i].index == 3 * i + 1);
        }
        assert forall|i: int| 0 <= i < nodes implies #[trigger] idx.green@[i] == 3 * i + 2 by {
            assert(cc.green@[i].index == 3 * i + 2);
        }
    }
    Ok((pp, idx))
}

} // verus!
