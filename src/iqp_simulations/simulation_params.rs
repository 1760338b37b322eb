use vstd::prelude::*;

verus! {

/// The sizes of a circuit on a boolean hypercube of a given dimension `k`:
/// `2^k` nodes, each carrying one qubit of each of the three colours.
pub struct SimulationParams {
    pub boolean_cube_dimension: u32,
    pub nodes: u32,
    pub n_qubits: u32,
}

impl SimulationParams {
    /// The sizes for a hypercube of dimension `boolean_cube_dimension`.
    pub fn new(boolean_cube_dimension: u32) -> (r: Self)
        requires
            boolean_cube_dimension <= 30,
        ensures
            r.boolean_cube_dimension == boolean_cube_dimension,
            r.nodes == vstd::arithmetic::power2::pow2(boolean_cube_dimension as nat),
            r.n_qubits == 3 * r.nodes,
    {
        proof {
            vstd::bits::lemma_u32_pow2_no_overflow(boolean_cube_dimension as nat);
            vstd::bits::lemma_u32_shl_is_mul(1, boolean_cube_dimension);
            vstd::arithmetic::power2::lemma_pow2_strictly_increases(boolean_cube_dimension as nat, 31);
            vstd::arithmetic::power2::lemma2_to64();
        }
        let nodes: u32 = 1u32 << boolean_cube_dimension;
        let n_qubits = 3 * nodes;
        Self { boolean_cube_dimension, nodes, n_qubits }
    }
}

} // verus!
