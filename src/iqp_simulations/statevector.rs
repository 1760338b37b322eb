use vstd::prelude::*;

verus! {

use crate::bits::Bitstring;
use crate::iqp_simulations::simulation_params::SimulationParams;

/// Relies on `rand::random::<bool>`: a bit drawn from the thread-local
/// generator; nothing is known of its value.
#[verifier::external_body]
fn random_bit() -> bool {
    rand::random::<bool>()
}

/// A computational-basis bitstring over the circuit's qubits, drawn at random.
pub fn generate_random_statevector(params: &SimulationParams) -> (r: Bitstring)
    ensures
        r@.len() == params.n_qubits,
{
    let n = params.n_qubits as usize;
    let mut bv = Bitstring::zeroes(n);
    let mut i: usize = 0;
    while i < n
        invariant
            i <= n,
            bv@.len() == n,
        decreases n - i,
    {
        let b = random_bit();
        bv.set(i, b);
        i = i + 1;
    }
    bv
}

} // verus!
