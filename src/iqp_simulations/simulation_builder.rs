use vstd::prelude::*;

verus! {

use crate::iqp_simulations::simulation_params::SimulationParams;
use crate::iqp_simulations::small_int_simulation::{circuit_numerator, Amplitude, CPUSmallIntSimulation};
use crate::iqp_simulations::statevector::generate_random_statevector;

/// Why no amplitude was computed.
#[derive(Debug, Clone, Copy, PartialEq, Eq, Structural)]
pub enum SimulationError {
    /// No implementation handles a hypercube of this dimension (`3k >= 128`).
    NoAppropriateSimulation { boolean_cube_dimension: u32 },
    /// The dimension is below that bound but above `MAX_SIMULATED_DIMENSION`:
    /// its `2^(2^k)` steps and its exact numerator are out of reach.
    TooLargeToSimulate { boolean_cube_dimension: u32 },
}

/// A bitstring and the amplitude computed for it.
pub struct SimulationOutcome {
    pub statevector: Vec<bool>,
    pub amplitude: Amplitude,
}

/// The largest hypercube dimension whose `2^(2^k)` red assignments the
/// evaluator walks through.
pub const MAX_SIMULATED_DIMENSION: u32 = 5;

/// Picks the simulation for a hypercube dimension and runs it.
pub struct IQPSimulationBuilder {
    boolean_cube_dimension: u32,
}

impl IQPSimulationBuilder {
    /// The dimension asked for.
    pub closed spec fn dimension(&self) -> u32 {
        self.boolean_cube_dimension
    }

    /// A builder for a hypercube of dimension `boolean_cube_dimension`.
    pub fn new(boolean_cube_dimension: u32) -> (r: Self)
        ensures
            r.dimension() == boolean_cube_dimension,
    {
        Self { boolean_cube_dimension }
    }

    /// Evaluates the amplitude of a random bitstring. Dimensions `k` with
    /// `3k >= 128` have no implementation; the others above
    /// `MAX_SIMULATED_DIMENSION` are too large to walk through.
    pub fn run_appropriate_simulation_instance(self) -> (r: Result<SimulationOutcome, SimulationError>)
        ensures
            3 * self.dimension() >= 128 <==> r == Err::<SimulationOutcome, SimulationError>(
                SimulationError::NoAppropriateSimulation { boolean_cube_dimension: self.dimension() },
            ),
            (3 * self.dimension() < 128 && self.dimension() > MAX_SIMULATED_DIMENSION) <==> r == Err::<
                SimulationOutcome,
                SimulationError,
            >(SimulationError::TooLargeToSimulate { boolean_cube_dimension: self.dimension() }),
            self.dimension() <= MAX_SIMULATED_DIMENSION ==> r is Ok,
            r matches Ok(o) ==> {
                &&& o.statevector@.len() == 3 * vstd::arithmetic::power2::pow2(self.dimension() as nat)
                &&& o.amplitude.log2_denominator == 2 * vstd::arithmetic::power2::pow2(self.dimension() as nat)
                &&& o.amplitude.numerator == circuit_numerator(self.dimension() as nat, o.statevector@)
                &&& -vstd::arithmetic::power2::pow2(o.amplitude.log2_denominator as nat) <= o.amplitude.numerator
                    <= vstd::arithmetic::power2::pow2(o.amplitude.log2_denominator as nat)
            },
    {
        let k = self.boolean_cube_dimension;
        if (k as u64) * 3 >= 128 {
            return Err(SimulationError::NoAppropriateSimulation { boolean_cube_dimension: k });
        }
        if k > MAX_SIMULATED_DIMENSION {
            return Err(SimulationError::TooLargeToSimulate { boolean_cube_dimension: k });
        }
        let params = SimulationParams::new(k);
        let sv = generate_random_statevector(&params);
        let statevector = sv.to_bools();
        let mut simulation = CPUSmallIntSimulation::with_sv(k, sv);
        match simulation.run() {
            Ok(amplitude) => Ok(SimulationOutcome { statevector, amplitude }),
            Err(_) => unreached(),
        }
    }
}

} // verus!
