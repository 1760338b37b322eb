pub mod simulation_params;
pub mod iqp_circuit;
pub mod small_int_simulation;
pub mod statevector;
pub mod simulation_builder;
pub mod swap_check;
