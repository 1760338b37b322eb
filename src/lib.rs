//! Evaluates one amplitude `<s|U|0...0>` of an IQP circuit on a three-coloured
//! boolean hypercube, as a sum over the assignments to the red qubits walked in
//! Gray-code order. Each step patches a linear system over GF(2) in place and
//! solves it by column-space elimination.
pub mod bits;
pub mod column_matrix;
pub mod gray_code;
pub mod iqp_simulations;
pub mod linear_systems;
pub mod matrix;
pub mod phase_polynomial;
pub mod qubit;
pub mod solver;
pub mod span;
