use harvard_sim::iqp_simulations::iqp_circuit::build_iqp_circuit;
use harvard_sim::iqp_simulations::simulation_params::SimulationParams;
use harvard_sim::phase_polynomial::{CircuitError, PhasePolynomial};
use harvard_sim::qubit::{Color, Qubit};
use indexmap::IndexMap;

#[test]
fn test_phase_graph() {
    let params = SimulationParams::new(2);
    let mut pp = PhasePolynomial::new(&params);
    pp.ccz(Qubit::new(0), Qubit::new(5), Qubit::new(10)).unwrap();
    let pg = pp.into_polynomial_graph().unwrap();
    assert_eq!(
        pg.rbg_monomials,
        IndexMap::<u32, Vec<(u32, u32)>>::from_iter(vec![(0, vec![(3, 1)])])
    )
}

#[test]
fn test_iqp_construction() {
    let params = SimulationParams::new(2);
    let (pp, c) = build_iqp_circuit(&params).unwrap();
    let pg = pp.into_polynomial_graph().unwrap();
    assert_eq!(c.red, vec![0, 3, 6, 9]);
    assert_eq!(c.blue, vec![1, 4, 7, 10]);
    assert_eq!(c.green, vec![2, 5, 8, 11]);
    assert_eq!(
        pg.rbg_monomials,
        IndexMap::<u32, Vec<(u32, u32)>>::from_iter(vec![
            (0, vec![(1, 1), (0, 1), (1, 0), (3, 2), (2, 3), (3, 1), (1, 3)]),
            (1, vec![(0, 1), (1, 0), (0, 0), (3, 0), (0, 3), (1, 1)]),
            (2, vec![(3, 2), (2, 3), (3, 3), (0, 3), (3, 0), (2, 2)]),
            (3, vec![(2, 2), (3, 2), (2, 3), (0, 2), (2, 0), (0, 1), (1, 0)])
        ])
    );
    assert_eq!(
        pg.rg_monomials,
        IndexMap::<u32, Vec<u32>>::from_iter(vec![
            (0, vec![1, 2]),
            (1, vec![0, 3]),
            (2, vec![3, 0]),
            (3, vec![2, 1]),
        ])
    );
    assert_eq!(
        pg.rb_monomials,
        IndexMap::<u32, Vec<u32>>::from_iter(vec![
            (0, vec![1]),
            (1, vec![0, 1]),
            (3, vec![2]),
            (2, vec![3, 2]),
        ])
    );
    assert_eq!(
        pg.bg_monomials,
        vec![(0, 1), (1, 0), (3, 2), (2, 3), (1, 1), (2, 2)]
    );
}

#[test]
fn gate_errors() {
    let params = SimulationParams::new(2);
    let mut pp = PhasePolynomial::new(&params);
    assert_eq!(pp.ccz(Qubit::new(0), Qubit::new(3), Qubit::new(2)), Err(CircuitError::CczColorsNotDistinct));
    assert_eq!(pp.cz(Qubit::new(1), Qubit::new(4)), Err(CircuitError::CzSameColor));
    assert_eq!(pp.cnot(Qubit::new(2), Qubit::new(2)), Err(CircuitError::CnotSameQubit));
    assert_eq!(pp.cnot(Qubit::new(2), Qubit::new(3)), Err(CircuitError::CnotColorMismatch));
    assert!(pp.cz(Qubit::new(1), Qubit::new(2)).is_ok());
}

#[test]
fn cz_twice_cancels() {
    let params = SimulationParams::new(2);
    let mut pp = PhasePolynomial::new(&params);
    pp.cz(Qubit::new(0), Qubit::new(1)).unwrap();
    pp.cz(Qubit::new(1), Qubit::new(0)).unwrap();
    let pg = pp.into_polynomial_graph().unwrap();
    assert!(pg.rb_monomials.is_empty());
}

#[test]
fn cnot_moves_monomials_onto_the_control() {
    let params = SimulationParams::new(2);
    let mut pp = PhasePolynomial::new(&params);
    pp.cz(Qubit::new(3), Qubit::new(4)).unwrap();
    pp.cnot(Qubit::new(0), Qubit::new(3)).unwrap();
    let pg = pp.into_polynomial_graph().unwrap();
    assert_eq!(
        pg.rb_monomials,
        IndexMap::<u32, Vec<u32>>::from_iter(vec![(1, vec![1]), (0, vec![1])])
    );
}

#[test]
fn qubit_colors_cycle() {
    assert_eq!(Qubit::new(0).color, Color::Red);
    assert_eq!(Qubit::new(4).color, Color::Blue);
    assert_eq!(Qubit::new(8).color, Color::Green);
    let p = SimulationParams::new(3);
    assert_eq!((p.nodes, p.n_qubits), (8, 24));
}
