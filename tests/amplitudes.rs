use harvard_sim::bits::Bitstring;
use harvard_sim::iqp_simulations::simulation_builder::{IQPSimulationBuilder, SimulationError};
use harvard_sim::iqp_simulations::small_int_simulation::{evaluate, CPUSmallIntSimulation};
use harvard_sim::iqp_simulations::iqp_circuit::build_iqp_circuit;
use harvard_sim::iqp_simulations::simulation_params::SimulationParams;
use harvard_sim::phase_polynomial::PolynomialGraph;
use indexmap::IndexMap;

fn amplitude_of(statevector: &Vec<u8>) -> f64 {
    let dimension = (statevector.len() / 3).ilog2();
    let sv = Bitstring::from_bools(&statevector.iter().map(|b| *b != 0).collect());
    let mut sim = CPUSmallIntSimulation::with_sv(dimension, sv);
    let res = sim.run().expect("simulation ran with no error");
    res.numerator as f64 / 2f64.powi(res.log2_denominator as i32)
}

fn run_amplitude_baseline(statevector: Vec<u8>, expected_amplitude: f64) {
    const TOLERANCE: f64 = 1e-8;
    let res = amplitude_of(&statevector);
    let difference = res - expected_amplitude;
    assert!(
        difference.abs() < TOLERANCE,
        "GOT: {res} | EXPECTED: {expected_amplitude}"
    );
}

#[test]
fn test_amplitudes() {
    let testcases = vec![
        (vec![1, 0, 0, 1, 0, 0, 0, 0, 0, 1, 1, 0], -0.019531249999999986),
        (vec![0, 1, 1, 0, 0, 1, 0, 1, 1, 1, 0, 0], -0.003906249999999994),
        (vec![0, 1, 0, 0, 1, 1, 0, 1, 0, 1, 0, 0], 0.011718749999999991),
        (vec![1, 1, 0, 1, 0, 1, 0, 1, 0, 0, 0, 1], 0.027343749999999983),
        (vec![0, 0, 1, 1, 0, 1, 1, 1, 1, 0, 0, 0], 0.0039062499999999952),
        (vec![0, 1, 1, 0, 0, 1, 0, 0, 1, 0, 0, 1], 0.027343749999999983),
    ];
    for (sv, expected_amplutde) in testcases {
        run_amplitude_baseline(sv, expected_amplutde)
    }
}

#[test]
fn test_amplitudes_b_3() {
    let testcases = vec![(
        vec![1, 1, 0, 0, 1, 1, 1, 0, 0, 0, 0, 0, 1, 1, 1, 0, 0, 1, 0, 0, 0, 0, 1, 1],
        -0.0001220703125,
    )];
    for (sv, expected_amplutde) in testcases {
        run_amplitude_baseline(sv, expected_amplutde)
    }
}

#[test]
fn test_amplitudes_b_4() {
    let testcases = vec![
        (
            vec![
                1, 0, 0, 1, 0, 0, 1, 1, 1, 0, 1, 0, 0, 1, 0, 0, 0, 1, 1, 0, 0, 1, 1, 1, 0, 0, 0, 1,
                1, 1, 1, 0, 0, 0, 1, 1, 0, 0, 1, 1, 1, 0, 1, 0, 0, 1, 1, 1,
            ],
            3.003_515_303_134_918e-8,
        ),
        (
            vec![
                1, 0, 1, 1, 0, 0, 0, 1, 1, 0, 1, 0, 1, 0, 0, 1, 1, 0, 0, 0, 0, 1, 1, 0, 1, 0, 1, 1,
                1, 0, 0, 0, 0, 0, 0, 0, 0, 1, 1, 1, 0, 1, 0, 0, 0, 1, 1, 0,
            ],
            1.606_531_441_211_700_4e-8,
        ),
    ];
    for (sv, expected_amplutde) in testcases {
        run_amplitude_baseline(sv, expected_amplutde)
    }
}

#[test]
fn amplitude_is_at_most_one_in_absolute_value() {
    for seed in 0u32..64 {
        let sv: Vec<u8> = (0..12).map(|i| ((seed >> (i % 6)) ^ i) as u8 & 1).collect();
        assert!(amplitude_of(&sv).abs() <= 1.0);
    }
}

#[test]
fn oversized_dimension_is_rejected() {
    let r = IQPSimulationBuilder::new(43).run_appropriate_simulation_instance();
    assert!(matches!(
        r,
        Err(SimulationError::NoAppropriateSimulation { boolean_cube_dimension: 43 })
    ));
}

#[test]
fn dimension_below_the_bound_but_too_large_is_refused() {
    let r = IQPSimulationBuilder::new(6).run_appropriate_simulation_instance();
    assert!(matches!(
        r,
        Err(SimulationError::TooLargeToSimulate { boolean_cube_dimension: 6 })
    ));
    let r = IQPSimulationBuilder::new(42).run_appropriate_simulation_instance();
    assert!(matches!(
        r,
        Err(SimulationError::TooLargeToSimulate { boolean_cube_dimension: 42 })
    ));
}

#[test]
fn random_run_of_dimension_two_succeeds() {
    let r = IQPSimulationBuilder::new(2).run_appropriate_simulation_instance();
    let outcome = r.ok().expect("dimension two runs");
    assert_eq!(outcome.statevector.len(), 12);
    assert_eq!(outcome.amplitude.log2_denominator, 8);
}

#[test]
fn evaluate_without_monomials_gives_amplitude_one() {
    let graph = PolynomialGraph {
        rbg_monomials: IndexMap::new(),
        rb_monomials: IndexMap::new(),
        rg_monomials: IndexMap::new(),
        bg_monomials: vec![],
    };
    let z = Bitstring::zeroes(1);
    assert_eq!(evaluate(&graph, 1, &z, &z, &z, false), 4);
    let z2 = Bitstring::zeroes(2);
    assert_eq!(evaluate(&graph, 2, &z2, &z2, &z2, false), 16);
    let one = Bitstring::from_bools(&vec![true, false]);
    assert_eq!(evaluate(&graph, 2, &z2, &z2, &one, true), 0);
}

#[test]
fn symmetry_filter_leaves_amplitudes_unchanged() {
    use_filter_on_seed(vec![1, 0, 0, 1, 0, 0, 0, 0, 0, 1, 1, 0]);
    use_filter_on_seed(vec![1, 1, 0, 0, 1, 1, 1, 0, 0, 0, 0, 0, 1, 1, 1, 0, 0, 1, 0, 0, 0, 0, 1, 1]);
}

fn use_filter_on_seed(statevector: Vec<u8>) {
    let dimension = (statevector.len() / 3).ilog2();
    let params = SimulationParams::new(dimension);
    let (pp, c) = build_iqp_circuit(&params).unwrap();
    let graph = pp.into_polynomial_graph().unwrap();
    let pick = |idx: &Vec<u32>| {
        Bitstring::from_bools(&idx.iter().map(|i| statevector[*i as usize] != 0).collect())
    };
    let (s_r, s_b, s_g) = (pick(&c.red), pick(&c.blue), pick(&c.green));
    let off = evaluate(&graph, params.nodes, &s_b, &s_g, &s_r, false);
    let on = evaluate(&graph, params.nodes, &s_b, &s_g, &s_r, true);
    assert_eq!(on, off);
    assert_eq!(off as f64 / 2f64.powi(2 * params.nodes as i32), amplitude_of(&statevector));
    let sv = Bitstring::from_bools(&statevector.iter().map(|b| *b != 0).collect());
    let mut sim = CPUSmallIntSimulation::with_sv(dimension, sv);
    sim.set_symmetry_filter(true);
    assert_eq!(sim.run().expect("runs").numerator, off);
}
