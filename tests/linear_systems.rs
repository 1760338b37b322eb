use harvard_sim::bits::Bitstring;
use harvard_sim::gray_code::GrayCodeFlipBit;
use harvard_sim::iqp_simulations::iqp_circuit::build_iqp_circuit;
use harvard_sim::iqp_simulations::simulation_params::SimulationParams;
use harvard_sim::linear_systems::LinearSystems;

fn snapshot(ls: &LinearSystems, n: usize) -> (Vec<Vec<bool>>, Vec<bool>, Vec<bool>, Vec<bool>) {
    let gamma = (0..n).map(|r| (0..n).map(|c| ls.gamma.get(r, c)).collect()).collect();
    (gamma, ls.delta_b.to_bools(), ls.delta_g.to_bools(), ls.x_r.to_bools())
}

#[test]
fn state_returns_after_all_gray_flips() {
    for k in 1..=3u32 {
        let params = SimulationParams::new(k);
        let n = params.nodes as usize;
        let (pp, _) = build_iqp_circuit(&params).unwrap();
        let graph = pp.into_polynomial_graph().unwrap();
        let mut ls = LinearSystems::new(params.nodes, &graph);
        let start = snapshot(&ls, n);
        let mut flips = GrayCodeFlipBit::new(params.nodes);
        let mut steps = 0;
        let mut changed = false;
        while let Some(f) = flips.next() {
            ls.update_with_flip_bit(f, &graph);
            steps += 1;
            changed |= snapshot(&ls, n) != start;
        }
        assert_eq!(steps, 1 << n);
        assert!(changed);
        assert_eq!(snapshot(&ls, n), start);
    }
}

#[test]
fn seed_has_ones_exactly_at_blue_green_pairs() {
    let params = SimulationParams::new(2);
    let (pp, _) = build_iqp_circuit(&params).unwrap();
    let graph = pp.into_polynomial_graph().unwrap();
    let ls = LinearSystems::new(params.nodes, &graph);
    for b in 0..4u32 {
        for g in 0..4u32 {
            assert_eq!(ls.gamma.get(b as usize, g as usize), graph.bg_monomials.contains(&(b, g)));
        }
    }
    assert_eq!(ls.x_r.to_bools(), vec![false; 4]);
}

#[test]
fn quick_check_fails_on_odd_overlap() {
    let params = SimulationParams::new(2);
    let (pp, _) = build_iqp_circuit(&params).unwrap();
    let graph = pp.into_polynomial_graph().unwrap();
    let mut ls = LinearSystems::new(params.nodes, &graph);
    ls.x_r = Bitstring::from_bools(&vec![true, false, false, false]);
    let s_b = Bitstring::from_bools(&vec![true, false, false, false]);
    let s_g = Bitstring::zeroes(4);
    let s_r = Bitstring::zeroes(4);
    assert_eq!(ls.solve_if_gamma_null_space_quick_check(&s_b, &s_g, &s_r), None);
    assert_eq!(ls.sb_delta_b.to_bools(), vec![true, false, false, false]);
}

#[test]
fn step_weight_at_start_is_signed_power_of_two() {
    let params = SimulationParams::new(2);
    let (pp, _) = build_iqp_circuit(&params).unwrap();
    let graph = pp.into_polynomial_graph().unwrap();
    let mut ls = LinearSystems::new(params.nodes, &graph);
    let z = Bitstring::zeroes(4);
    let w = ls.solve_if_gamma_null_space_quick_check(&z, &z, &z).expect("zero system contributes");
    assert_eq!(w, 1i128 << (4 - ls.solver.rank()));
}
