use harvard_sim::bits::Bitstring;
use harvard_sim::matrix::{is_in_nullspace, BitMatrix};
use harvard_sim::solver::SergeySolver;

fn bits(v: &[u8]) -> Bitstring {
    Bitstring::from_bools(&v.iter().map(|b| *b != 0).collect())
}

fn matrix_of(mat_rows: &Vec<Vec<usize>>) -> BitMatrix {
    let mut matrix = BitMatrix::zeroes(4, 4);
    for (ridx, r) in mat_rows.iter().enumerate() {
        for cidx in r {
            matrix.set(ridx, *cidx, true)
        }
    }
    matrix
}

fn multiply(matrix: &BitMatrix, x: &Vec<bool>) -> Vec<bool> {
    (0..4)
        .map(|r| (0..4).filter(|c| matrix.get(r, *c) && x[*c]).count() % 2 == 1)
        .collect()
}

fn four_by_four_system(mat_rows: Vec<Vec<usize>>, b: Bitstring, x: Bitstring) {
    let matrix = matrix_of(&mat_rows);
    let mut solver = SergeySolver::zero(4);
    solver.solve(&matrix, &b).unwrap();
    assert_eq!(solver.solution.to_bools(), x.to_bools());
}

fn four_by_four_system_failure(mat_rows: Vec<Vec<usize>>, b: Bitstring) {
    let matrix = matrix_of(&mat_rows);
    let mut solver = SergeySolver::zero(4);
    assert!(solver.solve(&matrix, &b).is_none());
}

fn nullspace_check(
    mat_rows: Vec<Vec<usize>>,
    b: Bitstring,
    x: Bitstring,
    codeword: Bitstring,
    expect_syndrome: bool,
) {
    let matrix = matrix_of(&mat_rows);
    let mut solver = SergeySolver::zero(4);
    solver.solve(&matrix, &b).unwrap();
    assert_eq!(solver.solution.to_bools(), x.to_bools(), "solution mismatch");
    assert_eq!(
        solver.is_nullspace_codeword(&codeword),
        expect_syndrome,
        "codeword expectation mismatch"
    );
}

#[test]
fn test_flip_code_0() {
    four_by_four_system(
        vec![vec![1], vec![0, 1], vec![2, 3], vec![2]],
        bits(&[1, 1, 1, 1]),
        bits(&[0, 1, 1, 0]),
    )
}

#[test]
fn sergey_solver_test_input_3() {
    four_by_four_system(
        vec![vec![0, 1], vec![0, 1, 3], vec![3], vec![1, 2, 3]],
        bits(&[1, 1, 0, 1]),
        bits(&[1, 0, 1, 0]),
    )
}

#[test]
fn test_nullspace_zerovec() {
    nullspace_check(
        vec![vec![0], vec![], vec![], vec![3]],
        bits(&[0, 0, 0, 0]),
        bits(&[0, 1, 0, 0]),
        bits(&[0, 1, 1, 0]),
        false,
    )
}

#[test]
fn test_nullspace_nonzerovec() {
    nullspace_check(
        vec![vec![1, 2], vec![0, 3], vec![0, 3], vec![1, 2]],
        bits(&[1, 0, 0, 1]),
        bits(&[0, 1, 0, 0]),
        bits(&[0, 1, 1, 0]),
        true,
    )
}

#[test]
fn test_negative_case() {
    four_by_four_system_failure(vec![vec![0], vec![], vec![], vec![3]], bits(&[1, 1, 1, 0]))
}

#[test]
fn solution_of_first_scenario_satisfies_the_system() {
    let matrix = matrix_of(&vec![vec![1, 3], vec![0, 1], vec![], vec![0, 3]]);
    let b = bits(&[1, 1, 0, 0]);
    let mut solver = SergeySolver::zero(4);
    solver.solve(&matrix, &b).unwrap();
    let x = solver.solution.to_bools();
    assert_eq!(multiply(&matrix, &x), b.to_bools());
    let candidate = vec![false, true, false, false];
    assert_eq!(multiply(&matrix, &candidate), b.to_bools());
}

#[test]
fn zero_right_hand_side_on_a_diagonal_matrix_has_a_solution() {
    let matrix = matrix_of(&vec![vec![0], vec![], vec![], vec![3]]);
    let mut solver = SergeySolver::zero(4);
    assert!(solver.solve(&matrix, &bits(&[0, 0, 0, 0])).is_some());
    assert_eq!(multiply(&matrix, &solver.solution.to_bools()), vec![false; 4]);
    assert!(!solver.is_nullspace_codeword(&bits(&[0, 1, 1, 0])));
    assert_eq!(solver.rank(), 2);
}

#[test]
fn full_rank_zero_right_hand_side_gives_zero() {
    let matrix = matrix_of(&vec![vec![0], vec![1], vec![2], vec![3]]);
    let mut solver = SergeySolver::zero(4);
    assert!(solver.solve(&matrix, &bits(&[0, 0, 0, 0])).is_some());
    assert_eq!(solver.solution.to_bools(), vec![false; 4]);
    assert!(solver.is_full_rank());
    assert_eq!(solver.rank(), 4);
}

#[test]
fn full_rank_system_has_its_unique_solution() {
    let matrix = matrix_of(&vec![vec![0, 1], vec![1], vec![2, 3], vec![3]]);
    let b = bits(&[1, 0, 0, 1]);
    let mut solver = SergeySolver::zero(4);
    assert!(solver.solve(&matrix, &b).is_some());
    assert_eq!(solver.solution.to_bools(), vec![true, false, true, true]);
    assert_eq!(solver.rank(), 4);
}

#[test]
fn rank_matches_elimination_on_scenarios() {
    let cases: Vec<(Vec<Vec<usize>>, [u8; 4], usize)> = vec![
        (vec![vec![1, 3], vec![0, 1], vec![], vec![0, 3]], [1, 1, 0, 0], 2),
        (vec![vec![1, 2], vec![0, 3], vec![0, 3], vec![1, 2]], [1, 0, 0, 1], 2),
        (vec![vec![0], vec![], vec![], vec![3]], [0, 0, 0, 0], 2),
    ];
    for (rows, b, rank) in cases {
        let matrix = matrix_of(&rows);
        let mut solver = SergeySolver::zero(4);
        assert!(solver.solve(&matrix, &bits(&b)).is_some());
        assert_eq!(solver.rank(), rank);
    }
}

#[test]
fn bitstring_operations() {
    let mut a = bits(&[1, 0, 1, 1]);
    let b = bits(&[1, 1, 0, 1]);
    assert_eq!(a.and_parity(&b, 4), false);
    assert_eq!(a.and_parity(&b, 3), true);
    a.xor_with(&b);
    assert_eq!(a.to_bools(), vec![false, true, true, false]);
    assert_eq!(a.first_one(), Some(1));
    a.flip(1);
    assert_eq!(a.get(1), false);
    a.clear();
    assert_eq!(a.first_one(), None);
    assert_eq!(a.len(), 4);
}

#[test]
fn product_with_zero_result_is_not_the_codeword_test() {

    let matrix = matrix_of(&vec![vec![0], vec![], vec![], vec![3]]);
    let v = bits(&[0, 1, 1, 0]);
    assert!(is_in_nullspace(&matrix, &v));
    assert!(!is_in_nullspace(&matrix, &bits(&[1, 0, 0, 0])));
    let mut solver = SergeySolver::zero(4);
    solver.solve(&matrix, &bits(&[0, 0, 0, 0])).unwrap();
    assert!(!solver.is_nullspace_codeword(&v));
}
