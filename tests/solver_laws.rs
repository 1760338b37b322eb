use harvard_sim::bits::Bitstring;
use harvard_sim::matrix::BitMatrix;
use harvard_sim::solver::SergeySolver;

struct Lcg(u64);

impl Lcg {
    fn bit(&mut self) -> bool {
        self.0 = self.0.wrapping_mul(6364136223846793005).wrapping_add(1442695040888963407);
        (self.0 >> 33) & 1 == 1
    }
}

fn random_matrix(rng: &mut Lcg, n: usize, density_shift: u32) -> Vec<Vec<bool>> {
    (0..n)
        .map(|_| {
            (0..n)
                .map(|_| (0..density_shift).all(|_| rng.bit()))
                .collect()
        })
        .collect()
}

fn to_matrix(rows: &Vec<Vec<bool>>) -> BitMatrix {
    let n = rows.len();
    let mut m = BitMatrix::zeroes(n, n);
    for (r, row) in rows.iter().enumerate() {
        for (c, v) in row.iter().enumerate() {
            m.set(r, c, *v);
        }
    }
    m
}

fn multiply(rows: &Vec<Vec<bool>>, x: &Vec<bool>) -> Vec<bool> {
    rows.iter()
        .map(|row| row.iter().zip(x).filter(|(a, b)| **a && **b).count() % 2 == 1)
        .collect()
}

fn gauss_jordan_rank(rows: &Vec<Vec<bool>>) -> usize {
    let mut m = rows.clone();
    let n = m.len();
    let mut rank = 0;
    for col in 0..n {
        if let Some(p) = (rank..n).find(|r| m[*r][col]) {
            m.swap(rank, p);
            for r in 0..n {
                if r != rank && m[r][col] {
                    let pivot = m[rank].clone();
                    for (a, b) in m[r].iter_mut().zip(pivot) {
                        *a ^= b;
                    }
                }
            }
            rank += 1;
        }
    }
    rank
}

fn all_vectors(n: usize) -> Vec<Vec<bool>> {
    (0..(1u32 << n))
        .map(|v| (0..n).map(|i| (v >> i) & 1 == 1).collect())
        .collect()
}

#[test]
fn solutions_satisfy_and_exist_exactly_when_solvable() {
    let mut rng = Lcg(7);
    for n in 1..=6usize {
        for _ in 0..40 {
            let rows = random_matrix(&mut rng, n, 1 + (n as u32 % 2));
            let m = to_matrix(&rows);
            for b in all_vectors(n) {
                let solvable = all_vectors(n).iter().any(|x| multiply(&rows, x) == b);
                let mut solver = SergeySolver::zero(n);
                let r = solver.solve(&m, &Bitstring::from_bools(&b));
                assert_eq!(r.is_some(), solvable);
                if r.is_some() {
                    assert_eq!(multiply(&rows, &solver.solution.to_bools()), b);
                }
            }
        }
    }
}

#[test]
fn rank_equals_gauss_jordan_rank() {
    let mut rng = Lcg(11);
    for n in 1..=8usize {
        for _ in 0..60 {
            let rows = random_matrix(&mut rng, n, 1 + (n as u32 % 3));
            let m = to_matrix(&rows);
            let x: Vec<bool> = (0..n).map(|_| rng.bit()).collect();
            let b = multiply(&rows, &x);
            let mut solver = SergeySolver::zero(n);
            assert!(solver.solve(&m, &Bitstring::from_bools(&b)).is_some());
            assert_eq!(solver.rank(), gauss_jordan_rank(&rows));
            assert_eq!(solver.is_full_rank(), gauss_jordan_rank(&rows) == n);
        }
    }
}

#[test]
fn codeword_test_matches_orthogonality_to_the_nullspace() {
    let mut rng = Lcg(3);
    for n in 1..=6usize {
        for _ in 0..30 {
            let rows = random_matrix(&mut rng, n, 1);
            let m = to_matrix(&rows);
            let mut solver = SergeySolver::zero(n);
            assert!(solver.solve(&m, &Bitstring::from_bools(&vec![false; n])).is_some());
            let kernel: Vec<Vec<bool>> = all_vectors(n)
                .into_iter()
                .filter(|x| multiply(&rows, x).iter().all(|b| !b))
                .collect();
            for v in all_vectors(n) {
                let orthogonal = kernel
                    .iter()
                    .all(|x| x.iter().zip(&v).filter(|(a, b)| **a && **b).count() % 2 == 0);
                assert_eq!(solver.is_nullspace_codeword(&Bitstring::from_bools(&v)), orthogonal);
            }
        }
    }
}
