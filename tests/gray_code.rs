use harvard_sim::gray_code::GrayCodeFlipBit;

fn collect_flips(n: u32) -> Vec<u32> {
    let mut flip_bits = GrayCodeFlipBit::new(n);
    let mut out = Vec::new();
    while let Some(f) = flip_bits.next() {
        out.push(f);
    }
    out
}

#[test]
fn test_flip_bits() {
    let flip_bits_list: Vec<u32> = collect_flips(4);
    assert_eq!(
        flip_bits_list,
        vec![0, 1, 0, 2, 0, 1, 0, 3, 0, 1, 0, 2, 0, 1, 0, 3]
    )
}

#[test]
fn flips_stay_below_width_and_number_two_to_the_width() {
    for n in 1..=10u32 {
        let flips = collect_flips(n);
        assert_eq!(flips.len(), 1usize << n);
        assert!(flips.iter().all(|f| *f < n));
    }
}

#[test]
fn every_bit_flips_an_even_number_of_times() {
    for n in 1..=10u32 {
        let flips = collect_flips(n);
        let mut x = vec![false; n as usize];
        for f in flips {
            x[f as usize] = !x[f as usize];
        }
        assert!(x.iter().all(|b| !b));
    }
}

#[test]
fn width_one_flips_bit_zero_twice() {
    assert_eq!(collect_flips(1), vec![0, 0]);
}

#[test]
fn exhausted_enumerator_stays_exhausted() {
    let mut it = GrayCodeFlipBit::new(2);
    for _ in 0..4 {
        assert!(it.next().is_some());
    }
    assert_eq!(it.next(), None);
    assert_eq!(it.next(), None);
}
