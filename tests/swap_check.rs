use std::collections::BTreeSet;

use harvard_sim::iqp_simulations::swap_check::SwapSymmetries;

fn test_symmetries(symmetry_group: Vec<u16>) {
    let all_symmetries = BTreeSet::from_iter(symmetry_group.iter());
    for symmetry in symmetry_group.iter() {
        let mut ss = SwapSymmetries::new();
        let mut other_symmetries = all_symmetries.clone();
        other_symmetries.remove(&symmetry);
        for _ in 0..*symmetry {
            ss.increment_bit(None);
        }
        ss.check_for_symmetries().expect("to have symmetries");
        let mut ss_symmetries_without_self = ss.symmetries.clone();
        ss_symmetries_without_self.remove(symmetry);
        assert_eq!(
            ss_symmetries_without_self.len(),
            other_symmetries.len(),
            "no extra symmetries - {:?} = {:?}",
            ss.symmetries,
            other_symmetries
        );
        for symmetry in other_symmetries {
            assert!(
                ss.symmetries.contains(symmetry),
                "did not contain symmetry 0b{symmetry:b} | {:?}",
                ss.symmetries.iter().map(|s| format!("0b{s:b}")).collect::<Vec<_>>()
            );
        }
    }
}

#[test]
fn test_one() {
    test_symmetries(vec![0b1, 0b1000, 0b100000, 0b1000000]);
    test_symmetries(vec![0b1000, 0b1, 0b100000, 0b1000000]);
    test_symmetries(vec![0b0111, 0b1110, 0b10110000, 0b11010000]);
    test_symmetries(vec![0b10010110]);
}

#[test]
fn covered_pattern_is_not_checked_again() {
    let mut ss = SwapSymmetries::new();
    ss.increment_bit(Some(0));
    let class = ss.check_for_symmetries().expect("first visit");
    assert_eq!(class.into_iter().collect::<Vec<_>>(), vec![0b1, 0b1000, 0b100000, 0b1000000]);
    ss.increment_bit(Some(0));
    ss.increment_bit(Some(3));
    assert!(ss.check_for_symmetries().is_none());
}

#[test]
fn flipping_a_bit_toggles_the_pattern() {
    let mut ss = SwapSymmetries::new();
    ss.increment_bit(Some(4));
    assert_eq!(ss.current_bit_pattern, 0b10000);
    ss.increment_bit(Some(4));
    assert_eq!(ss.current_bit_pattern, 0);
}

#[test]
fn class_holds_the_pattern_and_its_three_companions() {
    let mut ss = SwapSymmetries::new();
    ss.increment_bit(Some(1));
    ss.increment_bit(Some(4));
    // 0b1_0010 is its own bisection swap; reversing its nibbles gives
    // 0b1000_0100, which is the other companion too
    let class = ss.check_for_symmetries().expect("first visit");
    let got: Vec<u16> = class.into_iter().collect();
    assert_eq!(got, vec![0b1_0010, 0b1000_0100]);
}
