use cuckoofilter::index::{is_power_of_two, round_up_to_power_of_two};

#[test]
fn rounding_up_to_a_power_of_two() {
    assert_eq!(round_up_to_power_of_two(0), 1);
    assert_eq!(round_up_to_power_of_two(1), 1);
    assert_eq!(round_up_to_power_of_two(2), 2);
    assert_eq!(round_up_to_power_of_two(3), 4);
    assert_eq!(round_up_to_power_of_two(4), 4);
    assert_eq!(round_up_to_power_of_two(5), 8);
    assert_eq!(round_up_to_power_of_two(1_000_000), 1_048_576);
    assert_eq!(round_up_to_power_of_two((1 << 20) - 1), 1 << 20);
    assert_eq!(round_up_to_power_of_two((1 << 40) + 1), 1 << 41);
    assert_eq!(round_up_to_power_of_two(1 << 63), 1 << 63);
}

#[test]
fn rounding_agrees_with_the_integer_method() {
    for n in 0u64..5000 {
        assert_eq!(round_up_to_power_of_two(n), n.next_power_of_two());
    }
}

#[test]
fn telling_powers_of_two() {
    assert!(!is_power_of_two(0));
    assert!(is_power_of_two(1));
    assert!(is_power_of_two(2));
    assert!(!is_power_of_two(3));
    assert!(is_power_of_two(4));
    assert!(!is_power_of_two(6));
    assert!(!is_power_of_two(12));
    assert!(is_power_of_two(1 << 30));
    assert!(!is_power_of_two((1 << 30) + 1));
    for n in 0usize..5000 {
        assert_eq!(is_power_of_two(n), n.is_power_of_two());
    }
}
