use bracket_odds::util::{find_next_power_of_2, is_power_of_2};
use std::collections::HashSet;

#[test]
fn test_is_power_of_2() {
    assert!(!is_power_of_2(0));
    assert!(is_power_of_2(1));
    assert!(is_power_of_2(2));
    assert!(!is_power_of_2(3));
    assert!(is_power_of_2(4));
    assert!(!is_power_of_2(5));

    let mut n = 1;
    let mut powers_of_2 = HashSet::new();
    for _ in 1..21 {
        powers_of_2.insert(n);
        assert!(is_power_of_2(n));
        n *= 2;
    }

    for i in 1..1_000_000 {
        if is_power_of_2(i) {
            assert!(powers_of_2.contains(&i))
        }
    }
}

#[test]
fn test_find_next_highest_power_of_2() {
    assert_eq!(find_next_power_of_2(1), 1);
    assert_eq!(find_next_power_of_2(1), 1);
}

#[test]
fn next_power_of_two_examples() {
    assert_eq!(find_next_power_of_2(0), 1);
    assert_eq!(find_next_power_of_2(1), 1);
    assert_eq!(find_next_power_of_2(2), 2);
    assert_eq!(find_next_power_of_2(3), 4);
    assert_eq!(find_next_power_of_2(5), 8);
    assert_eq!(find_next_power_of_2(16), 16);
    assert_eq!(find_next_power_of_2(17), 32);
}

#[test]
fn next_power_of_two_at_the_top() {
    let top = usize::MAX / 2 + 1;
    assert_eq!(find_next_power_of_2(top), top);
    assert_eq!(find_next_power_of_2(top - 1), top);
    assert_eq!(find_next_power_of_2(top / 2 + 1), top);
    assert!(is_power_of_2(top));
    assert!(!is_power_of_2(usize::MAX));
}
