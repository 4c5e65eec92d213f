use vigenere_cracker::divisors::{gcd, gcd_inner};

#[test]
fn gcd_inner_of_two_numbers() {
    assert_eq!(gcd_inner(12, 18), 6);
    assert_eq!(gcd_inner(18, 12), 6);
    assert_eq!(gcd_inner(17, 5), 1);
    assert_eq!(gcd_inner(9, 3), 3);
    assert_eq!(gcd_inner(3, 9), 3);
}

#[test]
fn gcd_inner_with_zero() {
    assert_eq!(gcd_inner(7, 0), 7);
    assert_eq!(gcd_inner(0, 7), 7);
    assert_eq!(gcd_inner(0, 0), 0);
}

#[test]
fn gcd_inner_of_large_numbers() {
    assert_eq!(gcd_inner(u64::MAX, u64::MAX), u64::MAX);
    assert_eq!(gcd_inner(u64::MAX, 1), 1);
    assert_eq!(gcd_inner(1 << 63, 1 << 40), 1 << 40);
}

#[test]
fn gcd_of_the_gaps_of_a_repeated_sequence() {
    assert_eq!(gcd(vec![3, 3, 6, 3]), 3);
}

#[test]
fn gcd_of_a_list() {
    assert_eq!(gcd(vec![12, 18, 30]), 6);
    assert_eq!(gcd(vec![5]), 5);
    assert_eq!(gcd(vec![4, 9]), 1);
    assert_eq!(gcd(vec![0, 0]), 0);
    assert_eq!(gcd(vec![0, 8, 12]), 4);
}

#[test]
fn gcd_of_no_numbers_is_zero() {
    assert_eq!(gcd(Vec::new()), 0);
}

#[test]
fn gcd_does_not_depend_on_the_order() {
    let orders: [[u64; 4]; 6] = [
        [36, 60, 84, 24],
        [24, 84, 60, 36],
        [60, 36, 24, 84],
        [84, 24, 36, 60],
        [36, 84, 24, 60],
        [24, 36, 60, 84],
    ];
    for order in orders {
        assert_eq!(gcd(order.to_vec()), 12);
    }
}

#[test]
fn gcd_inner_is_commutative_and_associative() {
    let values: [u64; 6] = [0, 1, 6, 10, 15, 360];
    for a in values {
        for b in values {
            assert_eq!(gcd_inner(a, b), gcd_inner(b, a));
            for c in values {
                assert_eq!(gcd_inner(gcd_inner(a, b), c), gcd_inner(a, gcd_inner(b, c)));
            }
        }
    }
}

#[test]
fn gcd_divides_every_value() {
    let values: Vec<u64> = vec![1071, 462, 147, 21000];
    let divisor = gcd(values.clone());
    assert_eq!(divisor, 21);
    for value in values {
        assert_eq!(value % divisor, 0);
    }
}
