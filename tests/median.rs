use stats::median::{median_index, median_of_bits};
use stats::order::{order_key, order_keys, SIGN_BIT};

fn bits_of(nums: &[f64]) -> Vec<u64> {
    nums.iter().map(|x| x.to_bits()).collect()
}

fn median_value(nums: &[f64]) -> Option<f64> {
    median_of_bits(&bits_of(nums)).map(|i| nums[i])
}

#[test]
fn median_of_empty_is_absent() {
    assert_eq!(median_value(&[]), None);
    assert_eq!(median_index(&vec![]), None);
}

#[test]
fn median_even_length_takes_lower_middle() {
    assert_eq!(median_value(&[0.0, 0.5, -1.0, 1.0]), Some(0.0));
}

#[test]
fn median_odd_length_takes_middle() {
    assert_eq!(median_value(&[0.0, 0.5, -1.0, 1.0, 2.0]), Some(0.5));
}

#[test]
fn median_single_item() {
    assert_eq!(median_value(&[-7.25]), Some(-7.25));
    assert_eq!(median_index(&vec![42]), Some(0));
}

#[test]
fn median_index_positions() {
    assert_eq!(median_index(&vec![30, 10, 20]), Some(2));
    assert_eq!(median_index(&vec![30, 10, 20, 40]), Some(2));
    assert_eq!(median_index(&vec![5, 1]), Some(1));
}

#[test]
fn median_index_equal_keys_keep_input_order() {
    // A stable sort of [7, 7, 7, 7] keeps the positions in order; the lower
    // middle of four items is the second.
    assert_eq!(median_index(&vec![7, 7, 7, 7]), Some(1));
    // Sorted: (1,1) (5,0) (5,2) (9,3); the middle of four is at position 1.
    assert_eq!(median_index(&vec![5, 1, 5, 9]), Some(0));
    // Sorted: (1,1) (5,0) (5,2); the middle of three is at position 1.
    assert_eq!(median_index(&vec![5, 1, 5]), Some(0));
}

#[test]
fn median_negative_numbers() {
    assert_eq!(median_value(&[-3.0, -1.0, -2.0]), Some(-2.0));
    assert_eq!(median_value(&[-0.5, -100.0, 3.0, -4.0]), Some(-4.0));
}

#[test]
fn median_with_infinities() {
    let nums = [f64::INFINITY, 1.0, f64::NEG_INFINITY];
    assert_eq!(median_value(&nums), Some(1.0));
    let nums = [f64::INFINITY, f64::INFINITY, f64::NEG_INFINITY];
    assert_eq!(median_value(&nums), Some(f64::INFINITY));
}

#[test]
fn median_zeros_compare_equal() {
    // The two zeros are equal numbers: a stable sort keeps their input order.
    let r = median_value(&[-0.0, 0.0]).unwrap();
    assert_eq!(r.to_bits(), (-0.0f64).to_bits());
    let r = median_value(&[0.0, -0.0]).unwrap();
    assert_eq!(r.to_bits(), 0.0f64.to_bits());
}

#[test]
fn median_leaves_input_unchanged() {
    let nums = vec![3.0, -1.0, 2.0, 0.5];
    let bits = bits_of(&nums);
    let before = bits.clone();
    let _ = median_of_bits(&bits);
    assert_eq!(bits, before);
    let keys = order_keys(&bits);
    let keys_before = keys.clone();
    let _ = median_index(&keys);
    assert_eq!(keys, keys_before);
}

#[test]
fn median_order_independent() {
    let orders: [[f64; 5]; 4] = [
        [0.0, 0.5, -1.0, 1.0, 2.0],
        [2.0, 1.0, 0.5, 0.0, -1.0],
        [-1.0, 2.0, 0.0, 1.0, 0.5],
        [1.0, -1.0, 0.5, 2.0, 0.0],
    ];
    for nums in orders.iter() {
        assert_eq!(median_value(nums), Some(0.5));
    }
    assert_eq!(median_value(&[4.0, 1.0, 3.0, 2.0]), Some(2.0));
    assert_eq!(median_value(&[1.0, 2.0, 3.0, 4.0]), Some(2.0));
}

#[test]
fn median_repeated_calls_agree() {
    let nums = [9.5, -3.0, 0.25, 7.0, 7.0, -12.0];
    let first = median_value(&nums);
    for _ in 0..5 {
        assert_eq!(median_value(&nums), first);
    }
    assert_eq!(first, Some(0.25));
}

#[test]
fn order_key_exact_values() {
    assert_eq!(order_key(0), SIGN_BIT);
    assert_eq!(order_key(SIGN_BIT), SIGN_BIT);
    assert_eq!(order_key(1), SIGN_BIT + 1);
    assert_eq!(order_key(SIGN_BIT + 1), SIGN_BIT - 2);
    assert_eq!(order_key(u64::MAX), 0);
    assert_eq!(order_key(SIGN_BIT - 1), u64::MAX);
    assert_eq!(order_key(1.0f64.to_bits()), 0x3FF0_0000_0000_0000 + SIGN_BIT);
}

#[test]
fn order_key_follows_numeric_order() {
    let ascending = [
        f64::NEG_INFINITY,
        -1.0e300,
        -2.0,
        -1.0,
        -f64::MIN_POSITIVE,
        -5.0e-324,
        0.0,
        5.0e-324,
        f64::MIN_POSITIVE,
        1.0,
        2.0,
        1.0e300,
        f64::INFINITY,
    ];
    for w in ascending.windows(2) {
        assert!(order_key(w[0].to_bits()) < order_key(w[1].to_bits()));
    }
    assert_eq!(order_key((-0.0f64).to_bits()), order_key(0.0f64.to_bits()));
}

#[test]
fn order_key_places_nan_beyond_infinity() {
    let nan = f64::NAN.to_bits() & !SIGN_BIT;
    let neg_nan = nan | SIGN_BIT;
    assert!(order_key(nan) > order_key(f64::INFINITY.to_bits()));
    assert!(order_key(neg_nan) < order_key(f64::NEG_INFINITY.to_bits()));
    // NaN does not stop the median from being found.
    let nums = [f64::from_bits(nan), 1.0, 2.0];
    assert_eq!(median_value(&nums), Some(2.0));
}

#[test]
fn order_keys_one_for_one() {
    let bits = vec![0, SIGN_BIT, 1, u64::MAX];
    assert_eq!(order_keys(&bits), vec![SIGN_BIT, SIGN_BIT, SIGN_BIT + 1, 0]);
    assert_eq!(order_keys(&vec![]), Vec::<u64>::new());
}
