use ready_set_boole::adder::add;
use ready_set_boole::gray_code::gray_code;
use ready_set_boole::multiplier::multiplier;
use ready_set_boole::powerset::powerset;

#[test]
fn can_add_to_numbers() {
    let result = add(2, 2);
    assert_eq!(result, 4);
}

#[test]
fn adding_works_with_zero() {
    let result = add(2, 0);
    assert_eq!(result, 2);
}

#[test]
fn adding_works_with_zeros() {
    let result = add(0, 0);
    assert_eq!(result, 0);
}

#[test]
fn adding_works_with_max_values() {
    let result = add(usize::MAX, 0);
    assert_eq!(result, usize::MAX);
}

#[test]
fn adding_wraps_around() {
    assert_eq!(add(usize::MAX, 2), 1);
    assert_eq!(add(3, 9), 12);
}

#[test]
fn can_multiply_two_numbers() {
    let result = multiplier(2, 2);

    assert_eq!(result, 4);
}

#[test]
fn can_multiply_zeroes() {
    let result = multiplier(0, 0);

    assert_eq!(result, 0);
}

#[test]
fn can_multiply_big_values() {
    let result = multiplier(u32::MAX / 2, 2);

    // Minus one because of rounding for division
    assert_eq!(result, u32::MAX - 1);
}

#[test]
fn multiplying_overlapping_bits_works() {
    assert_eq!(multiplier(3, 3), 9);
    assert_eq!(multiplier(7, 6), 42);
    assert_eq!(multiplier(2147483648, 2), 0);
}

#[test]
fn test_gray_code_0() {
    let test_cases = [
        (0, 0),
        (1, 1),
        (2, 3),
        (3, 2),
        (4, 6),
        (5, 7),
        (6, 5),
        (7, 4),
        (8, 12),
        (2147483648, 3221225472),
    ];

    for (value, expected) in test_cases {
        gray_code_0(value, expected);
    }
}

fn gray_code_0(value: u32, expected: u32) {
    let result = gray_code(value);
    assert_eq!(result, expected);
}

#[test]
fn test_simple_powerset() {
    let set = vec![1];
    let result = powerset(set.clone());
    assert_eq!(result, vec![vec![], vec![1]]);
}

#[test]
fn test_two_numbers_powerset() {
    let set = vec![1, 2];
    let result = powerset(set.clone());
    assert_eq!(result, vec![vec![], vec![1], vec![2], vec![1, 2]]);
}

#[test]
fn test_powerset() {
    let set = vec![1, 2, 3];
    let result = powerset(set.clone());
    assert_eq!(
        result,
        vec![
            vec![],
            vec![1],
            vec![2],
            vec![3],
            vec![1, 2],
            vec![1, 3],
            vec![2, 3],
            vec![1, 2, 3]
        ]
    );
}

#[test]
fn test_empty_powerset() {
    let result = powerset(vec![]);
    let expected: Vec<Vec<i32>> = vec![vec![]];
    assert_eq!(result, expected);
}
