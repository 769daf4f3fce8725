use max2::{fold_max2, loop_max2, par_max2, sort_max2, transform_max2, Max2Error, Pair};

const SAMPLE: [i32; 25] = [
    98, 20, 65, 10, 72, 25, 70, 60, 40, 77, 64, 46, 3, 42, 33, 50, 83, 36, 41, 32, 89, 88, 23, 21,
    61,
];
const RESULT: Pair<i32> = Pair(98, 89);

type Strategy = fn(&[i32]) -> Result<Pair<i32>, Max2Error>;

const STRATEGIES: [Strategy; 5] = [
    sort_max2::<i32>,
    fold_max2::<i32>,
    loop_max2::<i32>,
    transform_max2::<i32>,
    par_max2::<i32>,
];

#[test]
fn test_sort() {
    assert_eq!(Ok(RESULT), sort_max2(&SAMPLE));
}

#[test]
fn test_fold() {
    assert_eq!(Ok(RESULT), fold_max2(&SAMPLE));
}

#[test]
fn test_loop() {
    assert_eq!(Ok(RESULT), loop_max2(&SAMPLE));
}

#[test]
fn test_transform() {
    assert_eq!(Ok(RESULT), transform_max2(&SAMPLE));
}

#[test]
fn test_par() {
    assert_eq!(Ok(RESULT), par_max2(&SAMPLE));
}

#[test]
fn demo_input_gives_largest_two() {
    let input = [8, 4, 1, 9, 2, 3, 6, 32, 12, 11, 19, 1829];
    for strategy in STRATEGIES {
        assert_eq!(Ok(Pair(1829, 32)), strategy(&input));
    }
}

#[test]
fn empty_input_is_an_error() {
    let input: [i32; 0] = [];
    for strategy in STRATEGIES {
        assert_eq!(Err(Max2Error::EmptyInput), strategy(&input));
    }
}

#[test]
fn single_value_is_an_error() {
    for strategy in STRATEGIES {
        assert_eq!(Err(Max2Error::InsufficientInput), strategy(&[7]));
    }
}

#[test]
fn repeated_maximum_fills_both_slots() {
    for strategy in STRATEGIES {
        assert_eq!(Ok(Pair(5, 5)), strategy(&[5, 5, 1]));
        assert_eq!(Ok(Pair(5, 5)), strategy(&[1, 5, 5]));
    }
}

#[test]
fn two_values_come_out_ordered() {
    for strategy in STRATEGIES {
        assert_eq!(Ok(Pair(3, 2)), strategy(&[2, 3]));
        assert_eq!(Ok(Pair(3, 2)), strategy(&[3, 2]));
    }
}

#[test]
fn strategies_agree_on_sample() {
    let results: Vec<_> = STRATEGIES.iter().map(|s| s(&SAMPLE)).collect();
    for r in &results {
        assert_eq!(results[0], *r);
    }
}

#[test]
fn reordering_keeps_the_result() {
    let mut reversed = SAMPLE;
    reversed.reverse();
    let mut rotated = SAMPLE;
    rotated.rotate_left(7);
    for strategy in STRATEGIES {
        assert_eq!(strategy(&SAMPLE), strategy(&reversed));
        assert_eq!(strategy(&SAMPLE), strategy(&rotated));
    }
}

#[test]
fn fold_orders_its_seed() {
    assert_eq!(Ok(Pair(5, 3)), fold_max2(&[1, 5, 3]));
    assert_eq!(Ok(Pair(5, 1)), fold_max2(&[1, 5, 0]));
}

#[test]
fn sort_reorders_the_values() {
    assert_eq!(Ok(Pair(9, 5)), sort_max2(&[9, 1, 5]));
    assert_eq!(Ok(Pair(9, 8)), sort_max2(&[9, 8, 1, 2]));
}

#[test]
fn negative_values() {
    for strategy in STRATEGIES {
        assert_eq!(Ok(Pair(-1, -2)), strategy(&[-5, -1, -9, -2]));
    }
}

#[test]
fn unsigned_values() {
    let input: [u64; 4] = [u64::MAX, 0, 7, u64::MAX - 1];
    assert_eq!(Ok(Pair(u64::MAX, u64::MAX - 1)), sort_max2(&input));
    assert_eq!(Ok(Pair(u64::MAX, u64::MAX - 1)), fold_max2(&input));
    assert_eq!(Ok(Pair(u64::MAX, u64::MAX - 1)), loop_max2(&input));
    assert_eq!(Ok(Pair(u64::MAX, u64::MAX - 1)), transform_max2(&input));
    assert_eq!(Ok(Pair(u64::MAX, u64::MAX - 1)), par_max2(&input));
}

#[test]
fn large_input_spans_many_chunks() {
    let input: Vec<u64> = (0..100_000u64).map(|i| (i * 7919) % 100_000).collect();
    let expected = sort_max2(&input);
    assert_eq!(Ok(Pair(99_999, 99_998)), expected);
    assert_eq!(expected, par_max2(&input));
    assert_eq!(expected, fold_max2(&input));
    assert_eq!(expected, loop_max2(&input));
    assert_eq!(expected, transform_max2(&input));
}

#[test]
fn maximum_at_either_end() {
    let mut input: Vec<i64> = (0..1000).collect();
    assert_eq!(Ok(Pair(999, 998)), par_max2(&input));
    input.reverse();
    assert_eq!(Ok(Pair(999, 998)), par_max2(&input));
    assert_eq!(Ok(Pair(999, 998)), loop_max2(&input));
}
