use max2::{compare, compare_pair, fold_slice, Pair, PairOption};

fn pair_of(state: PairOption<i32>) -> Option<Pair<i32>> {
    match state {
        PairOption::Pair(p) => Some(p),
        _ => None,
    }
}

#[test]
fn compare_walks_the_transition_table() {
    let one = compare(PairOption::Empty, 4);
    assert!(matches!(one, PairOption::One(4)));
    assert_eq!(Some(Pair(6, 4)), pair_of(compare(one, 6)));
    assert_eq!(Some(Pair(4, 2)), pair_of(compare(one, 2)));
    let full = PairOption::Pair(Pair(10, 5));
    assert_eq!(Some(Pair(12, 10)), pair_of(compare(full, 12)));
    assert_eq!(Some(Pair(10, 7)), pair_of(compare(full, 7)));
    assert_eq!(Some(Pair(10, 5)), pair_of(compare(full, 3)));
    assert_eq!(Some(Pair(10, 10)), pair_of(compare(full, 10)));
}

#[test]
fn compare_pair_covers_every_combination() {
    let empty: PairOption<i32> = PairOption::Empty;
    assert!(matches!(compare_pair(empty, empty), PairOption::Empty));
    assert!(matches!(compare_pair(empty, PairOption::One(3)), PairOption::One(3)));
    assert!(matches!(compare_pair(PairOption::One(3), empty), PairOption::One(3)));
    let full = PairOption::Pair(Pair(10, 5));
    assert_eq!(Some(Pair(10, 5)), pair_of(compare_pair(empty, full)));
    assert_eq!(Some(Pair(10, 5)), pair_of(compare_pair(full, empty)));
    assert_eq!(Some(Pair(8, 3)), pair_of(compare_pair(PairOption::One(3), PairOption::One(8))));
    assert_eq!(Some(Pair(8, 3)), pair_of(compare_pair(PairOption::One(8), PairOption::One(3))));
    assert_eq!(Some(Pair(11, 10)), pair_of(compare_pair(PairOption::One(11), full)));
    assert_eq!(Some(Pair(10, 7)), pair_of(compare_pair(full, PairOption::One(7))));
    assert_eq!(Some(Pair(10, 5)), pair_of(compare_pair(full, PairOption::One(1))));
    let other = PairOption::Pair(Pair(9, 8));
    assert_eq!(Some(Pair(10, 9)), pair_of(compare_pair(full, other)));
    assert_eq!(Some(Pair(10, 9)), pair_of(compare_pair(other, full)));
    let higher = PairOption::Pair(Pair(20, 1));
    assert_eq!(Some(Pair(20, 10)), pair_of(compare_pair(full, higher)));
    let lower = PairOption::Pair(Pair(2, 1));
    assert_eq!(Some(Pair(10, 5)), pair_of(compare_pair(lower, full)));
}

#[test]
fn merging_parts_matches_the_whole() {
    let input = [98, 20, 65, 10, 72, 25, 70, 60, 40, 77, 64, 46, 3, 42, 33, 50, 83];
    let whole = pair_of(fold_slice(&input));
    assert_eq!(Some(Pair(98, 83)), whole);
    for cut in 0..=input.len() {
        let (left, right) = input.split_at(cut);
        let a = fold_slice(left);
        let b = fold_slice(right);
        assert_eq!(whole, pair_of(compare_pair(a, b)));
        assert_eq!(whole, pair_of(compare_pair(b, a)));
    }
    let (a, rest) = input.split_at(5);
    let (b, c) = rest.split_at(6);
    let (a, b, c) = (fold_slice(a), fold_slice(b), fold_slice(c));
    assert_eq!(whole, pair_of(compare_pair(compare_pair(a, b), c)));
    assert_eq!(whole, pair_of(compare_pair(a, compare_pair(b, c))));
}

#[test]
fn fold_slice_counts_small_inputs() {
    let empty: [i32; 0] = [];
    assert!(matches!(fold_slice(&empty), PairOption::Empty));
    assert!(matches!(fold_slice(&[42]), PairOption::One(42)));
}
