use knapsack::CliffScore;
use std::cmp::Ordering;

#[test]
fn less_than_numeric_in_order() {
    let (left, right) = (CliffScore::Score(10), CliffScore::Score(100));
    assert!(left < right);
    assert!(!(right <= left));
}

#[test]
fn less_than_overloaded_less_than_numeric() {
    let (left, right) = (CliffScore::Overloaded, CliffScore::Score(100));
    assert!(left < right);
    assert!(!(right <= left));
}

#[test]
fn lte_numeric_in_order() {
    let (left, right) = (CliffScore::Score(10), CliffScore::Score(100));
    assert!(left <= right);
    assert!(!(right < left));
}

#[test]
fn lte_numeric_equal() {
    let (left, right) = (CliffScore::Score(10), CliffScore::Score(10));
    assert!(left <= right);
    assert!(!(right < left));
}

#[test]
fn lte_overloaded_less_than_numeric() {
    let (left, right) = (CliffScore::Overloaded, CliffScore::Score(100));
    assert!(left <= right);
    assert!(!(right < left));
}

#[test]
fn lte_both_overloaded() {
    let (left, right) = (CliffScore::Overloaded, CliffScore::Overloaded);
    assert!(left <= right);
    assert!(!(right < left));
}

#[test]
fn greater_than_numeric_in_reverse_order() {
    let (left, right) = (CliffScore::Score(100), CliffScore::Score(10));
    assert!(left > right);
    assert!(!(right >= left));
}

#[test]
fn greater_than_numeric_greater_than_overloaded() {
    let (left, right) = (CliffScore::Score(100), CliffScore::Overloaded);
    assert!(left > right);
    assert!(!(right >= left));
}

#[test]
fn equal_numeric_equal() {
    assert!(CliffScore::Score(10) == CliffScore::Score(10));
}

#[test]
fn equal_both_overloaded() {
    assert!(CliffScore::Overloaded == CliffScore::Overloaded);
}

#[test]
fn not_equal_numeric_in_order() {
    assert!(CliffScore::Score(10) != CliffScore::Score(100));
}

#[test]
fn not_equal_numeric_in_reverse_order() {
    assert!(CliffScore::Score(100) != CliffScore::Score(0));
}

#[test]
fn not_equal_overloaded_and_numeric() {
    assert!(CliffScore::Overloaded != CliffScore::Score(10));
}

#[test]
fn not_equal_numeric_and_overloaded() {
    assert!(CliffScore::Score(10) != CliffScore::Overloaded);
}

#[test]
fn partial_cmp_agrees_with_order() {
    assert_eq!(CliffScore::Score(3).partial_cmp(&CliffScore::Score(7)), Some(Ordering::Less));
    assert_eq!(CliffScore::Score(7).partial_cmp(&CliffScore::Score(7)), Some(Ordering::Equal));
    assert_eq!(CliffScore::Overloaded.partial_cmp(&CliffScore::Score(0)), Some(Ordering::Less));
    assert_eq!(CliffScore::Score(0).partial_cmp(&CliffScore::Overloaded), Some(Ordering::Greater));
    assert_eq!(CliffScore::Overloaded.partial_cmp(&CliffScore::Overloaded), Some(Ordering::Equal));
}

#[test]
fn sorting_puts_overloaded_first() {
    let mut scores = vec![
        CliffScore::Score(5),
        CliffScore::Overloaded,
        CliffScore::Score(0),
        CliffScore::Score(u128::MAX),
        CliffScore::Overloaded,
    ];
    scores.sort();
    assert_eq!(
        scores,
        vec![
            CliffScore::Overloaded,
            CliffScore::Overloaded,
            CliffScore::Score(0),
            CliffScore::Score(5),
            CliffScore::Score(u128::MAX),
        ]
    );
}
