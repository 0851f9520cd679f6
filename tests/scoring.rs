use knapsack::{CliffScore, CliffScorer, Item, Knapsack};

fn three_items(capacity: u64) -> Knapsack {
    Knapsack::new(
        vec![Item::new(1, 5, 8), Item::new(2, 9, 6), Item::new(3, 2, 7)],
        capacity,
    )
}

fn check_choice(choices: [bool; 3], expected_value: u128) {
    let scorer = CliffScorer::new(three_items(100));
    assert_eq!(scorer.score(&choices), CliffScore::Score(expected_value));
}

#[test]
fn test_choices_choose_no_items() {
    check_choice([false, false, false], 0);
}

#[test]
fn test_choices_choose_one_item() {
    check_choice([false, true, false], 9);
}

#[test]
fn test_choices_choose_two_items() {
    check_choice([true, false, true], 7);
}

#[test]
fn test_overloading() {
    let knapsack = Knapsack::new(
        vec![Item::new(1, 5, 8), Item::new(2, 9, 6), Item::new(3, 2, 7)],
        10,
    );
    let scorer = CliffScorer::new(knapsack);

    let choices = [true, true, false];
    assert_eq!(scorer.score(&choices), CliffScore::Overloaded);
}

#[test]
fn test_values_choose_no_items() {
    assert_eq!(three_items(100).value(&[false, false, false]), 0);
}

#[test]
fn test_values_choose_one_item() {
    assert_eq!(three_items(100).value(&[false, true, false]), 9);
}

#[test]
fn test_values_choose_two_items() {
    assert_eq!(three_items(100).value(&[true, false, true]), 7);
}

#[test]
fn test_weights_choose_no_items() {
    assert_eq!(three_items(100).weight(&[false, false, false]), 0);
}

#[test]
fn test_weights_choose_one_item() {
    assert_eq!(three_items(100).weight(&[false, true, false]), 6);
}

#[test]
fn test_weights_choose_two_items() {
    assert_eq!(three_items(100).weight(&[true, false, true]), 15);
}

#[test]
fn overloaded_instance_weighs_fourteen() {
    let knapsack = three_items(10);
    assert_eq!(knapsack.weight(&[true, true, false]), 14);
    assert_eq!(knapsack.value(&[true, true, false]), 14);
}

#[test]
fn weight_equal_to_capacity_fits() {
    let scorer = CliffScorer::new(three_items(14));
    assert_eq!(scorer.score(&[true, true, false]), CliffScore::Score(14));
    let scorer = CliffScorer::new(three_items(13));
    assert_eq!(scorer.score(&[true, true, false]), CliffScore::Overloaded);
}

#[test]
fn all_false_candidate_totals_zero() {
    let knapsack = Knapsack::new(
        vec![Item::new(0, u64::MAX, u64::MAX), Item::new(1, 7, 3)],
        0,
    );
    let none = [false, false];
    assert_eq!(knapsack.value(&none), 0);
    assert_eq!(knapsack.weight(&none), 0);
    assert_eq!(CliffScorer::new(knapsack).score(&none), CliffScore::Score(0));
}

#[test]
fn short_candidate_leaves_out_trailing_items() {
    let knapsack = three_items(100);
    assert_eq!(knapsack.value(&[false, true]), 9);
    assert_eq!(knapsack.weight(&[true]), 8);
    assert_eq!(knapsack.value(&[]), 0);
}

#[test]
fn long_candidate_ignores_extra_choices() {
    let knapsack = three_items(100);
    assert_eq!(knapsack.value(&[true, true, true, true, true]), 16);
    assert_eq!(knapsack.weight(&[false, false, true, true]), 7);
}

#[test]
fn totals_exceed_sixty_four_bits() {
    let knapsack = Knapsack::new(
        vec![Item::new(1, u64::MAX, u64::MAX), Item::new(2, u64::MAX, 1)],
        u64::MAX,
    );
    let both = [true, true];
    assert_eq!(knapsack.value(&both), 2 * (u64::MAX as u128));
    assert_eq!(knapsack.weight(&both), u64::MAX as u128 + 1);
    let scorer = CliffScorer::new(knapsack);
    assert_eq!(scorer.score(&both), CliffScore::Overloaded);
    assert_eq!(scorer.score(&[true, false]), CliffScore::Score(u64::MAX as u128));
}

#[test]
fn empty_instance_scores_zero() {
    let scorer = CliffScorer::new(Knapsack::new(Vec::new(), 0));
    assert_eq!(scorer.score(&[true, true]), CliffScore::Score(0));
}
