use roget::algorithms::unoptimized::{best_candidate, outcome_weights, retain_fitting};
use roget::{Correctness, Guess, Mask};

const C: Correctness = Correctness::Correct;
const M: Correctness = Correctness::Misplaced;
const W: Correctness = Correctness::Wrong;

#[test]
fn outcomes_sum_weights_per_mask() {
    let pool = vec![(*b"which", 2), (*b"moved", 3), (*b"abode", 4), (*b"there", 5)];
    let got = outcome_weights(&pool, b"which");
    let expect: Vec<(Mask, u128)> = vec![
        ([C, C, C, C, C], 2),
        ([W, W, W, W, W], 7),
        ([W, C, W, W, W], 5),
    ];
    assert_eq!(got, expect);
}

#[test]
fn outcomes_of_an_empty_pool_are_empty() {
    assert!(outcome_weights(&Vec::new(), b"which").is_empty());
}

#[test]
fn pruning_keeps_the_fitting_words_in_order() {
    let pool = vec![(*b"which", 2), (*b"moved", 3), (*b"abode", 4), (*b"there", 5)];
    let last = Guess { word: *b"which", mask: [W, W, W, W, W] };
    assert_eq!(retain_fitting(&pool, &last), vec![(*b"moved", 3), (*b"abode", 4)]);
    let last = Guess { word: *b"which", mask: [C, C, C, C, C] };
    assert_eq!(retain_fitting(&pool, &last), vec![(*b"which", 2)]);
}

#[test]
fn best_candidate_ranks_information_then_weight() {
    let pool = vec![(*b"which", 2), (*b"moved", 3), (*b"abode", 9), (*b"there", 5)];
    assert_eq!(best_candidate(&pool, &vec![1, 7, 7, 3]), 2);
    assert_eq!(best_candidate(&pool, &vec![1, 8, 7, 3]), 1);
    let even = vec![(*b"which", 4), (*b"moved", 4)];
    assert_eq!(best_candidate(&even, &vec![5, 5]), 0);
}
