use roget::{Correctness, Mask, RepresentableAsWord};

const C: Correctness = Correctness::Correct;
const M: Correctness = Correctness::Misplaced;
const W: Correctness = Correctness::Wrong;

fn mask(text: &str) -> Mask {
    let mut m = [W; 5];
    for (i, c) in text.chars().enumerate() {
        m[i] = match c {
            'C' => C,
            'M' => M,
            _ => W,
        };
    }
    m
}

#[test]
fn all_green() {
    assert_eq!(Correctness::check(b"hello", b"hello"), mask("CCCCC"));
}

#[test]
fn all_gray() {
    assert_eq!(Correctness::check(b"hello", b"pqrst"), mask("WWWWW"));
}

#[test]
fn all_yellow() {
    assert_eq!(Correctness::check(b"hello", b"llohe"), mask("MMMMM"));
}

#[test]
fn actual_words() {
    assert_eq!(Correctness::check(b"hello", b"world"), mask("WMWCW"));
}

#[test]
fn guess_single_letter() {
    assert_eq!(Correctness::check(b"hello", b"lllll"), mask("WWCCW"));
}

#[test]
fn guess_with_more_of_a_letter_than_needed() {
    assert_eq!(Correctness::check(b"azzaz", b"aaabb"), mask("CMWWW"));
}

#[test]
fn every_word_matches_itself() {
    for w in [b"azzaz", b"moved", b"which", b"lllll"] {
        assert_eq!(Correctness::check(w, w), mask("CCCCC"));
    }
}

#[test]
fn disjoint_words_are_all_gray() {
    assert_eq!(Correctness::check(b"moved", b"which"), mask("WWWWW"));
    assert_eq!(Correctness::check(b"abcde", b"fghij"), mask("WWWWW"));
}

#[test]
fn credited_marks_follow_the_smaller_letter_count() {
    // 'l' occurs twice in the answer and five times in the guess.
    let m = Correctness::check(b"hello", b"lllll");
    assert_eq!(m.iter().filter(|c| **c != W).count(), 2);
    // 'e' occurs once in each word, in different places.
    let m = Correctness::check(b"there", b"eerie");
    assert_eq!(m, mask("MWMWC"));
}

#[test]
fn green_takes_priority_over_an_earlier_yellow() {
    // The second 'a' of the guess is green, so the first cannot take it.
    assert_eq!(Correctness::check(b"xaxxx", b"aaxxx"), mask("WCCCC"));
}

#[test]
fn checking_twice_gives_the_same_mask() {
    let first = Correctness::check(b"crane", b"nacre");
    let second = Correctness::check(b"crane", b"nacre");
    assert_eq!(first, second);
    assert_eq!(first, mask("MMMMC"));
}

#[test]
fn text_becomes_a_word() {
    assert_eq!("moved".as_word(), Some(*b"moved"));
    assert_eq!("movedx".as_word(), Some(*b"moved"));
    assert_eq!("move".as_word(), None);
}
