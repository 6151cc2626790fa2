use roget::{
    Correctness, Dictionary, FrequencyTable, Guess, Guesser, InformationMeasure, Mask, Naive,
    RepresentableAsWord, Unoptimized, Word, Wordle,
};

const DICTIONARY: &str = "which there their about would these other words could write \
    first water after where right think three years place sound moved hello world";

fn words() -> Vec<Word> {
    DICTIONARY
        .split_ascii_whitespace()
        .map(|word_str| word_str.as_word().unwrap())
        .collect()
}

/// Shannon entropy of the outcome weights, in bits, as order-preserving bits.
struct Shannon;

impl InformationMeasure for Shannon {
    fn information(&self, outcomes: &Vec<(Mask, u128)>, total: u128) -> u64 {
        let total = total as f64;
        let h: f64 = -outcomes
            .iter()
            .filter(|(_, w)| *w > 0)
            .map(|(_, w)| {
                let p = *w as f64 / total;
                p * p.log2()
            })
            .sum::<f64>();
        (h + 0.0).to_bits()
    }
}

struct AlwaysMoved;

impl Guesser for AlwaysMoved {
    fn guess(&mut self, _past_guesses: &[Guess]) -> Word {
        *b"moved"
    }
}

struct MovedOnThird;

impl Guesser for MovedOnThird {
    fn guess(&mut self, past: &[Guess]) -> Word {
        if past.len() == 2 {
            *b"moved"
        } else {
            *b"which"
        }
    }
}

pub struct DoesNotGuessCorrectly;

impl Guesser for DoesNotGuessCorrectly {
    fn guess(&mut self, _past_guesses: &[Guess]) -> Word {
        *b"which"
    }
}

struct Recorder {
    seen: Vec<usize>,
    answer_on: usize,
}

impl Guesser for Recorder {
    fn guess(&mut self, past: &[Guess]) -> Word {
        self.seen.push(past.len());
        if past.len() + 1 == self.answer_on {
            *b"moved"
        } else {
            *b"which"
        }
    }
}

#[test]
fn guess_first_time_correctly() {
    let wordle: Wordle = Wordle::new(words());
    assert_eq!(wordle.play(b"moved", AlwaysMoved), Some(1));
}

#[test]
fn guess_third_time_correctly() {
    let wordle: Wordle = Wordle::new(words());
    assert_eq!(wordle.play(b"moved", MovedOnThird), Some(3));
}

#[test]
fn dont_guess_correctly() {
    let wordle: Wordle = Wordle::new(words());
    assert_eq!(wordle.play(b"moved", DoesNotGuessCorrectly {}), None);
}

#[test]
fn naive_never_finds_another_word() {
    let wordle: Wordle = Wordle::new(words());
    assert_eq!(wordle.play(b"moved", Naive), None);
    assert_eq!(wordle.play(b"which", Naive), Some(1));
}

#[test]
fn winning_turn_is_the_turn_of_the_answer() {
    let wordle: Wordle = Wordle::new(words());
    for k in [1usize, 2, 6, 32] {
        assert_eq!(
            wordle.play(b"moved", Recorder { seen: Vec::new(), answer_on: k }),
            Some(k)
        );
    }
    assert_eq!(
        wordle.play(b"moved", Recorder { seen: Vec::new(), answer_on: 33 }),
        None
    );
}

#[test]
fn dictionary_holds_its_words() {
    let wordle: Wordle = Wordle::new(words());
    assert!(wordle.get_dictionary().contains(b"moved"));
    assert!(!wordle.get_dictionary().contains(b"zzzzz"));
    let d = Dictionary::new(vec![*b"which"]);
    assert!(d.contains(b"which"));
}

#[test]
fn frequency_table_keeps_the_last_weight() {
    let t = FrequencyTable::from_pairs(vec![(*b"which", 1), (*b"moved", 2), (*b"which", 7)]);
    assert_eq!(t.entries(), &vec![(*b"which", 7), (*b"moved", 2)]);
}

#[test]
fn unoptimized_tries_highest_information_words() {
    let wordle: Wordle = Wordle::new(words());
    let dictionary_with_counts: Vec<(Word, u64)> = vec![(*b"which", 10), (*b"moved", 20)];
    assert_eq!(
        wordle.play(
            b"moved",
            Unoptimized::new(
                wordle.get_dictionary(),
                FrequencyTable::from_pairs(dictionary_with_counts),
                Shannon
            )
        ),
        Some(1)
    );
}

#[test]
fn unoptimized_prefers_the_word_that_splits_the_pool() {
    let wordle: Wordle = Wordle::new(words());
    // "there" against these answers gives four different masks; "which"
    // cannot tell "three", "there" and "other" apart.
    let pool = vec![(*b"which", 100), (*b"there", 1), (*b"three", 1), (*b"other", 1)];
    let mut guesser = Unoptimized::new(
        wordle.get_dictionary(),
        FrequencyTable::from_pairs(pool),
        Shannon,
    );
    let first = guesser.guess(&[]);
    assert_ne!(first, *b"which");
}

#[test]
fn unoptimized_finds_answers_in_its_pool() {
    let wordle: Wordle = Wordle::new(words());
    let pool: Vec<(Word, u64)> = words().into_iter().zip(1u64..).collect();
    for answer in words() {
        let guesser = Unoptimized::new(
            wordle.get_dictionary(),
            FrequencyTable::from_pairs(pool.clone()),
            Shannon,
        );
        let turns = wordle.play(&answer, guesser);
        assert!(turns.is_some());
    }
}

#[test]
fn unoptimized_repeats_a_word_that_was_all_green() {
    let wordle: Wordle = Wordle::new(words());
    let pool: Vec<(Word, u64)> = words().into_iter().map(|w| (w, 5)).collect();
    let mut guesser = Unoptimized::new(
        wordle.get_dictionary(),
        FrequencyTable::from_pairs(pool),
        Shannon,
    );
    let first = guesser.guess(&[]);
    let past = [Guess { word: first, mask: Correctness::check(&first, &first) }];
    assert_eq!(guesser.guess(&past), first);
}

#[test]
fn unoptimized_breaks_ties_by_weight() {
    let wordle: Wordle = Wordle::new(words());
    // Any two words split a pool of two evenly: the heavier one is chosen.
    for (a, b) in [(b"which", b"moved"), (b"moved", b"which")] {
        let pool = vec![(*a, 3), (*b, 4)];
        let mut guesser = Unoptimized::new(
            wordle.get_dictionary(),
            FrequencyTable::from_pairs(pool),
            Shannon,
        );
        assert_eq!(guesser.guess(&[]), *b);
    }
}
