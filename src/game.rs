//! The game: a dictionary of legal words and the turn loop that asks a
//! guesser for words until it finds the answer or runs out of turns.
use vstd::prelude::*;

use crate::scoring::{mask_of, Correctness, Mask};
use crate::{Word, TRIES_BEFORE_LOSS, WORD_SIZE};

verus! {

/// A word that was submitted, with the mask it earned.
#[derive(Debug, Copy, Clone)]
pub struct Guess {
    pub word: Word,
    pub mask: Mask,
}

/// A guessing strategy.
///
/// Its behaviour is described by three predicates. `may_guess(past, w)`
/// says that `w` is a word the strategy may submit after history `past`;
/// `accepts(past)` that it can make a guess after `past` at all; both are
/// fixed for the life of the guesser. `synced(past)` says that its state is
/// the one in which it expects to be shown `past` next. By default nothing is
/// promised of the words and every history is accepted.
pub trait Guesser {
    open spec fn may_guess(&self, past: Seq<Guess>, w: Word) -> bool {
        true
    }

    open spec fn accepts(&self, past: Seq<Guess>) -> bool {
        true
    }

    open spec fn synced(&self, past: Seq<Guess>) -> bool {
        true
    }

    /// The next word to submit, given the graded guesses so far, oldest first.
    fn guess(&mut self, past_guesses: &[Guess]) -> (r: Word)
        requires
            old(self).synced(past_guesses@),
            old(self).accepts(past_guesses@),
        ensures
            old(self).may_guess(past_guesses@, r),
            forall|g: Guess| #[trigger] final(self).synced(past_guesses@.push(g)),
            forall|h: Seq<Guess>, w: Word| #[trigger]
                final(self).may_guess(h, w) == old(self).may_guess(h, w),
            forall|h: Seq<Guess>| #[trigger] final(self).accepts(h) == old(self).accepts(h),
    ;
}

/// Turns text into a word.
pub trait RepresentableAsWord {
    fn as_word(&self) -> Option<Word>;
}

/// The first `WORD_SIZE` bytes of `s`, or `None` when it is shorter.
pub fn word_from_bytes(s: &[u8]) -> (r: Option<Word>)
    ensures
        match r {
            Some(w) => s@.len() >= WORD_SIZE && w@ == s@.subrange(0, WORD_SIZE as int),
            None => s@.len() < WORD_SIZE,
        },
{
    if s.len() < WORD_SIZE {
        return None;
    }
    let mut w: Word = [0u8; WORD_SIZE];
    let mut i: usize = 0;
    while i < WORD_SIZE
        invariant
            i <= WORD_SIZE,
            s@.len() >= WORD_SIZE,
            forall|k: int| 0 <= k < i ==> w@[k] == s@[k],
        decreases WORD_SIZE - i,
    {
        w[i] = s[i];
        i = i + 1;
    }
    assert(w@ =~= s@.subrange(0, WORD_SIZE as int));
    Some(w)
}

impl RepresentableAsWord for str {
    /// The word made of the first `WORD_SIZE` bytes of the text.
    fn as_word(&self) -> Option<Word> {
        word_from_bytes(self.as_bytes())
    }
}

/// Whether two words are the same.
pub fn same_word(a: &Word, b: &Word) -> (r: bool)
    ensures
        r == (*a == *b),
{
    let mut i: usize = 0;
    while i < WORD_SIZE
        invariant
            i <= WORD_SIZE,
            forall|k: int| 0 <= k < i ==> a@[k] == b@[k],
        decreases WORD_SIZE - i,
    {
        if a[i] != b[i] {
            return false;
        }
        i = i + 1;
    }
    assert(*a =~= *b);
    true
}

/// The set of legal words.
pub struct Dictionary {
    words: Vec<Word>,
}

impl View for Dictionary {
    type V = Set<Word>;

    closed spec fn view(&self) -> Set<Word> {
        self.words@.to_set()
    }
}

impl Dictionary {
    /// The dictionary of the given words.
    pub fn new(words: Vec<Word>) -> (r: Self)
        ensures
            r@ == words@.to_set(),
    {
        Dictionary { words }
    }

    /// Whether `word` is legal.
    pub fn contains(&self, word: &Word) -> (r: bool)
        ensures
            r == self@.contains(*word),
    {
        let mut i: usize = 0;
        while i < self.words.len()
            invariant
                i <= self.words@.len(),
                forall|k: int| 0 <= k < i ==> self.words@[k] != *word,
            decreases self.words@.len() - i,
        {
            if same_word(&self.words[i], word) {
                assert(self.words@.to_set().contains(self.words@[i as int]));
                return true;
            }
            i = i + 1;
        }
        proof {
            if self@.contains(*word) {
                let k = choose|k: int| 0 <= k < self.words@.len() && self.words@[k] == *word;
                assert(self.words@[k] != *word);
            }
        }
        false
    }
}

/// A history in which every guess is one the guesser may make after the
/// guesses before it, misses `answer`, and carries its mask against `answer`.
pub open spec fn faithful_run<G: Guesser>(g: G, answer: Word, h: Seq<Guess>) -> bool {
    forall|i: int|
        0 <= i < h.len() ==> g.may_guess(h.take(i), #[trigger] h[i].word) && h[i].word != answer
            && h[i].mask@ == mask_of(answer@, h[i].word@)
}

/// What a game of `g` against `answer` may end with: `Some(k)` when a
/// faithful run of `k - 1` misses can be followed by the answer, within the
/// turn limit; `None` when a faithful run fills every turn.
pub open spec fn game_outcome<G: Guesser>(g: G, answer: Word, r: Option<usize>) -> bool {
    match r {
        Some(k) => 1 <= k <= TRIES_BEFORE_LOSS && exists|h: Seq<Guess>|
            h.len() == k - 1 && #[trigger] faithful_run(g, answer, h) && g.may_guess(h, answer),
        None => exists|h: Seq<Guess>|
            h.len() == TRIES_BEFORE_LOSS && #[trigger] faithful_run(g, answer, h),
    }
}

/// A game: a dictionary of legal words.
pub struct Wordle {
    dictionary: Dictionary,
}

impl Wordle {
    /// A game over the given words.
    pub fn new(words: Vec<Word>) -> (r: Self)
        ensures
            r.dictionary() == words@.to_set(),
    {
        Wordle { dictionary: Dictionary::new(words) }
    }

    /// The legal words of this game.
    pub closed spec fn dictionary(&self) -> Set<Word> {
        self.dictionary@
    }

    /// The legal words of this game.
    pub fn get_dictionary(&self) -> (r: &Dictionary)
        ensures
            r@ == self.dictionary(),
    {
        &self.dictionary
    }

    /// Plays one game: asks `guesser` for a word each turn, showing it the
    /// graded guesses so far, and returns the turn, counted from one, on
    /// which it named `answer`, or `None` once every turn is spent.
    pub fn play<G: Guesser>(&self, answer: &Word, guesser: G) -> (r: Option<usize>)
        requires
            guesser.synced(Seq::empty()),
            forall|h: Seq<Guess>|
                h.len() < TRIES_BEFORE_LOSS && #[trigger] faithful_run(guesser, *answer, h)
                    ==> guesser.accepts(h),
            forall|h: Seq<Guess>, w: Word|
                h.len() < TRIES_BEFORE_LOSS && faithful_run(guesser, *answer, h)
                    && #[trigger] guesser.may_guess(h, w) ==> self.dictionary().contains(w),
        ensures
            game_outcome(guesser, *answer, r),
    {
        let ghost g0 = guesser;
        let mut player = guesser;
        let mut past: Vec<Guess> = Vec::new();
        let mut attempt: usize = 1;
        assert(faithful_run(g0, *answer, past@));
        while attempt <= TRIES_BEFORE_LOSS
            invariant
                1 <= attempt <= TRIES_BEFORE_LOSS + 1,
                past@.len() == attempt - 1,
                faithful_run(g0, *answer, past@),
                g0 == guesser,
                player.synced(past@),
                forall|h: Seq<Guess>, w: Word| #[trigger]
                    player.may_guess(h, w) == g0.may_guess(h, w),
                forall|h: Seq<Guess>| #[trigger] player.accepts(h) == g0.accepts(h),
                forall|h: Seq<Guess>|
                    h.len() < TRIES_BEFORE_LOSS && #[trigger] faithful_run(g0, *answer, h)
                        ==> g0.accepts(h),
            decreases TRIES_BEFORE_LOSS + 1 - attempt,
        {
            let guessed_word = player.guess(past.as_slice());
            if same_word(&guessed_word, answer) {
                assert(g0.may_guess(past@, *answer));
                assert(faithful_run(g0, *answer, past@));
                assert(game_outcome(g0, *answer, Some(attempt)));
                return Some(attempt);
            }
            let correctness_mask = Correctness::check(answer, &guessed_word);
            let ghost before = past@;
            past.push(Guess { word: guessed_word, mask: correctness_mask });
            proof {
                assert forall|i: int| 0 <= i < past@.len() implies g0.may_guess(
                    past@.take(i),
                    #[trigger] past@[i].word,
                ) && past@[i].word != *answer && past@[i].mask@ == mask_of(
                    answer@,
                    past@[i].word@,
                ) by {
                    if i < before.len() {
                        assert(past@.take(i) =~= before.take(i));
                        assert(past@[i] == before[i]);
                    } else {
                        assert(past@.take(i) =~= before);
                    }
                }
            }
            attempt = attempt + 1;
        }
        None
    }
}

/// A guesser that names the answer on turn `k`, and never before, wins on
/// exactly that turn.
pub proof fn lemma_play_wins_on_turn<G: Guesser>(g: G, answer: Word, k: usize, r: Option<usize>)
    requires
        1 <= k <= TRIES_BEFORE_LOSS,
        forall|h: Seq<Guess>| h.len() < k - 1 ==> !#[trigger] g.may_guess(h, answer),
        forall|h: Seq<Guess>, w: Word| h.len() == k - 1 && #[trigger] g.may_guess(h, w) ==> w
            == answer,
        game_outcome(g, answer, r),
    ensures
        r == Some(k),
{
    match r {
        Some(j) => {
            let h = choose|h: Seq<Guess>|
                h.len() == j - 1 && #[trigger] faithful_run(g, answer, h) && g.may_guess(
                    h,
                    answer,
                );
            if j > k {
                let x = h[k - 1];
                assert(h.take(k - 1).len() == k - 1);
                assert(g.may_guess(h.take(k - 1), x.word));
            }
        },
        None => {
            let h = choose|h: Seq<Guess>|
                h.len() == TRIES_BEFORE_LOSS && #[trigger] faithful_run(g, answer, h);
            let x = h[k - 1];
            assert(h.take(k - 1).len() == k - 1);
            assert(g.may_guess(h.take(k - 1), x.word));
        },
    }
}

/// A guesser whose first word is the answer wins on the first turn.
pub proof fn lemma_play_wins_at_once<G: Guesser>(g: G, answer: Word, r: Option<usize>)
    requires
        forall|w: Word| #[trigger] g.may_guess(Seq::empty(), w) ==> w == answer,
        game_outcome(g, answer, r),
    ensures
        r == Some(1usize),
{
    assert forall|h: Seq<Guess>, w: Word| h.len() == 0 && #[trigger] g.may_guess(h, w) implies w
        == answer by {
        assert(h =~= Seq::<Guess>::empty());
    }
    lemma_play_wins_on_turn(g, answer, 1, r);
}

/// A guesser that never names the answer within the turn limit loses.
pub proof fn lemma_play_loses<G: Guesser>(g: G, answer: Word, r: Option<usize>)
    requires
        forall|h: Seq<Guess>| h.len() < TRIES_BEFORE_LOSS ==> !#[trigger] g.may_guess(h, answer),
        game_outcome(g, answer, r),
    ensures
        r == None::<usize>,
{
    match r {
        Some(j) => {
            let h = choose|h: Seq<Guess>|
                h.len() == j - 1 && #[trigger] faithful_run(g, answer, h) && g.may_guess(
                    h,
                    answer,
                );
        },
        None => {},
    }
}

} // verus!
