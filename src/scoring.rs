//! Grading a guessed word against the hidden answer.
use vstd::array::spec_array_fill_for_copy_type;
use vstd::prelude::*;

use crate::{Word, WORD_SIZE};

verus! {

broadcast use vstd::array::group_array_axioms;

/// The classification of one letter of a guess.
#[derive(Debug, Copy, Clone, PartialEq, Eq, Structural, PartialOrd, Ord, Hash)]
pub enum Correctness {
    /// Green: the letter is in this very position of the answer.
    Correct,
    /// Yellow: the letter occurs in another, not yet matched, position.
    Misplaced,
    /// Gray: every occurrence of the letter is already accounted for.
    Wrong,
}

/// One classification per letter of a guess.
pub type Mask = [Correctness; WORD_SIZE];

/// Number of positions `j < n` where the answer holds `c` and the guess
/// does not match it there: the occurrences of `c` left for yellow marks.
pub open spec fn unmatched(a: Seq<u8>, g: Seq<u8>, c: u8, n: int) -> nat
    decreases n,
{
    if n <= 0 {
        0
    } else {
        unmatched(a, g, c, n - 1) + if a[n - 1] == c && a[n - 1] != g[n - 1] {
            1nat
        } else {
            0nat
        }
    }
}

/// Number of positions `k < i` where the guess holds `c` and is not green.
pub open spec fn unplaced(a: Seq<u8>, g: Seq<u8>, c: u8, i: int) -> nat
    decreases i,
{
    if i <= 0 {
        0
    } else {
        unplaced(a, g, c, i - 1) + if g[i - 1] == c && a[i - 1] != g[i - 1] {
            1nat
        } else {
            0nat
        }
    }
}

/// The mark of position `i`: green on an exact match; otherwise yellow while
/// the answer still has an unmatched occurrence of the letter for it, the
/// earlier non-green occurrences in the guess taking theirs first.
pub open spec fn mark_at(a: Seq<u8>, g: Seq<u8>, i: int) -> Correctness {
    if a[i] == g[i] {
        Correctness::Correct
    } else if unplaced(a, g, g[i], i) < unmatched(a, g, g[i], a.len() as int) {
        Correctness::Misplaced
    } else {
        Correctness::Wrong
    }
}

/// The full mask of guess `g` against answer `a`.
pub open spec fn mask_of(a: Seq<u8>, g: Seq<u8>) -> Seq<Correctness> {
    Seq::new(a.len(), |i: int| mark_at(a, g, i))
}

/// Answer positions below `n` that hold `c`, are not green, and are used.
pub open spec fn consumed(a: Seq<u8>, g: Seq<u8>, used: Seq<bool>, c: u8, n: int) -> nat
    decreases n,
{
    if n <= 0 {
        0
    } else {
        consumed(a, g, used, c, n - 1) + if used[n - 1] && a[n - 1] == c && a[n - 1] != g[n
            - 1] {
            1nat
        } else {
            0nat
        }
    }
}

proof fn lemma_consumed_update(a: Seq<u8>, g: Seq<u8>, used: Seq<bool>, c: u8, n: int, j: int)
    requires
        0 <= j < used.len(),
        !used[j],
        a[j] != g[j],
        n <= used.len(),
    ensures
        consumed(a, g, used.update(j, true), c, n) == consumed(a, g, used, c, n) + if j < n
            && a[j] == c {
            1nat
        } else {
            0nat
        },
    decreases n,
{
    if n > 0 {
        lemma_consumed_update(a, g, used, c, n - 1, j);
    }
}

proof fn lemma_consumed_bound(a: Seq<u8>, g: Seq<u8>, used: Seq<bool>, c: u8, n: int)
    requires
        n <= used.len(),
        n <= a.len(),
    ensures
        consumed(a, g, used, c, n) <= unmatched(a, g, c, n),
        consumed(a, g, used, c, n) == unmatched(a, g, c, n) ==> forall|j: int|
            0 <= j < n && a[j] == c && a[j] != g[j] ==> used[j],
    decreases n,
{
    if n > 0 {
        lemma_consumed_bound(a, g, used, c, n - 1);
    }
}

proof fn lemma_consumed_full(a: Seq<u8>, g: Seq<u8>, used: Seq<bool>, c: u8, n: int)
    requires
        n <= used.len(),
        n <= a.len(),
        forall|j: int| 0 <= j < n && a[j] == c && a[j] != g[j] ==> used[j],
    ensures
        consumed(a, g, used, c, n) == unmatched(a, g, c, n),
    decreases n,
{
    if n > 0 {
        lemma_consumed_full(a, g, used, c, n - 1);
    }
}

proof fn lemma_unplaced_step(a: Seq<u8>, g: Seq<u8>, i: int)
    requires
        0 <= i,
    ensures
        forall|c: u8|
            #[trigger] unplaced(a, g, c, i + 1) == unplaced(a, g, c, i) + if g[i] == c && a[i]
                != g[i] {
                1nat
            } else {
                0nat
            },
{
}

/// The first position of `answer` that is unused and holds `c`, if any.
fn find_unused(answer: &Word, used: &[bool; WORD_SIZE], c: u8) -> (r: Option<usize>)
    ensures
        match r {
            Some(j) => j < WORD_SIZE && !used@[j as int] && answer@[j as int] == c,
            None => forall|j: int| 0 <= j < WORD_SIZE ==> used@[j] || answer@[j] != c,
        },
{
    let mut j: usize = 0;
    while j < WORD_SIZE
        invariant
            j <= WORD_SIZE,
            forall|k: int| 0 <= k < j ==> used@[k] || answer@[k] != c,
        decreases WORD_SIZE - j,
    {
        if !used[j] && answer[j] == c {
            return Some(j);
        }
        j = j + 1;
    }
    None
}

impl Correctness {
    /// Grades `guessed_word` against `answer`: exact matches first, then each
    /// remaining letter takes the first unmatched occurrence of it in the
    /// answer, left to right.
    pub fn check(answer: &Word, guessed_word: &Word) -> (r: Mask)
        ensures
            r@ == mask_of(answer@, guessed_word@),
    {
        let ghost a = answer@;
        let ghost g = guessed_word@;
        assert(a.len() == WORD_SIZE && g.len() == WORD_SIZE);
        let gray = Correctness::Wrong;
        let mut rv: Mask = [gray; WORD_SIZE];
        let mut used: [bool; WORD_SIZE] = [false; WORD_SIZE];
        assert(rv@ == spec_array_fill_for_copy_type::<Correctness, WORD_SIZE>(gray)@);
        assert(forall|k: int| 0 <= k < WORD_SIZE ==> rv@[k] == Correctness::Wrong);
        assert(forall|k: int| 0 <= k < WORD_SIZE ==> !used@[k]);
        let mut i: usize = 0;
        while i < WORD_SIZE
            invariant
                i <= WORD_SIZE,
                a == answer@,
                g == guessed_word@,
                forall|k: int|
                    0 <= k < WORD_SIZE ==> #[trigger] used@[k] == (k < i && a[k] == g[k]),
                forall|k: int|
                    0 <= k < WORD_SIZE ==> #[trigger] rv@[k] == if k < i && a[k] == g[k] {
                        Correctness::Correct
                    } else {
                        Correctness::Wrong
                    },
            decreases WORD_SIZE - i,
        {
            if answer[i] == guessed_word[i] {
                rv[i] = Correctness::Correct;
                used[i] = true;
            }
            i = i + 1;
        }
        proof {
            assert forall|c: u8| #[trigger] consumed(a, g, used@, c, WORD_SIZE as int) == 0 by {
                lemma_consumed_zero(a, g, used@, c, WORD_SIZE as int);
            }
        }
        let mut i: usize = 0;
        while i < WORD_SIZE
            invariant
                i <= WORD_SIZE,
                a == answer@,
                g == guessed_word@,
                forall|k: int| 0 <= k < WORD_SIZE && a[k] == g[k] ==> #[trigger] used@[k],
                forall|c: u8|
                    #[trigger] consumed(a, g, used@, c, WORD_SIZE as int) == if unplaced(
                        a,
                        g,
                        c,
                        i as int,
                    ) < unmatched(a, g, c, WORD_SIZE as int) {
                        unplaced(a, g, c, i as int)
                    } else {
                        unmatched(a, g, c, WORD_SIZE as int)
                    },
                forall|k: int| 0 <= k < i ==> #[trigger] rv@[k] == mark_at(a, g, k),
                forall|k: int|
                    i <= k < WORD_SIZE ==> #[trigger] rv@[k] == if a[k] == g[k] {
                        Correctness::Correct
                    } else {
                        Correctness::Wrong
                    },
                a.len() == WORD_SIZE,
                g.len() == WORD_SIZE,
            decreases WORD_SIZE - i,
        {
            proof {
                lemma_unplaced_step(a, g, i as int);
            }
            if rv[i] != Correctness::Correct {
                let c = guessed_word[i];
                let ghost before = used@;
                proof {
                    lemma_consumed_bound(a, g, before, c, WORD_SIZE as int);
                }
                match find_unused(answer, &used, c) {
                    Some(j) => {
                        proof {
                            lemma_consumed_update(a, g, before, c, WORD_SIZE as int, j as int);
                            assert forall|d: u8| d != c implies #[trigger] consumed(
                                a,
                                g,
                                before.update(j as int, true),
                                d,
                                WORD_SIZE as int,
                            ) == consumed(a, g, before, d, WORD_SIZE as int) by {
                                lemma_consumed_update(
                                    a,
                                    g,
                                    before,
                                    d,
                                    WORD_SIZE as int,
                                    j as int,
                                );
                            }
                        }
                        rv[i] = Correctness::Misplaced;
                        used[j] = true;
                        assert(used@ == before.update(j as int, true));
                    },
                    None => {
                        proof {
                            lemma_consumed_full(a, g, before, c, WORD_SIZE as int);
                        }
                    },
                }
            }
            i = i + 1;
        }
        assert(rv@ =~= mask_of(a, g));
        rv
    }
}

proof fn lemma_consumed_zero(a: Seq<u8>, g: Seq<u8>, used: Seq<bool>, c: u8, n: int)
    requires
        n <= used.len(),
        forall|k: int| 0 <= k < n ==> used[k] ==> a[k] == g[k],
    ensures
        consumed(a, g, used, c, n) == 0,
    decreases n,
{
    if n > 0 {
        lemma_consumed_zero(a, g, used, c, n - 1);
    }
}

/// Number of positions below `n` of `s` that hold `c`.
pub open spec fn occurrences(s: Seq<u8>, c: u8, n: int) -> nat
    decreases n,
{
    if n <= 0 {
        0
    } else {
        occurrences(s, c, n - 1) + if s[n - 1] == c {
            1nat
        } else {
            0nat
        }
    }
}

/// Number of positions below `n` where the guess holds `c` and the mask is
/// green or yellow.
pub open spec fn credited(m: Seq<Correctness>, g: Seq<u8>, c: u8, n: int) -> nat
    decreases n,
{
    if n <= 0 {
        0
    } else {
        credited(m, g, c, n - 1) + if g[n - 1] == c && m[n - 1] != Correctness::Wrong {
            1nat
        } else {
            0nat
        }
    }
}

/// Number of positions below `n` where both words hold `c`.
pub open spec fn greens(a: Seq<u8>, g: Seq<u8>, c: u8, n: int) -> nat
    decreases n,
{
    if n <= 0 {
        0
    } else {
        greens(a, g, c, n - 1) + if a[n - 1] == c && g[n - 1] == c {
            1nat
        } else {
            0nat
        }
    }
}

/// The smaller of two counts.
pub open spec fn min_nat(x: nat, y: nat) -> nat {
    if x <= y {
        x
    } else {
        y
    }
}

proof fn lemma_credited_prefix(a: Seq<u8>, g: Seq<u8>, c: u8, n: int)
    requires
        0 <= n <= a.len(),
        a.len() == g.len(),
    ensures
        credited(mask_of(a, g), g, c, n) == greens(a, g, c, n) + min_nat(
            unplaced(a, g, c, n),
            unmatched(a, g, c, a.len() as int),
        ),
        occurrences(a, c, n) == greens(a, g, c, n) + unmatched(a, g, c, n),
        occurrences(g, c, n) == greens(a, g, c, n) + unplaced(a, g, c, n),
    decreases n,
{
    if n > 0 {
        lemma_credited_prefix(a, g, c, n - 1);
    }
}

/// For every letter, the green and yellow marks on that letter are exactly as
/// many as its smaller number of occurrences in the answer and in the guess,
/// and a position is green exactly when both words agree there.
pub proof fn lemma_marks_follow_letter_counts(answer: Word, guess: Word, c: u8)
    ensures
        credited(mask_of(answer@, guess@), guess@, c, WORD_SIZE as int) == min_nat(
            occurrences(answer@, c, WORD_SIZE as int),
            occurrences(guess@, c, WORD_SIZE as int),
        ),
        forall|i: int|
            0 <= i < WORD_SIZE ==> (#[trigger] mask_of(answer@, guess@)[i] == Correctness::Correct
                <==> answer@[i] == guess@[i]),
{
    lemma_credited_prefix(answer@, guess@, c, WORD_SIZE as int);
}

/// A word graded against itself is green everywhere.
pub proof fn lemma_self_is_all_correct(word: Word)
    ensures
        mask_of(word@, word@) == Seq::new(WORD_SIZE as nat, |i: int| Correctness::Correct),
{
    assert(mask_of(word@, word@) =~= Seq::new(WORD_SIZE as nat, |i: int| Correctness::Correct));
}

proof fn lemma_unmatched_absent(a: Seq<u8>, g: Seq<u8>, c: u8, n: int)
    requires
        n <= a.len(),
        forall|j: int| 0 <= j < n ==> a[j] != c,
    ensures
        unmatched(a, g, c, n) == 0,
    decreases n,
{
    if n > 0 {
        lemma_unmatched_absent(a, g, c, n - 1);
    }
}

/// A guess that shares no letter with the answer is gray everywhere.
pub proof fn lemma_disjoint_is_all_wrong(answer: Word, guess: Word)
    requires
        forall|i: int, j: int| 0 <= i < WORD_SIZE && 0 <= j < WORD_SIZE ==> answer@[i] != guess@[j],
    ensures
        mask_of(answer@, guess@) == Seq::new(WORD_SIZE as nat, |i: int| Correctness::Wrong),
{
    assert forall|i: int| 0 <= i < WORD_SIZE implies #[trigger] mask_of(answer@, guess@)[i]
        == Correctness::Wrong by {
        lemma_unmatched_absent(answer@, guess@, guess@[i], WORD_SIZE as int);
    }
    assert(mask_of(answer@, guess@) =~= Seq::new(WORD_SIZE as nat, |i: int| Correctness::Wrong));
}

/// Grading is a function of the two words alone: two results of `check` on
/// the same words are the same mask.
pub proof fn lemma_check_is_deterministic(answer: Word, guess: Word, first: Mask, second: Mask)
    requires
        first@ == mask_of(answer@, guess@),
        second@ == mask_of(answer@, guess@),
    ensures
        first == second,
{
    assert(first =~= second);
}

} // verus!
