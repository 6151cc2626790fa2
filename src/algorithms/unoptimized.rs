//! The information-maximising guesser: it keeps the words that still fit
//! every mask seen, and submits the one whose outcome distribution over
//! those words carries the most information.
use vstd::prelude::*;

use crate::game::{same_word, Dictionary, Guess, Guesser};
use crate::scoring::{mask_of, Correctness, Mask};
use crate::{Word, WORD_SIZE};

verus! {

/// A word with its frequency weight.
pub type Entry = (Word, u64);

/// No word occurs twice among the entries.
pub open spec fn unique_keys(s: Seq<Entry>) -> bool {
    forall|i: int, j: int| 0 <= i < s.len() && 0 <= j < s.len() && i != j ==> s[i].0 != s[j].0
}

/// The word-to-weight map that inserting the pairs in order builds: a later
/// pair for a word replaces an earlier one.
pub open spec fn table_map(s: Seq<Entry>) -> Map<Word, u64>
    decreases s.len(),
{
    if s.len() == 0 {
        Map::empty()
    } else {
        table_map(s.drop_last()).insert(s.last().0, s.last().1)
    }
}

proof fn lemma_table_map_update(s: Seq<Entry>, j: int, v: u64)
    requires
        unique_keys(s),
        0 <= j < s.len(),
    ensures
        table_map(s.update(j, (s[j].0, v))) == table_map(s).insert(s[j].0, v),
    decreases s.len(),
{
    let t = s.update(j, (s[j].0, v));
    if j == s.len() - 1 {
        assert(t.drop_last() =~= s.drop_last());
        assert(table_map(t) =~= table_map(s).insert(s[j].0, v));
    } else {
        assert(t.drop_last() =~= s.drop_last().update(j, (s[j].0, v)));
        assert(unique_keys(s.drop_last()));
        lemma_table_map_update(s.drop_last(), j, v);
        assert(s.last().0 != s[j].0);
        assert(table_map(t) =~= table_map(s).insert(s[j].0, v));
    }
}

/// A frequency table: each word once, with its weight.
#[derive(Clone)]
pub struct FrequencyTable {
    entries: Vec<Entry>,
}

impl View for FrequencyTable {
    type V = Seq<Entry>;

    closed spec fn view(&self) -> Seq<Entry> {
        self.entries@
    }
}

impl FrequencyTable {
    /// The entries, in order.
    pub fn entries(&self) -> (r: &Vec<Entry>)
        ensures
            r@ == self@,
    {
        &self.entries
    }

    /// The table of the given pairs; where a word comes more than once, its
    /// last weight counts.
    pub fn from_pairs(pairs: Vec<Entry>) -> (r: Self)
        ensures
            unique_keys(r@),
            table_map(r@) == table_map(pairs@),
    {
        let mut entries: Vec<Entry> = Vec::new();
        let mut i: usize = 0;
        while i < pairs.len()
            invariant
                i <= pairs@.len(),
                unique_keys(entries@),
                table_map(entries@) == table_map(pairs@.take(i as int)),
            decreases pairs@.len() - i,
        {
            let (word, weight) = pairs[i];
            let mut j: usize = 0;
            let mut found = false;
            while j < entries.len() && !found
                invariant
                    j <= entries@.len(),
                    found ==> j < entries@.len() && entries@[j as int].0 == word,
                    !found ==> forall|k: int| 0 <= k < j ==> entries@[k].0 != word,
                decreases entries@.len() - j + if found {
                    0int
                } else {
                    1int
                },
            {
                if same_word(&entries[j].0, &word) {
                    found = true;
                } else {
                    j = j + 1;
                }
            }
            assert(pairs@.take(i + 1).drop_last() =~= pairs@.take(i as int));
            let ghost before = entries@;
            if found {
                proof {
                    lemma_table_map_update(entries@, j as int, weight);
                }
                entries.set(j, (word, weight));
                assert(unique_keys(entries@));
            } else {
                entries.push((word, weight));
                assert(entries@.drop_last() =~= before);
            }
            i = i + 1;
        }
        assert(pairs@.take(pairs@.len() as int) =~= pairs@);
        FrequencyTable { entries }
    }
}

/// Whether `e`, taken as the answer, would have earned `g` its mask.
pub open spec fn fits(e: Entry, g: Guess) -> bool {
    mask_of(e.0@, g.word@) == g.mask@
}

/// The entries of `pool` that fit `g`, in their order.
pub open spec fn survivors(pool: Seq<Entry>, g: Guess) -> Seq<Entry>
    decreases pool.len(),
{
    if pool.len() == 0 {
        pool
    } else if fits(pool.last(), g) {
        survivors(pool.drop_last(), g).push(pool.last())
    } else {
        survivors(pool.drop_last(), g)
    }
}

/// The entries of `initial` that fit every guess of `past`.
pub open spec fn pool_after(initial: Seq<Entry>, past: Seq<Guess>) -> Seq<Entry>
    decreases past.len(),
{
    if past.len() == 0 {
        initial
    } else {
        survivors(pool_after(initial, past.drop_last()), past.last())
    }
}

/// Whether some entry of `pool` is for `w`.
pub open spec fn has_word(pool: Seq<Entry>, w: Word) -> bool {
    exists|i: int| 0 <= i < pool.len() && #[trigger] pool[i].0 == w
}

proof fn lemma_push_contains(s: Seq<Entry>, y: Entry, x: Entry)
    ensures
        s.push(y).contains(x) <==> s.contains(x) || x == y,
{
    if s.contains(x) {
        let k = choose|k: int| 0 <= k < s.len() && s[k] == x;
        assert(s.push(y)[k] == x);
    }
    if s.push(y).contains(x) && x != y {
        let k = choose|k: int| 0 <= k < s.len() + 1 && s.push(y)[k] == x;
        assert(s[k] == x);
    }
    assert(s.push(y)[s.len() as int] == y);
}

proof fn lemma_survivors_members(pool: Seq<Entry>, g: Guess)
    ensures
        forall|x: Entry| #[trigger] survivors(pool, g).contains(x) <==> pool.contains(x) && fits(x, g),
    decreases pool.len(),
{
    if pool.len() > 0 {
        let d = pool.drop_last();
        let l = pool.last();
        lemma_survivors_members(d, g);
        assert(d.push(l) =~= pool);
        assert forall|x: Entry| #[trigger] survivors(pool, g).contains(x) <==> pool.contains(x)
            && fits(x, g) by {
            lemma_push_contains(d, l, x);
            lemma_push_contains(survivors(d, g), l, x);
        }
    }
}

proof fn lemma_survivors_unique(pool: Seq<Entry>, g: Guess)
    requires
        unique_keys(pool),
    ensures
        unique_keys(survivors(pool, g)),
    decreases pool.len(),
{
    if pool.len() > 0 {
        assert(unique_keys(pool.drop_last()));
        lemma_survivors_unique(pool.drop_last(), g);
        if fits(pool.last(), g) {
            let t = survivors(pool.drop_last(), g);
            lemma_survivors_members(pool.drop_last(), g);
            assert forall|i: int| 0 <= i < t.len() implies #[trigger] t[i].0 != pool.last().0 by {
                assert(t.contains(t[i]));
                let k = choose|k: int|
                    0 <= k < pool.drop_last().len() && pool.drop_last()[k] == t[i];
                assert(pool[k] == t[i]);
            }
            let u = t.push(pool.last());
            assert forall|i: int, j: int|
                0 <= i < u.len() && 0 <= j < u.len() && i != j implies u[i].0 != u[j].0 by {
                if i < t.len() && j < t.len() {
                    assert(u[i] == t[i] && u[j] == t[j]);
                } else if i < t.len() {
                    assert(u[i] == t[i]);
                } else {
                    assert(u[j] == t[j]);
                }
            }
        }
    }
}

proof fn lemma_pool_after_unique(initial: Seq<Entry>, past: Seq<Guess>)
    requires
        unique_keys(initial),
    ensures
        unique_keys(pool_after(initial, past)),
    decreases past.len(),
{
    if past.len() > 0 {
        lemma_pool_after_unique(initial, past.drop_last());
        lemma_survivors_unique(pool_after(initial, past.drop_last()), past.last());
    }
}

/// Once a guess earns an all-green mask, the only entry left from a pool with
/// distinct words that holds the guessed word is the guessed word itself.
pub proof fn lemma_all_correct_leaves_guess(pool: Seq<Entry>, g: Guess)
    requires
        unique_keys(pool),
        has_word(pool, g.word),
        forall|i: int| 0 <= i < WORD_SIZE ==> g.mask@[i] == Correctness::Correct,
    ensures
        survivors(pool, g).len() == 1,
        survivors(pool, g)[0].0 == g.word,
{
    let t = survivors(pool, g);
    lemma_survivors_members(pool, g);
    lemma_survivors_unique(pool, g);
    assert forall|x: Entry| #[trigger] t.contains(x) implies x.0 == g.word by {
        assert forall|i: int| 0 <= i < WORD_SIZE implies x.0@[i] == g.word@[i] by {
            assert(mask_of(x.0@, g.word@)[i] == g.mask@[i]);
        }
        assert(x.0 =~= g.word);
    }
    let k = choose|k: int| 0 <= k < pool.len() && #[trigger] pool[k].0 == g.word;
    assert(pool.contains(pool[k]));
    crate::scoring::lemma_self_is_all_correct(g.word);
    assert(g.mask@ =~= mask_of(g.word@, g.word@));
    assert(t.contains(pool[k]));
    if t.len() > 1 {
        assert(t.contains(t[0]) && t.contains(t[1]));
    }
}

/// Whether two masks are the same.
fn same_mask(a: &Mask, b: &Mask) -> (r: bool)
    ensures
        r == (a@ == b@),
{
    let mut i: usize = 0;
    while i < WORD_SIZE
        invariant
            i <= WORD_SIZE,
            forall|k: int| 0 <= k < i ==> a@[k] == b@[k],
        decreases WORD_SIZE - i,
    {
        if a[i] != b[i] {
            return false;
        }
        i = i + 1;
    }
    assert(a@ =~= b@);
    true
}

/// The entries of `pool` that fit `last`, in their order.
pub fn retain_fitting(pool: &Vec<Entry>, last: &Guess) -> (r: Vec<Entry>)
    ensures
        r@ == survivors(pool@, *last),
{
    let mut kept: Vec<Entry> = Vec::new();
    let mut k: usize = 0;
    while k < pool.len()
        invariant
            k <= pool@.len(),
            kept@ == survivors(pool@.take(k as int), *last),
        decreases pool@.len() - k,
    {
        let entry = pool[k];
        let mask = Correctness::check(&entry.0, &last.word);
        assert(pool@.take(k + 1).drop_last() =~= pool@.take(k as int));
        assert(pool@.take(k + 1).last() == entry);
        if same_mask(&mask, &last.mask) {
            kept.push(entry);
        }
        k = k + 1;
    }
    assert(pool@.take(pool@.len() as int) =~= pool@);
    kept
}

/// The summed weight of the entries of `pool`.
pub open spec fn weight_total(pool: Seq<Entry>) -> int
    decreases pool.len(),
{
    if pool.len() == 0 {
        0
    } else {
        weight_total(pool.drop_last()) + pool.last().1
    }
}

/// The summed weight of the entries of `pool` that, taken as the answer,
/// would give `candidate` the mask `m`.
pub open spec fn mass(pool: Seq<Entry>, candidate: Word, m: Seq<Correctness>) -> int
    decreases pool.len(),
{
    if pool.len() == 0 {
        0
    } else {
        mass(pool.drop_last(), candidate, m) + if mask_of(pool.last().0@, candidate@) == m {
            pool.last().1 as int
        } else {
            0
        }
    }
}

proof fn lemma_mass_bounds(pool: Seq<Entry>, candidate: Word, m: Seq<Correctness>)
    ensures
        0 <= mass(pool, candidate, m) <= weight_total(pool),
        weight_total(pool) <= pool.len() * 0xffff_ffff_ffff_ffff,
        (forall|k: int| 0 <= k < pool.len() ==> mask_of(#[trigger] pool[k].0@, candidate@) != m)
            ==> mass(pool, candidate, m) == 0,
    decreases pool.len(),
{
    if pool.len() > 0 {
        lemma_mass_bounds(pool.drop_last(), candidate, m);
        let n = pool.len() as int;
        assert(weight_total(pool.drop_last()) + pool.last().1 <= n * 0xffff_ffff_ffff_ffff) by (nonlinear_arith)
            requires
                weight_total(pool.drop_last()) <= (n - 1) * 0xffff_ffff_ffff_ffff,
                pool.last().1 <= 0xffff_ffff_ffff_ffff,
        ;
        if forall|k: int| 0 <= k < pool.len() ==> mask_of(#[trigger] pool[k].0@, candidate@) != m {
            assert forall|k: int| 0 <= k < pool.drop_last().len() implies mask_of(
                #[trigger] pool.drop_last()[k].0@,
                candidate@,
            ) != m by {
                assert(pool.drop_last()[k] == pool[k]);
            }
            assert(pool.last() == pool[pool.len() - 1]);
        }
    }
}

proof fn lemma_total_fits(pool: Seq<Entry>)
    requires
        pool.len() <= usize::MAX,
    ensures
        weight_total(pool) < 0xffff_ffff_ffff_ffff_ffff_ffff_ffff_ffff,
{
    lemma_mass_bounds(pool, [0u8; WORD_SIZE], Seq::empty());
    let n = pool.len() as int;
    assert(n * 0xffff_ffff_ffff_ffff < 0xffff_ffff_ffff_ffff_ffff_ffff_ffff_ffff) by (nonlinear_arith)
        requires
            0 <= n <= 0xffff_ffff_ffff_ffff,
    ;
}

/// The summed weight of the pool.
fn total_weight(pool: &Vec<Entry>) -> (r: u128)
    ensures
        r == weight_total(pool@),
{
    let mut total: u128 = 0;
    let mut k: usize = 0;
    while k < pool.len()
        invariant
            k <= pool@.len(),
            total == weight_total(pool@.take(k as int)),
        decreases pool@.len() - k,
    {
        assert(pool@.take(k + 1).drop_last() =~= pool@.take(k as int));
        proof {
            lemma_total_fits(pool@.take(k + 1));
        }
        total = total + pool[k].1 as u128;
        k = k + 1;
    }
    assert(pool@.take(pool@.len() as int) =~= pool@);
    total
}

/// Whether some group of `groups` is for mask `m`.
pub open spec fn listed(groups: Seq<(Mask, u128)>, m: Seq<Correctness>) -> bool {
    exists|i: int| 0 <= i < groups.len() && #[trigger] groups[i].0@ == m
}

proof fn lemma_mass_step(pool: Seq<Entry>, candidate: Word, k: int)
    requires
        0 <= k < pool.len(),
    ensures
        forall|m: Seq<Correctness>| #[trigger]
            mass(pool.take(k + 1), candidate, m) == mass(pool.take(k), candidate, m) + if mask_of(
                pool[k].0@,
                candidate@,
            ) == m {
                pool[k].1 as int
            } else {
                0
            },
{
    assert(pool.take(k + 1).drop_last() =~= pool.take(k));
    assert(pool.take(k + 1).last() == pool[k]);
}

/// The outcomes of submitting `candidate` against every entry of `pool` taken
/// as the answer: each mask at most once, with the summed weight of the
/// entries that give it, and every mask that carries weight listed.
pub fn outcome_weights(pool: &Vec<Entry>, candidate: &Word) -> (r: Vec<(Mask, u128)>)
    ensures
        forall|i: int, j: int| 0 <= i < j < r@.len() ==> r@[i].0@ != r@[j].0@,
        forall|i: int|
            0 <= i < r@.len() ==> #[trigger] r@[i].1 == mass(pool@, *candidate, r@[i].0@),
        forall|m: Seq<Correctness>|
            !listed(r@, m) ==> #[trigger] mass(pool@, *candidate, m) == 0,
{
    let mut groups: Vec<(Mask, u128)> = Vec::new();
    let mut k: usize = 0;
    while k < pool.len()
        invariant
            k <= pool@.len(),
            forall|i: int, j: int| 0 <= i < j < groups@.len() ==> groups@[i].0@ != groups@[j].0@,
            forall|i: int|
                0 <= i < groups@.len() ==> #[trigger] groups@[i].1 == mass(
                    pool@.take(k as int),
                    *candidate,
                    groups@[i].0@,
                ),
            forall|m: Seq<Correctness>|
                !listed(groups@, m) ==> #[trigger] mass(pool@.take(k as int), *candidate, m) == 0,
        decreases pool@.len() - k,
    {
        let entry = pool[k];
        let mask = Correctness::check(&entry.0, candidate);
        let ghost prefix = pool@.take(k as int);
        let ghost next = pool@.take(k + 1);
        proof {
            lemma_mass_step(pool@, *candidate, k as int);
            lemma_total_fits(next);
            lemma_mass_bounds(next, *candidate, mask@);
        }
        let mut i: usize = 0;
        let mut found = false;
        while i < groups.len() && !found
            invariant
                i <= groups@.len(),
                found ==> i < groups@.len() && groups@[i as int].0@ == mask@,
                !found ==> forall|j: int| 0 <= j < i ==> groups@[j].0@ != mask@,
            decreases groups@.len() - i + if found {
                0int
            } else {
                1int
            },
        {
            if same_mask(&groups[i].0, &mask) {
                found = true;
            } else {
                i = i + 1;
            }
        }
        let ghost before = groups@;
        if found {
            let w = groups[i].1 + entry.1 as u128;
            groups.set(i, (mask, w));
        } else {
            assert(!listed(before, mask@));
            groups.push((mask, entry.1 as u128));
        }
        proof {
            assert(groups@.len() >= before.len());
            assert forall|j: int| 0 <= j < before.len() implies #[trigger] groups@[j].0@
                == before[j].0@ by {
                if !(found && j == i) {
                    assert(groups@[j] == before[j]);
                }
            }
            let at = if found {
                i as int
            } else {
                before.len() as int
            };
            assert(groups@[at].0@ == mask@);
            assert forall|j: int| 0 <= j < groups@.len() implies #[trigger] groups@[j].1 == mass(
                next,
                *candidate,
                groups@[j].0@,
            ) by {
                if j != at {
                    assert(groups@[j] == before[j]);
                }
            }
            assert forall|m: Seq<Correctness>| !listed(groups@, m) implies #[trigger] mass(
                next,
                *candidate,
                m,
            ) == 0 by {
                if listed(before, m) {
                    let j = choose|j: int| 0 <= j < before.len() && #[trigger] before[j].0@ == m;
                    assert(groups@[j].0@ == m);
                }
                if m == mask@ {
                    assert(groups@[at].0@ == m);
                }
                assert(mass(prefix, *candidate, m) == 0);
            }
            assert forall|a: int, b: int| 0 <= a < b < groups@.len() implies groups@[a].0@
                != groups@[b].0@ by {
                if a != at && b != at {
                    assert(groups@[a] == before[a] && groups@[b] == before[b]);
                } else if a == at {
                    assert(groups@[b] == before[b]);
                } else {
                    assert(groups@[a] == before[a]);
                }
            }
        }
        k = k + 1;
    }
    assert(pool@.take(pool@.len() as int) =~= pool@);
    groups
}

/// Whether a candidate with information `s1` and weight `w1` ranks above one
/// with `s2` and `w2`: more information, or as much and a higher weight.
pub open spec fn outranks(s1: u64, w1: u64, s2: u64, w2: u64) -> bool {
    s1 > s2 || (s1 == s2 && w1 > w2)
}

/// The place of the best candidate: none ranks above it, and it ranks above
/// every candidate before it, so among full ties the first wins.
pub fn best_candidate(pool: &Vec<Entry>, scores: &Vec<u64>) -> (r: usize)
    requires
        pool@.len() == scores@.len(),
        pool@.len() > 0,
    ensures
        r < pool@.len(),
        forall|j: int|
            0 <= j < pool@.len() ==> !outranks(
                #[trigger] scores@[j],
                pool@[j].1,
                scores@[r as int],
                pool@[r as int].1,
            ),
        forall|j: int|
            0 <= j < r ==> outranks(
                scores@[r as int],
                pool@[r as int].1,
                #[trigger] scores@[j],
                pool@[j].1,
            ),
{
    let mut best: usize = 0;
    let mut k: usize = 1;
    while k < pool.len()
        invariant
            pool@.len() == scores@.len(),
            best < k <= pool@.len(),
            forall|j: int|
                0 <= j < k ==> !outranks(
                    #[trigger] scores@[j],
                    pool@[j].1,
                    scores@[best as int],
                    pool@[best as int].1,
                ),
            forall|j: int|
                0 <= j < best ==> outranks(
                    scores@[best as int],
                    pool@[best as int].1,
                    #[trigger] scores@[j],
                    pool@[j].1,
                ),
        decreases pool@.len() - k,
    {
        if scores[k] > scores[best] || (scores[k] == scores[best] && pool[k].1 > pool[best].1) {
            best = k;
        }
        k = k + 1;
    }
    best
}

/// How much a guess is expected to reveal, from the weights of the masks it
/// may earn and their sum. Larger results mean more information; equal
/// results mean equal information.
pub trait InformationMeasure {
    fn information(&self, outcomes: &Vec<(Mask, u128)>, total: u128) -> u64;
}

/// The information-maximising guesser.
pub struct Unoptimized<'l, M> {
    dictionary: &'l Dictionary,
    remaining: Vec<Entry>,
    measure: M,
    initial: Ghost<Seq<Entry>>,
}

impl<'l, M: InformationMeasure> Unoptimized<'l, M> {
    /// A guesser over the legal words `dictionary` whose candidates start as
    /// the entries of `remaining`, ranking guesses with `measure`.
    pub fn new(dictionary: &'l Dictionary, remaining: FrequencyTable, measure: M) -> (r: Self)
        ensures
            r.dictionary() == dictionary@,
            r.initial() == remaining@,
            r.synced(Seq::empty()),
    {
        Unoptimized { dictionary, remaining: remaining.entries, measure, initial: Ghost(remaining@) }
    }

    /// The legal words.
    pub closed spec fn dictionary(&self) -> Set<Word> {
        self.dictionary@
    }

    /// The candidates before any guess.
    pub closed spec fn initial(&self) -> Seq<Entry> {
        self.initial@
    }

    /// The candidates that are left.
    pub closed spec fn remaining(&self) -> Seq<Entry> {
        self.remaining@
    }
}

impl<'l, M: InformationMeasure> Guesser for Unoptimized<'l, M> {
    /// Any word of a candidate that fits every graded guess so far.
    open spec fn may_guess(&self, past: Seq<Guess>, w: Word) -> bool {
        has_word(pool_after(self.initial(), past), w)
    }

    /// Some candidate fits every graded guess so far.
    open spec fn accepts(&self, past: Seq<Guess>) -> bool {
        pool_after(self.initial(), past).len() > 0
    }

    /// The candidates left fit every graded guess but the last.
    open spec fn synced(&self, past: Seq<Guess>) -> bool {
        self.remaining() == if past.len() == 0 {
            self.initial()
        } else {
            pool_after(self.initial(), past.drop_last())
        }
    }

    /// Narrows the candidates to those that fit the last graded guess, then
    /// submits the one whose outcomes carry the most information, the more
    /// frequent one on a tie.
    fn guess(&mut self, past_guesses: &[Guess]) -> (r: Word) {
        let n = past_guesses.len();
        if n > 0 {
            let last = past_guesses[n - 1];
            self.remaining = retain_fitting(&self.remaining, &last);
        }
        let total = total_weight(&self.remaining);
        let mut scores: Vec<u64> = Vec::new();
        let mut k: usize = 0;
        while k < self.remaining.len()
            invariant
                k <= self.remaining@.len(),
                scores@.len() == k,
            decreases self.remaining@.len() - k,
        {
            let outcomes = outcome_weights(&self.remaining, &self.remaining[k].0);
            scores.push(self.measure.information(&outcomes, total));
            k = k + 1;
        }
        let best = best_candidate(&self.remaining, &scores);
        proof {
            assert forall|g: Guess| #[trigger]
                past_guesses@.push(g).drop_last() == past_guesses@ by {
                assert(past_guesses@.push(g).drop_last() =~= past_guesses@);
            }
        }
        self.remaining[best].0
    }
}

/// A guesser whose candidates start out with distinct words: once a guess
/// earns an all-green mask, exactly one candidate is left, for the guessed
/// word, and that word is the only one it may submit next.
pub proof fn lemma_guesser_repeats_all_correct<M: InformationMeasure>(
    u: Unoptimized<M>,
    past: Seq<Guess>,
)
    requires
        unique_keys(u.initial()),
        past.len() > 0,
        has_word(pool_after(u.initial(), past.drop_last()), past.last().word),
        forall|i: int| 0 <= i < WORD_SIZE ==> past.last().mask@[i] == Correctness::Correct,
    ensures
        pool_after(u.initial(), past).len() == 1,
        pool_after(u.initial(), past)[0].0 == past.last().word,
        forall|w: Word| u.may_guess(past, w) ==> w == past.last().word,
{
    lemma_pool_after_unique(u.initial(), past.drop_last());
    lemma_all_correct_leaves_guess(pool_after(u.initial(), past.drop_last()), past.last());
}

/// The answer never leaves the candidates of a faithful game: a guesser that
/// starts with the answer among its candidates can guess on every turn.
pub proof fn lemma_answer_stays<M: InformationMeasure>(
    u: Unoptimized<M>,
    answer: Word,
    past: Seq<Guess>,
)
    requires
        has_word(u.initial(), answer),
        forall|i: int|
            0 <= i < past.len() ==> (#[trigger] past[i]).mask@ == mask_of(answer@, past[i].word@),
    ensures
        has_word(pool_after(u.initial(), past), answer),
        u.accepts(past),
    decreases past.len(),
{
    if past.len() > 0 {
        let d = past.drop_last();
        assert forall|i: int| 0 <= i < d.len() implies (#[trigger] d[i]).mask@ == mask_of(
            answer@,
            d[i].word@,
        ) by {
            assert(d[i] == past[i]);
        }
        lemma_answer_stays(u, answer, d);
        let pool = pool_after(u.initial(), d);
        let k = choose|k: int| 0 <= k < pool.len() && #[trigger] pool[k].0 == answer;
        lemma_survivors_members(pool, past.last());
        assert(pool.contains(pool[k]));
        assert(past.last() == past[past.len() - 1]);
        let t = survivors(pool, past.last());
        assert(t.contains(pool[k]));
        let j = choose|j: int| 0 <= j < t.len() && t[j] == pool[k];
        assert(t[j].0 == answer);
    }
}

/// The candidates only ever shrink: every entry left after a history is one
/// of the entries the guesser started with, so every word it may submit is one
/// of its initial words.
pub proof fn lemma_pool_shrinks<M: InformationMeasure>(u: Unoptimized<M>, past: Seq<Guess>)
    ensures
        forall|x: Entry| #[trigger] pool_after(u.initial(), past).contains(x) ==> u.initial().contains(x),
        forall|w: Word| u.may_guess(past, w) ==> has_word(u.initial(), w),
    decreases past.len(),
{
    if past.len() > 0 {
        lemma_pool_shrinks(u, past.drop_last());
        lemma_survivors_members(pool_after(u.initial(), past.drop_last()), past.last());
    }
    assert forall|w: Word| u.may_guess(past, w) implies has_word(u.initial(), w) by {
        let pool = pool_after(u.initial(), past);
        let i = choose|i: int| 0 <= i < pool.len() && #[trigger] pool[i].0 == w;
        assert(pool.contains(pool[i]));
        let k = choose|k: int| 0 <= k < u.initial().len() && u.initial()[k] == pool[i];
        assert(u.initial()[k].0 == w);
    }
}

} // verus!
