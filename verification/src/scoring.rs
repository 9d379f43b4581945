//! Scoring of letters and words against the current candidate list.
//!
//! A letter is most informative when it splits the candidate list in half:
//! its score peaks at `half = n / 2` occurrences and falls off towards 0
//! (all or none). A word scores the sum over its distinct letters, with the
//! contribution of letters already known present zeroed in the early game
//! and doubled in the late game.

use crate::letters::{is_letter, letters_of, word_views, LetterCount, LetterSet, LOWER_A};
use vstd::prelude::*;

verus! {

/// The largest candidate list the scorer accepts; keeps every score well
/// inside the `isize` range on any platform.
pub const MAX_WORDS: usize = 16777216;

/// How many of the words contain the given letter at least once; duplicates
/// within one word count once.
pub open spec fn count_containing(words: Seq<Seq<u8>>, letter: u8) -> nat
    decreases words.len(),
{
    if words.len() == 0 {
        0
    } else {
        count_containing(words.drop_last(), letter) + if letters_of(words.last()).contains(
            letter,
        ) {
            1nat
        } else {
            0nat
        }
    }
}

/// Half the number of words, rounded down.
pub open spec fn spec_half(words: Seq<Seq<u8>>) -> int {
    words.len() as int / 2
}

/// A letter's score: its distance below the peak at `half` occurrences.
pub open spec fn spec_letter_score(words: Seq<Seq<u8>>, letter: u8) -> int {
    let half = spec_half(words);
    let cnt = count_containing(words, letter) as int;
    if cnt >= half {
        half - (cnt - half)
    } else {
        half - (half - cnt)
    }
}

/// A letter's contribution to a word score, adjusted for the game phase:
/// early play skips letters already known present, late play doubles them.
pub open spec fn adjusted_score(score: int, present: bool, early: bool) -> int {
    if early {
        if present {
            0
        } else {
            score
        }
    } else {
        if present {
            2 * score
        } else {
            score
        }
    }
}

/// The word score accumulated over the first `k` letters of the alphabet.
pub open spec fn word_score_upto(
    words: Seq<Seq<u8>>,
    wset: Set<u8>,
    present: Set<u8>,
    early: bool,
    k: int,
) -> int
    decreases k,
{
    if k <= 0 {
        0
    } else {
        let letter = (LOWER_A + k - 1) as u8;
        word_score_upto(words, wset, present, early, k - 1) + if wset.contains(letter) {
            adjusted_score(spec_letter_score(words, letter), present.contains(letter), early)
        } else {
            0
        }
    }
}

/// The score of a word: the sum of the adjusted scores of its distinct
/// letters.
pub open spec fn spec_word_score(
    words: Seq<Seq<u8>>,
    wset: Set<u8>,
    present: Set<u8>,
    early: bool,
) -> int {
    word_score_upto(words, wset, present, early, 26)
}

/// No letter occurs in more words than there are.
pub proof fn lemma_count_le_len(words: Seq<Seq<u8>>, letter: u8)
    ensures
        count_containing(words, letter) <= words.len(),
    decreases words.len(),
{
    if words.len() > 0 {
        lemma_count_le_len(words.drop_last(), letter);
    }
}

/// A letter's score never exceeds `half` and never falls below -1.
pub proof fn lemma_letter_score_range(words: Seq<Seq<u8>>, letter: u8)
    ensures
        -1 <= spec_letter_score(words, letter) <= spec_half(words),
        0 <= spec_half(words) <= words.len(),
{
    lemma_count_le_len(words, letter);
}

/// Running bounds for the word-score sum, used to rule out overflow.
proof fn lemma_word_score_upto_bounds(
    words: Seq<Seq<u8>>,
    wset: Set<u8>,
    present: Set<u8>,
    early: bool,
    k: int,
)
    requires
        0 <= k <= 26,
        words.len() <= MAX_WORDS,
    ensures
        -2 * k <= word_score_upto(words, wset, present, early, k) <= 2 * k * (MAX_WORDS as int),
    decreases k,
{
    if k > 0 {
        lemma_word_score_upto_bounds(words, wset, present, early, k - 1);
        lemma_letter_score_range(words, (LOWER_A + k - 1) as u8);
    }
}

/// Extending the word list by one word raises each letter's count by one
/// exactly when the new word contains the letter.
proof fn lemma_count_take_succ(words: Seq<Seq<u8>>, i: int, letter: u8)
    requires
        0 <= i < words.len(),
    ensures
        count_containing(words.take(i + 1), letter) == count_containing(words.take(i), letter)
            + if letters_of(words[i]).contains(letter) {
            1int
        } else {
            0int
        },
{
    assert(words.take(i + 1).drop_last() =~= words.take(i));
    assert(words.take(i + 1).last() == words[i]);
}

/// The scorer derived from one candidate list: `half` and, for each letter,
/// the number of candidates containing it.
pub struct Scoring {
    half: isize,
    count: LetterCount,
    words: Ghost<Seq<Seq<u8>>>,
}

impl Scoring {
    /// The word list the scorer was built over.
    pub closed spec fn words(self) -> Seq<Seq<u8>> {
        self.words@
    }

    /// The stored state matches the word list.
    pub closed spec fn wf(self) -> bool {
        &&& self.count.wf()
        &&& self.words@.len() <= MAX_WORDS
        &&& self.half == spec_half(self.words@)
        &&& forall|l: u8| self.count.spec_get(l) == count_containing(self.words@, l)
    }

    /// Build the scorer over a candidate list.
    pub fn new(words: &Vec<Vec<u8>>) -> (r: Scoring)
        requires
            words@.len() <= MAX_WORDS,
        ensures
            r.wf(),
            r.words() == word_views(words@),
    {
        let ghost all = word_views(words@);
        let mut count = LetterCount::new();
        let half = (words.len() as isize) / 2;
        let n = words.len();
        proof {
            assert(all.take(0) =~= Seq::<Seq<u8>>::empty());
        }
        for i in 0..n
            invariant
                n == words@.len(),
                words@.len() <= MAX_WORDS,
                all == word_views(words@),
                count.wf(),
                forall|l: u8|
                    count.spec_get(l) == count_containing(#[trigger] all.take(i as int), l),
        {
            let word_set = LetterSet::from_word(&words[i]);
            let mut j: u8 = 0;
            while j < 26
                invariant
                    j <= 26,
                    0 <= i < n == words@.len(),
                    words@.len() <= MAX_WORDS,
                    all == word_views(words@),
                    count.wf(),
                    word_set@ == letters_of(all[i as int]),
                    forall|l: u8|
                        is_letter(l) && l - LOWER_A < j ==> count.spec_get(l) == count_containing(
                            #[trigger] all.take(i + 1),
                            l,
                        ),
                    forall|l: u8|
                        !(is_letter(l) && l - LOWER_A < j) ==> count.spec_get(l)
                            == count_containing(#[trigger] all.take(i as int), l),
                decreases 26 - j,
            {
                let letter = LOWER_A + j;
                proof {
                    lemma_count_le_len(all.take(i as int), letter);
                    assert(all.take(i as int).len() == i);
                    lemma_count_take_succ(all, i as int, letter);
                }
                if word_set.contains(letter) {
                    count.increment(letter);
                }
                j += 1;
            }
            proof {
                assert forall|l: u8| count.spec_get(l) == count_containing(
                    #[trigger] all.take(i + 1),
                    l,
                ) by {
                    if !is_letter(l) {
                        lemma_count_take_succ(all, i as int, l);
                        assert(!letters_of(all[i as int]).contains(l));
                    }
                }
            }
        }
        proof {
            assert(all.take(n as int) =~= all);
        }
        Scoring { half, count, words: Ghost(all) }
    }

    /// The highest score a letter can reach: half the candidate count.
    pub fn max_score(&self) -> (r: isize)
        requires
            self.wf(),
        ensures
            r == spec_half(self.words()),
    {
        self.half
    }

    /// The score of one letter against the candidate list.
    pub fn letter_score(&self, letter: u8) -> (r: isize)
        requires
            self.wf(),
        ensures
            r == spec_letter_score(self.words(), letter),
    {
        let cnt = self.count.get(letter);
        proof {
            lemma_count_le_len(self.words@, letter);
        }
        let c = cnt as isize;
        let d = if c >= self.half {
            c - self.half
        } else {
            self.half - c
        };
        self.half - d
    }

    /// The score of a word: the sum of the adjusted scores of its distinct
    /// letters; repeated letters count once.
    pub fn word_score(&self, word: &Vec<u8>, present_letters: &LetterSet, early: bool) -> (r:
        isize)
        requires
            self.wf(),
        ensures
            r == spec_word_score(self.words(), letters_of(word@), present_letters@, early),
    {
        let set = LetterSet::from_word(word);
        let mut total: isize = 0;
        let mut j: u8 = 0;
        while j < 26
            invariant
                j <= 26,
                self.wf(),
                set@ == letters_of(word@),
                total == word_score_upto(
                    self.words(),
                    set@,
                    present_letters@,
                    early,
                    j as int,
                ),
            decreases 26 - j,
        {
            let letter = LOWER_A + j;
            if set.contains(letter) {
                let score = self.letter_score(letter);
                proof {
                    lemma_letter_score_range(self.words(), letter);
                }
                let adjust = if early {
                    if present_letters.contains(letter) {
                        0
                    } else {
                        score
                    }
                } else {
                    if present_letters.contains(letter) {
                        score * 2
                    } else {
                        score
                    }
                };
                proof {
                    lemma_word_score_upto_bounds(
                        self.words(),
                        set@,
                        present_letters@,
                        early,
                        j + 1,
                    );
                }
                total = total + adjust;
            }
            j += 1;
        }
        total
    }
}

/// All 26 letters with their scores, ordered by descending score. Each
/// letter appears exactly once; the order among equal scores is not
/// specified.
pub fn letter_scores_desc(scorer: &Scoring) -> (r: Vec<(u8, isize)>)
    requires
        scorer.wf(),
    ensures
        r@.len() == 26,
        forall|i: int|
            0 <= i < 26 ==> is_letter((#[trigger] r@[i]).0) && r@[i].1 == spec_letter_score(
                scorer.words(),
                r@[i].0,
            ),
        forall|i: int, j: int| 0 <= i < j < 26 ==> (#[trigger] r@[i]).1 >= (#[trigger] r@[j]).1,
        forall|l: u8|
            is_letter(l) ==> exists|i: int| 0 <= i < 26 && (#[trigger] r@[i]).0 == l,
{
    let mut src: Vec<(u8, isize)> = Vec::new();
    let mut j: u8 = 0;
    while j < 26
        invariant
            j <= 26,
            scorer.wf(),
            src@.len() == j,
            forall|t: int|
                0 <= t < j ==> (#[trigger] src@[t]).0 == LOWER_A + t && src@[t].1
                    == spec_letter_score(scorer.words(), src@[t].0),
        decreases 26 - j,
    {
        let letter = LOWER_A + j;
        let score = scorer.letter_score(letter);
        src.push((letter, score));
        j += 1;
    }
    proof {
        assert forall|l: u8| is_letter(l) implies src@.contains((
            l,
            spec_letter_score(scorer.words(), l) as isize,
        )) by {
            assert(src@[l - LOWER_A].0 == l);
        }
    }
    let ghost items = src@;
    let mut out: Vec<(u8, isize)> = Vec::new();
    while src.len() > 0
        invariant
            scorer.wf(),
            out@.len() + src@.len() == 26,
            forall|t: int|
                0 <= t < out@.len() ==> is_letter((#[trigger] out@[t]).0) && out@[t].1
                    == spec_letter_score(scorer.words(), out@[t].0),
            forall|t: int|
                0 <= t < src@.len() ==> is_letter((#[trigger] src@[t]).0) && src@[t].1
                    == spec_letter_score(scorer.words(), src@[t].0),
            forall|a: int, b: int|
                0 <= a < b < out@.len() ==> (#[trigger] out@[a]).1 >= (#[trigger] out@[b]).1,
            forall|a: int, b: int|
                0 <= a < out@.len() && 0 <= b < src@.len() ==> (#[trigger] out@[a]).1 >= (
                #[trigger] src@[b]).1,
            forall|l: u8|
                is_letter(l) ==> items.contains((l, spec_letter_score(scorer.words(), l) as isize)),
            forall|p: (u8, isize)| items.contains(p) ==> out@.contains(p) || src@.contains(p),
        decreases src.len(),
    {
        let mut best: usize = 0;
        let mut best_score = src[0].1;
        let mut k: usize = 1;
        while k < src.len()
            invariant
                src@.len() > 0,
                best < src@.len(),
                k <= src@.len(),
                best_score == src@[best as int].1,
                forall|t: int| 0 <= t < k ==> (#[trigger] src@[t]).1 <= best_score,
            decreases src@.len() - k,
        {
            if src[k].1 > best_score {
                best = k;
                best_score = src[k].1;
            }
            k += 1;
        }
        let ghost src0 = src@;
        let ghost out0 = out@;
        let item = src.remove(best);
        out.push(item);
        proof {
            assert(src@ =~= src0.remove(best as int));
            assert(out@ =~= out0.push(item));
            assert forall|p: (u8, isize)| items.contains(p) implies out@.contains(p)
                || src@.contains(p) by {
                if out0.contains(p) {
                    let t = choose|t: int| 0 <= t < out0.len() && out0[t] == p;
                    assert(out@[t] == p);
                } else {
                    let t = choose|t: int| 0 <= t < src0.len() && src0[t] == p;
                    if t == best as int {
                        assert(out@[out0.len() as int] == p);
                    } else if t < best as int {
                        assert(src@[t] == p);
                    } else {
                        assert(src@[t - 1] == p);
                    }
                }
            }
            assert forall|b: int| 0 <= b < src@.len() implies item.1 >= (#[trigger] src@[b]).1 by {
                if b < best as int {
                    assert(src@[b] == src0[b]);
                } else {
                    assert(src@[b] == src0[b + 1]);
                }
            }
        }
    }
    proof {
        assert forall|l: u8| is_letter(l) implies exists|i: int|
            0 <= i < 26 && (#[trigger] out@[i]).0 == l by {
            let p = (l, spec_letter_score(scorer.words(), l) as isize);
            assert(items.contains(p));
            assert(out@.contains(p));
            let i = choose|i: int| 0 <= i < out@.len() && out@[i] == p;
            assert(out@[i].0 == l);
        }
    }
    out
}

/// A letter's score lies between 0 and `max_score`, and reaches `max_score`
/// exactly when the letter occurs in exactly half of the words. A letter
/// occurring in every word of an odd-sized list is excluded: its score is
/// negative there.
pub proof fn lemma_letter_score_bounds(words: Seq<Seq<u8>>, letter: u8)
    requires
        words.len() >= 2,
        !(words.len() % 2 == 1 && count_containing(words, letter) == words.len()),
    ensures
        0 <= spec_letter_score(words, letter) <= spec_half(words),
        spec_letter_score(words, letter) == spec_half(words) <==> count_containing(words, letter)
            == spec_half(words),
{
    lemma_count_le_len(words, letter);
}

/// Repeating a letter already in a word leaves the word's score unchanged:
/// the score depends only on the set of distinct letters.
pub proof fn lemma_word_score_repetition(
    words: Seq<Seq<u8>>,
    w: Seq<u8>,
    b: u8,
    present: Set<u8>,
    early: bool,
)
    requires
        w.contains(b),
    ensures
        spec_word_score(words, letters_of(w.push(b)), present, early) == spec_word_score(
            words,
            letters_of(w),
            present,
            early,
        ),
{
    crate::letters::lemma_letters_of_push(w, b);
    if is_letter(b) {
        assert(letters_of(w).insert(b) =~= letters_of(w));
    }
}

} // verus!
