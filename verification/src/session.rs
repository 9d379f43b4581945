//! One solving session: the engine behind the interactive loop.
//!
//! A round rescores the candidates, shows the early-game and late-game
//! top lists, accepts the picked word and its feedback, folds the feedback
//! into the constraints and filters the candidates. The prompt loop itself
//! lives outside the library; it validates input with [`validate_pick`] and
//! drives the state with [`Session::ranked`] and [`Session::apply_round`].

use crate::constraints::{
    apply_feedback_model, bad_positions, empty_model, Constraints, ConstraintsModel, FB_GREEN,
    FB_GREY,
};
use crate::filter::{filter_model, filter_words, position_ok, spec_word_ok, word_pred};
use crate::letters::{
    copy_word, copy_words, is_letter, letters_of, valid_word, word_views, LetterSet, LOWER_A,
    LOWER_Z,
};
use crate::scoring::{spec_word_score, Scoring, MAX_WORDS};
use vstd::prelude::*;
use vstd::seq_lib::group_filter_ensures;
use vstd::seq_lib::group_to_multiset_ensures;

verus! {

/// Why a submitted pick is rejected.
#[derive(Clone, Copy, PartialEq, Eq, Structural, Debug)]
pub enum PickError {
    /// The word's length is not the configured length.
    WrongLength,
    /// The word holds a byte outside the lowercase alphabet.
    InvalidChar,
    /// The word consists solely of `o` and `x`: a feedback pattern was
    /// typed where a guess belongs.
    PatternOnly,
}

/// A word that looks like a feedback pattern: nothing but `o` and `x`.
pub open spec fn pattern_only(w: Seq<u8>) -> bool {
    forall|i: int| 0 <= i < w.len() ==> (#[trigger] w[i] == FB_GREEN || w[i] == FB_GREY)
}

/// A pick the engine accepts: right length, lowercase letters only, and not
/// a bare feedback pattern.
pub open spec fn acceptable_pick(w: Seq<u8>, length: int) -> bool {
    valid_word(w, length) && !pattern_only(w)
}

/// Check a word submitted at the pick prompt. Returns the first applicable
/// rejection, in the order: wrong length, invalid character, pattern-only.
pub fn validate_pick(word: &Vec<u8>, length: usize) -> (r: Option<PickError>)
    ensures
        r is None <==> acceptable_pick(word@, length as int),
        r == Some(PickError::WrongLength) <==> word@.len() != length,
        r == Some(PickError::InvalidChar) <==> (word@.len() == length && exists|i: int|
            0 <= i < word@.len() && !is_letter(#[trigger] word@[i])),
        r == Some(PickError::PatternOnly) <==> (valid_word(word@, length as int) && pattern_only(
            word@,
        )),
{
    if word.len() != length {
        return Some(PickError::WrongLength);
    }
    let n = word.len();
    for i in 0..n
        invariant
            n == word@.len(),
            word@.len() == length,
            forall|t: int| 0 <= t < i ==> is_letter(#[trigger] word@[t]),
    {
        let b = word[i];
        if b < LOWER_A || b > LOWER_Z {
            proof {
                assert(!is_letter(word@[i as int]));
            }
            return Some(PickError::InvalidChar);
        }
    }
    let mut all_pattern = true;
    for i in 0..n
        invariant
            n == word@.len(),
            word@.len() == length,
            forall|t: int| 0 <= t < word@.len() ==> is_letter(#[trigger] word@[t]),
            all_pattern == (forall|t: int|
                0 <= t < i ==> (#[trigger] word@[t] == FB_GREEN || word@[t] == FB_GREY)),
    {
        let b = word[i];
        if b != FB_GREEN && b != FB_GREY {
            all_pattern = false;
        }
    }
    if all_pattern {
        Some(PickError::PatternOnly)
    } else {
        None
    }
}

/// The score a word sorts by.
pub open spec fn word_key(
    words: Seq<Seq<u8>>,
    present: Set<u8>,
    early: bool,
    w: Seq<u8>,
) -> int {
    spec_word_score(words, letters_of(w), present, early)
}

/// A list sorted by descending word score against the given candidate list.
pub open spec fn sorted_desc(
    words: Seq<Seq<u8>>,
    present: Set<u8>,
    early: bool,
    s: Seq<Seq<u8>>,
) -> bool {
    forall|a: int, b: int|
        0 <= a < b < s.len() ==> word_key(words, present, early, #[trigger] s[a]) >= word_key(
            words,
            present,
            early,
            #[trigger] s[b],
        )
}

/// Sort a word list by descending score. The result holds exactly the given
/// words; the order among equal scores is not specified.
fn sort_by_score_desc(
    scorer: &Scoring,
    present: &LetterSet,
    early: bool,
    pool: &Vec<Vec<u8>>,
) -> (r: Vec<Vec<u8>>)
    requires
        scorer.wf(),
    ensures
        word_views(r@).to_multiset() == word_views(pool@).to_multiset(),
        sorted_desc(scorer.words(), present@, early, word_views(r@)),
{
    broadcast use group_to_multiset_ensures;

    let ghost all = word_views(pool@);
    let mut src = copy_words(pool);
    let mut out: Vec<Vec<u8>> = Vec::new();
    proof {
        assert(word_views(out@) =~= Seq::<Seq<u8>>::empty());
        assert(word_views(out@).to_multiset().add(word_views(src@).to_multiset())
            =~= all.to_multiset());
    }
    while src.len() > 0
        invariant
            scorer.wf(),
            all == word_views(pool@),
            word_views(out@).to_multiset().add(word_views(src@).to_multiset())
                == all.to_multiset(),
            sorted_desc(scorer.words(), present@, early, word_views(out@)),
            forall|a: int, b: int|
                0 <= a < out@.len() && 0 <= b < src@.len() ==> word_key(
                    scorer.words(),
                    present@,
                    early,
                    #[trigger] word_views(out@)[a],
                ) >= word_key(scorer.words(), present@, early, #[trigger] word_views(src@)[b]),
        decreases src.len(),
    {
        let mut best: usize = 0;
        let mut best_score = scorer.word_score(&src[0], present, early);
        let mut k: usize = 1;
        while k < src.len()
            invariant
                scorer.wf(),
                src@.len() > 0,
                best < src@.len(),
                k <= src@.len(),
                best_score == word_key(scorer.words(), present@, early, src@[best as int]@),
                forall|t: int|
                    0 <= t < k ==> word_key(scorer.words(), present@, early, (
                    #[trigger] src@[t])@) <= best_score,
            decreases src@.len() - k,
        {
            let sc = scorer.word_score(&src[k], present, early);
            if sc > best_score {
                best = k;
                best_score = sc;
            }
            k += 1;
        }
        let ghost src0 = word_views(src@);
        let ghost out0 = word_views(out@);
        let ghost picked_view = src0[best as int];
        let w = src.remove(best);
        out.push(w);
        proof {
            src0.to_multiset_ensures();
            out0.to_multiset_ensures();
            assert(word_views(src@) =~= src0.remove(best as int));
            assert(word_views(out@) =~= out0.push(picked_view));
            assert(src0.contains(picked_view));
            assert(src0.to_multiset().count(picked_view) > 0);
            assert(word_views(out@).to_multiset() =~= out0.to_multiset().insert(picked_view));
            assert(word_views(src@).to_multiset() =~= src0.to_multiset().remove(picked_view));
            assert(word_views(out@).to_multiset().add(word_views(src@).to_multiset())
                =~= out0.to_multiset().add(src0.to_multiset()));
            assert forall|b: int| 0 <= b < word_views(src@).len() implies word_key(
                scorer.words(),
                present@,
                early,
                picked_view,
            ) >= word_key(scorer.words(), present@, early, #[trigger] word_views(src@)[b]) by {
                if b < best as int {
                    assert(word_views(src@)[b] == src0[b]);
                } else {
                    assert(word_views(src@)[b] == src0[b + 1]);
                }
            }
        }
    }
    out
}

/// The first `k` entries of a word list (all of it when it is shorter).
pub fn top_k(words: &Vec<Vec<u8>>, k: usize) -> (r: Vec<Vec<u8>>)
    ensures
        word_views(r@) == word_views(words@).take(
            if k <= words@.len() {
                k as int
            } else {
                words@.len() as int
            },
        ),
{
    let n = if k <= words.len() {
        k
    } else {
        words.len()
    };
    let mut r: Vec<Vec<u8>> = Vec::new();
    for i in 0..n
        invariant
            n <= words@.len(),
            r@.len() == i,
            word_views(r@) =~= word_views(words@).take(i as int),
    {
        let w = copy_word(&words[i]);
        r.push(w);
        proof {
            assert(word_views(r@) =~= word_views(words@).take(i + 1));
        }
    }
    proof {
        assert(word_views(words@).take(n as int) == word_views(words@).take(
            if k <= words@.len() {
                k as int
            } else {
                words@.len() as int
            },
        ));
    }
    r
}

/// One solving session: the full dictionary, the candidates still possible,
/// and the accumulated constraints.
pub struct Session {
    length: usize,
    dictionary: Vec<Vec<u8>>,
    candidates: Vec<Vec<u8>>,
    constraints: Constraints,
}

impl Session {
    /// The configured word length.
    pub closed spec fn length_spec(self) -> int {
        self.length as int
    }

    /// The full dictionary, never narrowed.
    pub closed spec fn dict(self) -> Seq<Seq<u8>> {
        word_views(self.dictionary@)
    }

    /// The words still consistent with every constraint.
    pub closed spec fn candidates_view(self) -> Seq<Seq<u8>> {
        word_views(self.candidates@)
    }

    /// The accumulated constraints.
    pub closed spec fn constraints_model(self) -> ConstraintsModel {
        self.constraints@
    }

    /// The session invariant: words have the configured length and hold
    /// letters only, and every candidate is consistent with the
    /// constraints.
    pub closed spec fn wf(self) -> bool {
        &&& self.length > 0
        &&& self.constraints@.wf()
        &&& self.constraints@.len() == self.length
        &&& self.dictionary@.len() <= MAX_WORDS
        &&& self.candidates@.len() <= MAX_WORDS
        &&& forall|i: int|
            0 <= i < self.dict().len() ==> valid_word(#[trigger] self.dict()[i], self.length as int)
        &&& forall|i: int|
            0 <= i < self.candidates_view().len() ==> valid_word(
                #[trigger] self.candidates_view()[i],
                self.length as int,
            )
        &&& forall|i: int|
            0 <= i < self.candidates_view().len() ==> spec_word_ok(
                self.constraints@,
                #[trigger] self.candidates_view()[i],
            )
    }

    /// Start a session: the candidates are the whole dictionary, nothing is
    /// known yet.
    pub fn new(dictionary: Vec<Vec<u8>>, length: usize) -> (r: Session)
        requires
            length > 0,
            dictionary@.len() <= MAX_WORDS,
            forall|i: int|
                0 <= i < dictionary@.len() ==> valid_word(
                    (#[trigger] dictionary@[i])@,
                    length as int,
                ),
        ensures
            r.wf(),
            r.length_spec() == length,
            r.dict() == word_views(dictionary@),
            r.candidates_view() == word_views(dictionary@),
            r.constraints_model() == empty_model(length as int),
    {
        let candidates = copy_words(&dictionary);
        let constraints = Constraints::new(length);
        let r = Session { length, dictionary, candidates, constraints };
        proof {
            assert forall|i: int| 0 <= i < r.candidates_view().len() implies spec_word_ok(
                r.constraints@,
                #[trigger] r.candidates_view()[i],
            ) by {
                let w = r.candidates_view()[i];
                assert forall|t: int| 0 <= t < w.len() implies #[trigger] position_ok(
                    r.constraints@,
                    w,
                    t,
                ) by {
                    assert(r.constraints@.fixed[t] is None);
                    assert(r.constraints@.forbidden_position[t] == Set::<u8>::empty());
                }
            }
        }
        r
    }

    /// The configured word length.
    pub fn length(&self) -> (r: usize)
        ensures
            r == self.length_spec(),
    {
        self.length
    }

    /// The letters known to appear somewhere in the answer.
    pub fn present_letters(&self) -> (r: LetterSet)
        ensures
            r@ == self.constraints_model().present_everywhere,
    {
        self.constraints.present_everywhere()
    }

    /// A copy of the current candidate list, in its stored order.
    pub fn candidates_list(&self) -> (r: Vec<Vec<u8>>)
        ensures
            word_views(r@) == self.candidates_view(),
    {
        copy_words(&self.candidates)
    }

    /// The ranked display list for one game phase: the early list ranks the
    /// whole dictionary, the late list the current candidates; both score
    /// against the current candidates.
    pub fn ranked(&self, early: bool) -> (r: Vec<Vec<u8>>)
        requires
            self.wf(),
        ensures
            word_views(r@).to_multiset() == (if early {
                self.dict()
            } else {
                self.candidates_view()
            }).to_multiset(),
            sorted_desc(
                self.candidates_view(),
                self.constraints_model().present_everywhere,
                early,
                word_views(r@),
            ),
    {
        let scorer = Scoring::new(&self.candidates);
        let present = self.constraints.present_everywhere();
        if early {
            sort_by_score_desc(&scorer, &present, true, &self.dictionary)
        } else {
            sort_by_score_desc(&scorer, &present, false, &self.candidates)
        }
    }

    /// Fold one round's feedback into the constraints and filter the
    /// candidates down to the words still consistent. Returns the feedback
    /// positions whose byte was not in the feedback alphabet; those
    /// positions changed nothing, the others still applied.
    pub fn apply_round(&mut self, picked: &Vec<u8>, feedback: &Vec<u8>) -> (bad: Vec<usize>)
        requires
            old(self).wf(),
            picked@.len() == old(self).length_spec(),
            feedback@.len() == old(self).length_spec(),
            forall|i: int| 0 <= i < picked@.len() ==> is_letter(#[trigger] picked@[i]),
        ensures
            final(self).wf(),
            final(self).length_spec() == old(self).length_spec(),
            final(self).dict() == old(self).dict(),
            final(self).constraints_model() == apply_feedback_model(
                old(self).constraints_model(),
                picked@,
                feedback@,
                old(self).length_spec(),
            ),
            final(self).candidates_view() == filter_model(
                old(self).candidates_view(),
                final(self).constraints_model(),
            ),
            bad@ == bad_positions(feedback@, old(self).length_spec()),
    {
        broadcast use group_filter_ensures;

        let bad = self.constraints.apply_feedback(picked, feedback);
        proof {
            assert forall|i: int| 0 <= i < self.candidates@.len() implies (
            #[trigger] self.candidates@[i])@.len() == self.constraints@.len() by {
                assert(valid_word(old(self).candidates_view()[i], old(self).length_spec()));
                assert(old(self).candidates_view()[i] == self.candidates@[i]@);
            }
        }
        let new_candidates = filter_words(&self.candidates, &self.constraints);
        self.candidates = new_candidates;
        proof {
            let c = self.constraints@;
            let before = old(self).candidates_view();
            let after = self.candidates_view();
            assert(after == before.filter(word_pred(c)));
            assert(after.len() <= before.len()) by {
                before.lemma_filter_len(word_pred(c));
            }
            assert(self.candidates@.len() == after.len());
            assert forall|i: int| 0 <= i < after.len() implies valid_word(
                #[trigger] after[i],
                self.length as int,
            ) && spec_word_ok(c, after[i]) by {
                before.lemma_filter_pred(word_pred(c), i);
                assert(word_pred(c)(after[i]) == spec_word_ok(c, after[i]));
                assert(after.contains(after[i]));
                before.lemma_filter_contains_rev(word_pred(c), after[i]);
                let t = choose|t: int| 0 <= t < before.len() && before[t] == after[i];
                assert(valid_word(before[t], self.length as int));
            }
            assert(self.dict() == old(self).dict());
            assert forall|i: int| 0 <= i < self.dict().len() implies valid_word(
                #[trigger] self.dict()[i],
                self.length as int,
            ) by {
                assert(valid_word(old(self).dict()[i], old(self).length_spec()));
            }
        }
        bad
    }
}

} // verus!
