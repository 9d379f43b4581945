//! Reducing the candidate list to the words consistent with the
//! accumulated constraints.
//!
//! A word survives when no letter of it is banned outright, every fixed
//! position carries its fixed letter, and no letter stands at a position it
//! is forbidden from. Known-present letters are deliberately not required
//! to occur: the original design leaves that to the scoring.

use crate::constraints::{Constraints, ConstraintsModel};
use crate::letters::{copy_word, word_views};
use vstd::prelude::*;
use vstd::seq_lib::group_filter_ensures;

verus! {

/// One position of a word against the constraints.
pub open spec fn position_ok(c: ConstraintsModel, w: Seq<u8>, i: int) -> bool {
    &&& !c.forbidden_everywhere.contains(w[i])
    &&& (c.fixed[i] matches Some(m) ==> w[i] == m)
    &&& !c.forbidden_position[i].contains(w[i])
}

/// A word is consistent with the constraints when every position passes.
pub open spec fn spec_word_ok(c: ConstraintsModel, w: Seq<u8>) -> bool {
    forall|i: int| 0 <= i < w.len() ==> #[trigger] position_ok(c, w, i)
}

/// The consistency test as a predicate value, for use with `filter`.
pub open spec fn word_pred(c: ConstraintsModel) -> spec_fn(Seq<u8>) -> bool {
    |w: Seq<u8>| spec_word_ok(c, w)
}

/// The filtered candidate list: the words consistent with the constraints,
/// in their original order.
pub open spec fn filter_model(ws: Seq<Seq<u8>>, c: ConstraintsModel) -> Seq<Seq<u8>> {
    ws.filter(word_pred(c))
}

/// One constraint state refines another when it knows at least as much:
/// every set grows, and every fixed letter is kept.
pub open spec fn refines(c1: ConstraintsModel, c2: ConstraintsModel) -> bool {
    &&& c1.fixed.len() == c2.fixed.len()
    &&& c1.forbidden_position.len() == c2.forbidden_position.len()
    &&& c1.fixed_anywhere.subset_of(c2.fixed_anywhere)
    &&& c1.forbidden_everywhere.subset_of(c2.forbidden_everywhere)
    &&& c1.present_everywhere.subset_of(c2.present_everywhere)
    &&& forall|i: int|
        0 <= i < c1.forbidden_position.len() ==> (#[trigger] c1.forbidden_position[i]).subset_of(
            c2.forbidden_position[i],
        )
    &&& forall|i: int|
        0 <= i < c1.fixed.len() ==> ((#[trigger] c1.fixed[i]) is Some ==> c2.fixed[i]
            == c1.fixed[i])
}

/// Whether one word is consistent with the constraints.
pub fn word_matches(c: &Constraints, word: &Vec<u8>) -> (r: bool)
    requires
        c@.wf(),
        word@.len() == c@.len(),
    ensures
        r == spec_word_ok(c@, word@),
{
    let length = word.len();
    for i in 0..length
        invariant
            length == word@.len(),
            c@.wf(),
            word@.len() == c@.len(),
            forall|t: int| 0 <= t < i ==> #[trigger] position_ok(c@, word@, t),
    {
        let ch = word[i];
        if c.forbidden_everywhere().contains(ch) {
            assert(!position_ok(c@, word@, i as int));
            return false;
        }
        if let Some(m) = c.fixed_at(i) {
            if m != ch {
                assert(!position_ok(c@, word@, i as int));
                return false;
            }
        }
        if c.forbidden_position_at(i).contains(ch) {
            assert(!position_ok(c@, word@, i as int));
            return false;
        }
        assert(position_ok(c@, word@, i as int));
    }
    true
}

/// Filtering distributes over appending one element.
proof fn lemma_filter_push<A>(s: Seq<A>, x: A, pred: spec_fn(A) -> bool)
    ensures
        s.push(x).filter(pred) == if pred(x) {
            s.filter(pred).push(x)
        } else {
            s.filter(pred)
        },
{
    reveal(Seq::filter);
    assert(s.push(x).drop_last() =~= s);
    assert(s.push(x).last() == x);
}

/// The sublist of the words consistent with the constraints, in their
/// original order.
pub fn filter_words(words: &Vec<Vec<u8>>, c: &Constraints) -> (r: Vec<Vec<u8>>)
    requires
        c@.wf(),
        forall|i: int| 0 <= i < words@.len() ==> (#[trigger] words@[i])@.len() == c@.len(),
    ensures
        word_views(r@) == filter_model(word_views(words@), c@),
{
    let ghost all = word_views(words@);
    let mut r: Vec<Vec<u8>> = Vec::new();
    let n = words.len();
    proof {
        assert(all.take(0) =~= Seq::<Seq<u8>>::empty());
        reveal(Seq::filter);
    }
    for i in 0..n
        invariant
            n == words@.len(),
            c@.wf(),
            all == word_views(words@),
            forall|t: int| 0 <= t < words@.len() ==> (#[trigger] words@[t])@.len() == c@.len(),
            word_views(r@) == filter_model(all.take(i as int), c@),
    {
        let ghost r0 = word_views(r@);
        let keep = word_matches(c, &words[i]);
        if keep {
            let w = copy_word(&words[i]);
            r.push(w);
            proof {
                assert(word_views(r@) =~= r0.push(all[i as int]));
            }
        }
        proof {
            assert(all.take(i + 1) =~= all.take(i as int).push(all[i as int]));
            lemma_filter_push(all.take(i as int), all[i as int], word_pred(c@));
            assert(word_pred(c@)(all[i as int]) == spec_word_ok(c@, words@[i as int]@));
        }
    }
    proof {
        assert(all.take(n as int) =~= all);
    }
    r
}

/// A filter pass keeps a list in which every word already passes.
proof fn lemma_filter_all<A>(s: Seq<A>, pred: spec_fn(A) -> bool)
    requires
        forall|i: int| 0 <= i < s.len() ==> pred(#[trigger] s[i]),
    ensures
        s.filter(pred) == s,
    decreases s.len(),
{
    reveal(Seq::filter);
    if s.len() > 0 {
        lemma_filter_all(s.drop_last(), pred);
        assert(s.filter(pred) =~= s);
    } else {
        assert(s.filter(pred) =~= s);
    }
}

/// Filtering is idempotent: filtering an already filtered list changes
/// nothing.
pub proof fn lemma_filter_idempotent(ws: Seq<Seq<u8>>, c: ConstraintsModel)
    ensures
        filter_model(filter_model(ws, c), c) == filter_model(ws, c),
{
    broadcast use group_filter_ensures;

    let f = filter_model(ws, c);
    assert forall|i: int| 0 <= i < f.len() implies word_pred(c)(#[trigger] f[i]) by {
        ws.lemma_filter_pred(word_pred(c), i);
    }
    lemma_filter_all(f, word_pred(c));
}

/// A word consistent with the stronger constraints is consistent with the
/// weaker ones.
pub proof fn lemma_word_ok_monotone(c1: ConstraintsModel, c2: ConstraintsModel, w: Seq<u8>)
    requires
        c1.wf(),
        c2.wf(),
        refines(c1, c2),
        w.len() <= c1.len(),
        spec_word_ok(c2, w),
    ensures
        spec_word_ok(c1, w),
{
    assert forall|i: int| 0 <= i < w.len() implies #[trigger] position_ok(c1, w, i) by {
        assert(position_ok(c2, w, i));
    }
}

/// Strengthening the constraints only shrinks the filtered list: every word
/// that survives the stronger constraints also survives the weaker ones.
pub proof fn lemma_filter_monotone(ws: Seq<Seq<u8>>, c1: ConstraintsModel, c2: ConstraintsModel)
    requires
        c1.wf(),
        c2.wf(),
        refines(c1, c2),
        forall|i: int| 0 <= i < ws.len() ==> (#[trigger] ws[i]).len() <= c1.len(),
    ensures
        forall|w: Seq<u8>|
            filter_model(ws, c2).contains(w) ==> #[trigger] filter_model(ws, c1).contains(w),
{
    broadcast use group_filter_ensures;

    assert forall|w: Seq<u8>| filter_model(ws, c2).contains(w) implies #[trigger] filter_model(
        ws,
        c1,
    ).contains(w) by {
        let f2 = filter_model(ws, c2);
        let k = choose|k: int| 0 <= k < f2.len() && f2[k] == w;
        ws.lemma_filter_pred(word_pred(c2), k);
        ws.lemma_filter_contains_rev(word_pred(c2), w);
        let t = choose|t: int| 0 <= t < ws.len() && ws[t] == w;
        lemma_word_ok_monotone(c1, c2, w);
        ws.lemma_filter_contains(word_pred(c1), t);
    }
}

} // verus!
