//! Accumulated knowledge from past feedback, and the parser that turns one
//! `(picked word, feedback string)` pair into constraint updates.
//!
//! Feedback bytes: `o` green (letter fixed at this position), `?` orange
//! (letter elsewhere in the answer), `x` grey (letter not here, or not at
//! all). A grey on a letter already fixed somewhere is read positionally:
//! the letter is forbidden at every other fixed position, but not banned
//! outright, since it is known to occur at least once.

use crate::letters::{is_letter, LetterSet};
use vstd::prelude::*;

verus! {

/// The byte value of `o`: an exact match.
pub const FB_GREEN: u8 = 111;

/// The byte value of `?`: a match somewhere else in the word.
pub const FB_ORANGE: u8 = 63;

/// The byte value of `x`: no match.
pub const FB_GREY: u8 = 120;

/// The bytes a feedback string may use.
pub open spec fn is_feedback_byte(b: u8) -> bool {
    b == FB_GREY || b == FB_ORANGE || b == FB_GREEN
}

/// The mathematical value of a [`Constraints`]: what is known about the
/// answer.
#[verifier::ext_equal]
pub struct ConstraintsModel {
    /// The letter each position is known to hold, if any.
    pub fixed: Seq<Option<u8>>,
    /// Every letter that has ever been fixed at some position.
    pub fixed_anywhere: Set<u8>,
    /// Per position, the letters known not to appear there.
    pub forbidden_position: Seq<Set<u8>>,
    /// Letters known to appear nowhere in the answer.
    pub forbidden_everywhere: Set<u8>,
    /// Letters known to appear somewhere in the answer.
    pub present_everywhere: Set<u8>,
}

impl ConstraintsModel {
    /// Both per-position tables cover the same positions.
    pub open spec fn wf(self) -> bool {
        self.fixed.len() == self.forbidden_position.len()
    }

    /// The number of positions.
    pub open spec fn len(self) -> nat {
        self.fixed.len()
    }
}

/// What is known before any feedback: nothing.
pub open spec fn empty_model(length: int) -> ConstraintsModel {
    ConstraintsModel {
        fixed: Seq::new(length as nat, |i: int| None),
        fixed_anywhere: Set::empty(),
        forbidden_position: Seq::new(length as nat, |i: int| Set::empty()),
        forbidden_everywhere: Set::empty(),
        present_everywhere: Set::empty(),
    }
}

/// The positional forbiddance a grey on an already-fixed letter spreads:
/// the letter becomes forbidden at every position fixed to a different
/// letter.
pub open spec fn grey_forbidden(fixed: Seq<Option<u8>>, fp: Seq<Set<u8>>, p: u8) -> Seq<Set<u8>> {
    Seq::new(
        fp.len(),
        |j: int|
            match fixed[j] {
                Some(f) => if f != p {
                    fp[j].insert(p)
                } else {
                    fp[j]
                },
                None => fp[j],
            },
    )
}

/// The transition one feedback position makes on the constraints: `r` is
/// the feedback byte at position `i`, `p` the picked word's letter there. A
/// byte outside the feedback alphabet changes nothing.
pub open spec fn apply_one(c: ConstraintsModel, i: int, r: u8, p: u8) -> ConstraintsModel {
    if r == FB_GREEN {
        ConstraintsModel {
            fixed: c.fixed.update(i, Some(p)),
            fixed_anywhere: c.fixed_anywhere.insert(p),
            forbidden_position: c.forbidden_position,
            forbidden_everywhere: c.forbidden_everywhere,
            present_everywhere: c.present_everywhere.insert(p),
        }
    } else if r == FB_ORANGE {
        ConstraintsModel {
            fixed: c.fixed,
            fixed_anywhere: c.fixed_anywhere,
            forbidden_position: c.forbidden_position.update(
                i,
                c.forbidden_position[i].insert(p),
            ),
            forbidden_everywhere: c.forbidden_everywhere,
            present_everywhere: c.present_everywhere.insert(p),
        }
    } else if r == FB_GREY {
        if c.fixed_anywhere.contains(p) {
            ConstraintsModel {
                fixed: c.fixed,
                fixed_anywhere: c.fixed_anywhere,
                forbidden_position: grey_forbidden(c.fixed, c.forbidden_position, p),
                forbidden_everywhere: c.forbidden_everywhere,
                present_everywhere: c.present_everywhere,
            }
        } else {
            ConstraintsModel {
                fixed: c.fixed,
                fixed_anywhere: c.fixed_anywhere,
                forbidden_position: c.forbidden_position,
                forbidden_everywhere: c.forbidden_everywhere.insert(p),
                present_everywhere: c.present_everywhere,
            }
        }
    } else {
        c
    }
}

/// The constraints after the first `k` feedback positions, applied left to
/// right.
pub open spec fn apply_feedback_model(
    c: ConstraintsModel,
    picked: Seq<u8>,
    feedback: Seq<u8>,
    k: int,
) -> ConstraintsModel
    decreases k,
{
    if k <= 0 {
        c
    } else {
        apply_one(
            apply_feedback_model(c, picked, feedback, k - 1),
            k - 1,
            feedback[k - 1],
            picked[k - 1],
        )
    }
}

/// The positions of the first `k` feedback bytes that are not in the
/// feedback alphabet, in order.
pub open spec fn bad_positions(feedback: Seq<u8>, k: int) -> Seq<usize>
    decreases k,
{
    if k <= 0 {
        Seq::empty()
    } else if !is_feedback_byte(feedback[k - 1]) {
        bad_positions(feedback, k - 1).push((k - 1) as usize)
    } else {
        bad_positions(feedback, k - 1)
    }
}

/// The views of a list of letter sets.
pub open spec fn set_views(s: Seq<LetterSet>) -> Seq<Set<u8>> {
    Seq::new(s.len(), |i: int| s[i]@)
}

/// The accumulated knowledge from all feedback so far.
pub struct Constraints {
    fixed: Vec<Option<u8>>,
    fixed_anywhere: LetterSet,
    forbidden_position: Vec<LetterSet>,
    forbidden_everywhere: LetterSet,
    present_everywhere: LetterSet,
}

impl View for Constraints {
    type V = ConstraintsModel;

    closed spec fn view(&self) -> ConstraintsModel {
        ConstraintsModel {
            fixed: self.fixed@,
            fixed_anywhere: self.fixed_anywhere@,
            forbidden_position: set_views(self.forbidden_position@),
            forbidden_everywhere: self.forbidden_everywhere@,
            present_everywhere: self.present_everywhere@,
        }
    }
}

impl Constraints {
    /// Fresh constraints for words of the given length: nothing is known.
    pub fn new(length: usize) -> (r: Constraints)
        ensures
            r@ == empty_model(length as int),
            r@.wf(),
    {
        let mut fixed: Vec<Option<u8>> = Vec::new();
        let mut forbidden_position: Vec<LetterSet> = Vec::new();
        for i in 0..length
            invariant
                fixed@.len() == i,
                forbidden_position@.len() == i,
                forall|j: int| 0 <= j < i ==> fixed@[j] is None,
                forall|j: int| 0 <= j < i ==> (#[trigger] forbidden_position@[j])@ == Set::<u8>::empty(),
        {
            fixed.push(None);
            forbidden_position.push(LetterSet::empty());
        }
        let r = Constraints {
            fixed,
            fixed_anywhere: LetterSet::empty(),
            forbidden_position,
            forbidden_everywhere: LetterSet::empty(),
            present_everywhere: LetterSet::empty(),
        };
        proof {
            assert(r@.fixed =~= empty_model(length as int).fixed);
            assert(r@.forbidden_position =~~= empty_model(length as int).forbidden_position);
            assert(r@ =~~= empty_model(length as int));
        }
        r
    }

    /// The number of positions the constraints cover.
    pub fn len(&self) -> (r: usize)
        ensures
            r == self@.len(),
    {
        self.fixed.len()
    }

    /// The letter position `i` is known to hold, if any.
    pub fn fixed_at(&self, i: usize) -> (r: Option<u8>)
        requires
            i < self@.len(),
        ensures
            r == self@.fixed[i as int],
    {
        self.fixed[i]
    }

    /// The letters that have ever been fixed at some position.
    pub fn fixed_anywhere(&self) -> (r: LetterSet)
        ensures
            r@ == self@.fixed_anywhere,
    {
        self.fixed_anywhere
    }

    /// The letters forbidden at position `i`.
    pub fn forbidden_position_at(&self, i: usize) -> (r: LetterSet)
        requires
            self@.wf(),
            i < self@.len(),
        ensures
            r@ == self@.forbidden_position[i as int],
    {
        self.forbidden_position[i]
    }

    /// The letters known to appear nowhere in the answer.
    pub fn forbidden_everywhere(&self) -> (r: LetterSet)
        ensures
            r@ == self@.forbidden_everywhere,
    {
        self.forbidden_everywhere
    }

    /// The letters known to appear somewhere in the answer.
    pub fn present_everywhere(&self) -> (r: LetterSet)
        ensures
            r@ == self@.present_everywhere,
    {
        self.present_everywhere
    }

    /// Fold one round's feedback into the constraints, position by
    /// position. Returns the positions whose feedback byte was not in the
    /// feedback alphabet; those positions change nothing, the others still
    /// apply.
    pub fn apply_feedback(&mut self, picked: &Vec<u8>, feedback: &Vec<u8>) -> (bad: Vec<usize>)
        requires
            old(self)@.wf(),
            picked@.len() == old(self)@.len(),
            feedback@.len() == old(self)@.len(),
            forall|i: int| 0 <= i < picked@.len() ==> is_letter(#[trigger] picked@[i]),
        ensures
            final(self)@.wf(),
            final(self)@.len() == old(self)@.len(),
            final(self)@ == apply_feedback_model(
                old(self)@,
                picked@,
                feedback@,
                old(self)@.len() as int,
            ),
            bad@ == bad_positions(feedback@, old(self)@.len() as int),
    {
        let ghost c0 = self@;
        let length = self.fixed.len();
        let mut bad: Vec<usize> = Vec::new();
        for i in 0..length
            invariant
                length == c0.len(),
                picked@.len() == length,
                feedback@.len() == length,
                forall|t: int| 0 <= t < picked@.len() ==> is_letter(#[trigger] picked@[t]),
                self@.wf(),
                self@.len() == length,
                self@ == apply_feedback_model(c0, picked@, feedback@, i as int),
                bad@ == bad_positions(feedback@, i as int),
        {
            let ghost prev = self@;
            let r = feedback[i];
            let p = picked[i];
            if r == FB_GREY {
                if self.fixed_anywhere.contains(p) {
                    let ghost fp0 = set_views(self.forbidden_position@);
                    let mut j: usize = 0;
                    while j < length
                        invariant
                            j <= length,
                            is_letter(p),
                            length == self.fixed.len(),
                            length == self.forbidden_position.len(),
                            self.fixed@ == prev.fixed,
                            self.fixed_anywhere@ == prev.fixed_anywhere,
                            self.forbidden_everywhere@ == prev.forbidden_everywhere,
                            self.present_everywhere@ == prev.present_everywhere,
                            fp0 == prev.forbidden_position,
                            fp0.len() == length,
                            prev.fixed.len() == length,
                            forall|t: int|
                                0 <= t < j ==> (#[trigger] self.forbidden_position@[t])@ == (
                                match prev.fixed[t] {
                                    Some(f) => if f != p {
                                        fp0[t].insert(p)
                                    } else {
                                        fp0[t]
                                    },
                                    None => fp0[t],
                                }),
                            forall|t: int|
                                j <= t < length ==> (#[trigger] self.forbidden_position@[t])@
                                    == fp0[t],
                        decreases length - j,
                    {
                        if let Some(f) = self.fixed[j] {
                            if f != p {
                                let mut s = self.forbidden_position[j];
                                s.insert(p);
                                self.forbidden_position.set(j, s);
                            }
                        }
                        j += 1;
                    }
                    proof {
                        assert forall|t: int| 0 <= t < length implies set_views(
                            self.forbidden_position@,
                        )[t] == grey_forbidden(prev.fixed, prev.forbidden_position, p)[t] by {
                            assert((#[trigger] self.forbidden_position@[t])@ == (
                            match prev.fixed[t] {
                                Some(f) => if f != p {
                                    fp0[t].insert(p)
                                } else {
                                    fp0[t]
                                },
                                None => fp0[t],
                            }));
                        }
                        assert(set_views(self.forbidden_position@) =~~= grey_forbidden(
                            prev.fixed,
                            prev.forbidden_position,
                            p,
                        ));
                        assert(self@ =~~= apply_one(prev, i as int, r, p));
                    }
                } else {
                    self.forbidden_everywhere.insert(p);
                    proof {
                        assert(self@ =~~= apply_one(prev, i as int, r, p));
                    }
                }
            } else if r == FB_ORANGE {
                let mut s = self.forbidden_position[i];
                s.insert(p);
                self.forbidden_position.set(i, s);
                self.present_everywhere.insert(p);
                proof {
                    assert(set_views(self.forbidden_position@) =~~= prev.forbidden_position.update(
                        i as int,
                        prev.forbidden_position[i as int].insert(p),
                    ));
                    assert(self@ =~~= apply_one(prev, i as int, r, p));
                }
            } else if r == FB_GREEN {
                self.fixed.set(i, Some(p));
                self.fixed_anywhere.insert(p);
                self.present_everywhere.insert(p);
                proof {
                    assert(self@ =~~= apply_one(prev, i as int, r, p));
                }
            } else {
                bad.push(i);
                proof {
                    assert(self@ =~~= apply_one(prev, i as int, r, p));
                }
            }
        }
        bad
    }
}

/// Two feedback positions are order-insensitive when neither is a grey
/// entangled with the fixed letters: a grey's letter must not already be
/// fixed anywhere, and must differ from the other position's green letter.
/// Applying the two positions in either order then yields the same
/// constraints. (A grey on a letter that is, or in the same pass becomes,
/// fixed somewhere is the exception: the grey-after-green rule reads the
/// fixed positions, so such a grey must see the greens applied before it.)
pub proof fn lemma_feedback_order_insensitive(
    c: ConstraintsModel,
    i: int,
    j: int,
    ri: u8,
    pi: u8,
    rj: u8,
    pj: u8,
)
    requires
        c.wf(),
        0 <= i < c.len(),
        0 <= j < c.len(),
        i != j,
        ri == FB_GREY ==> !c.fixed_anywhere.contains(pi) && (rj == FB_GREEN ==> pj != pi),
        rj == FB_GREY ==> !c.fixed_anywhere.contains(pj) && (ri == FB_GREEN ==> pi != pj),
    ensures
        apply_one(apply_one(c, i, ri, pi), j, rj, pj) == apply_one(
            apply_one(c, j, rj, pj),
            i,
            ri,
            pi,
        ),
{
    assert(apply_one(apply_one(c, i, ri, pi), j, rj, pj) =~~= apply_one(
        apply_one(c, j, rj, pj),
        i,
        ri,
        pi,
    ));
}

} // verus!
