//! The alphabet: lowercase ASCII letters, compact letter sets and
//! per-letter counters.

use vstd::prelude::*;

verus! {

/// The byte value of `a`.
pub const LOWER_A: u8 = 97;

/// The byte value of `z`.
pub const LOWER_Z: u8 = 122;

/// A byte is a letter when it is one of the 26 lowercase ASCII letters.
pub open spec fn is_letter(b: u8) -> bool {
    LOWER_A <= b <= LOWER_Z
}

/// The set of distinct letters occurring in a word; bytes outside the
/// alphabet are ignored.
pub open spec fn letters_of(w: Seq<u8>) -> Set<u8> {
    Set::new(|b: u8| is_letter(b) && w.contains(b))
}

/// A word is a sequence of letters of exactly the configured length.
pub open spec fn valid_word(w: Seq<u8>, length: int) -> bool {
    w.len() == length && forall|i: int| 0 <= i < w.len() ==> is_letter(#[trigger] w[i])
}

/// The alphabet index of a letter: 0 for `a` through 25 for `z`.
pub fn to_ascii_index(letter: u8) -> (idx: u8)
    requires
        is_letter(letter),
    ensures
        idx == letter - LOWER_A,
        idx < 26,
{
    letter - LOWER_A
}

/// A set over the 26 lowercase letters, stored as a 26-bit bitmap.
#[derive(Clone, Copy)]
pub struct LetterSet {
    bits: u32,
}

impl View for LetterSet {
    type V = Set<u8>;

    open spec fn view(&self) -> Set<u8> {
        Set::new(|b: u8| self.spec_contains(b))
    }
}

impl LetterSet {
    /// Membership at the bitmap level; false for any byte outside the alphabet.
    pub closed spec fn spec_contains(self, letter: u8) -> bool {
        is_letter(letter) && (self.bits >> ((letter - LOWER_A) as u32)) & 1u32 == 1u32
    }

    /// The set with no letters in it.
    pub fn empty() -> (r: LetterSet)
        ensures
            r@ == Set::<u8>::empty(),
    {
        let r = LetterSet { bits: 0 };
        proof {
            assert(forall|sh: u32| sh < 26 ==> (0u32 >> sh) & 1u32 != 1u32) by (bit_vector);
            assert(r@ =~= Set::<u8>::empty());
        }
        r
    }

    /// Add a letter to the set; a byte outside the alphabet is ignored.
    pub fn insert(&mut self, letter: u8)
        ensures
            final(self)@ == if is_letter(letter) {
                old(self)@.insert(letter)
            } else {
                old(self)@
            },
    {
        if LOWER_A <= letter && letter <= LOWER_Z {
            let idx = to_ascii_index(letter);
            let old_bits = self.bits;
            self.bits = self.bits | (1u32 << (idx as u32));
            proof {
                lemma_bit_set(old_bits, idx as u32);
                assert forall|b: u8| self.spec_contains(b) <==> (old(self).spec_contains(b)
                    || b == letter) by {
                    if is_letter(b) {
                        assert(((b - LOWER_A) as u32) < 26);
                    }
                }
                assert(self@ =~= old(self)@.insert(letter));
            }
        }
    }

    /// Whether the set holds the given byte; false outside the alphabet.
    pub fn contains(&self, letter: u8) -> (r: bool)
        ensures
            r == self@.contains(letter),
    {
        if letter < LOWER_A || letter > LOWER_Z {
            false
        } else {
            let idx = to_ascii_index(letter);
            (self.bits >> (idx as u32)) & 1 == 1
        }
    }

    /// The set of all distinct letters of a word; bytes outside the alphabet
    /// are ignored.
    pub fn from_word(word: &Vec<u8>) -> (r: LetterSet)
        ensures
            r@ == letters_of(word@),
    {
        let mut r = LetterSet::empty();
        let n = word.len();
        for i in 0..n
            invariant
                n == word@.len(),
                r@ =~= letters_of(word@.take(i as int)),
        {
            let b = word[i];
            r.insert(b);
            proof {
                assert(word@.take(i + 1).drop_last() =~= word@.take(i as int));
                assert(word@.take(i + 1).last() == b);
                lemma_letters_of_push(word@.take(i as int), b);
                assert(word@.take(i as int).push(b) =~= word@.take(i + 1));
            }
        }
        proof {
            assert(word@.take(word@.len() as int) =~= word@);
        }
        r
    }
}

/// After setting bit `i`, bit `j` is set exactly when it was set before or
/// `j == i`.
proof fn lemma_bit_set(bits: u32, i: u32)
    by (bit_vector)
    requires
        i < 26,
    ensures
        forall|j: u32|
            j < 26 ==> ((((bits | (1u32 << i)) >> j) & 1u32 == 1u32) <==> (j == i || ((bits >> j)
                & 1u32 == 1u32))),
{
}

/// Appending a byte to a word adds exactly that byte (if it is a letter) to
/// the word's letter set.
pub proof fn lemma_letters_of_push(w: Seq<u8>, b: u8)
    ensures
        letters_of(w.push(b)) == if is_letter(b) {
            letters_of(w).insert(b)
        } else {
            letters_of(w)
        },
{
    assert forall|x: u8| #[trigger] w.push(b).contains(x) implies (w.contains(x) || x == b) by {
        let k = choose|k: int| 0 <= k < w.push(b).len() && w.push(b)[k] == x;
        if k < w.len() {
            assert(w[k] == x);
        }
    }
    assert forall|x: u8| #[trigger] w.contains(x) implies w.push(b).contains(x) by {
        let k = choose|k: int| 0 <= k < w.len() && w[k] == x;
        assert(w.push(b)[k] == x);
    }
    assert(w.push(b).contains(b)) by {
        assert(w.push(b)[w.len() as int] == b);
    }
    if is_letter(b) {
        assert forall|x: u8| letters_of(w.push(b)).contains(x) <==> letters_of(w).insert(
            b,
        ).contains(x) by {
            assert(letters_of(w.push(b)).contains(x) == (is_letter(x) && w.push(b).contains(x)));
            assert(letters_of(w).contains(x) == (is_letter(x) && w.contains(x)));
        }
        assert(letters_of(w.push(b)) =~= letters_of(w).insert(b));
    } else {
        assert forall|x: u8| letters_of(w.push(b)).contains(x) <==> letters_of(w).contains(x) by {
            assert(letters_of(w.push(b)).contains(x) == (is_letter(x) && w.push(b).contains(x)));
            assert(letters_of(w).contains(x) == (is_letter(x) && w.contains(x)));
        }
        assert(letters_of(w.push(b)) =~= letters_of(w));
    }
}

/// The views of a list of words.
pub open spec fn word_views(ws: Seq<Vec<u8>>) -> Seq<Seq<u8>> {
    Seq::new(ws.len(), |i: int| ws[i]@)
}

/// Whether a line of the dictionary is usable: exactly the configured
/// length, lowercase letters only.
pub fn is_valid_word(line: &Vec<u8>, length: usize) -> (r: bool)
    ensures
        r == valid_word(line@, length as int),
{
    if line.len() != length {
        return false;
    }
    let n = line.len();
    for i in 0..n
        invariant
            n == line@.len(),
            forall|t: int| 0 <= t < i ==> is_letter(#[trigger] line@[t]),
    {
        let b = line[i];
        if b < LOWER_A || b > LOWER_Z {
            return false;
        }
    }
    true
}

/// An owned copy of a word with the very same bytes.
pub fn copy_word(w: &Vec<u8>) -> (r: Vec<u8>)
    ensures
        r@ == w@,
{
    let mut r: Vec<u8> = Vec::new();
    let n = w.len();
    for i in 0..n
        invariant
            n == w@.len(),
            r@ =~= w@.take(i as int),
    {
        r.push(w[i]);
    }
    proof {
        assert(w@.take(n as int) =~= w@);
    }
    r
}

/// An owned copy of a word list with the very same words.
pub fn copy_words(ws: &Vec<Vec<u8>>) -> (r: Vec<Vec<u8>>)
    ensures
        word_views(r@) == word_views(ws@),
        r@.len() == ws@.len(),
{
    let mut r: Vec<Vec<u8>> = Vec::new();
    let n = ws.len();
    for i in 0..n
        invariant
            n == ws@.len(),
            r@.len() == i,
            word_views(r@) =~= word_views(ws@).take(i as int),
    {
        let w = copy_word(&ws[i]);
        r.push(w);
        proof {
            assert(word_views(r@) =~= word_views(ws@).take(i + 1));
        }
    }
    proof {
        assert(word_views(ws@).take(n as int) =~= word_views(ws@));
    }
    r
}

/// A count for each of the 26 letters, zero by default.
pub struct LetterCount {
    map: Vec<usize>,
}

impl View for LetterCount {
    type V = Seq<usize>;

    closed spec fn view(&self) -> Seq<usize> {
        self.map@
    }
}

impl LetterCount {
    /// The counters are one bucket per letter of the alphabet.
    pub open spec fn wf(self) -> bool {
        self@.len() == 26
    }

    /// The count recorded for a byte: the bucket for a letter, zero for any
    /// byte outside the alphabet.
    pub open spec fn spec_get(self, letter: u8) -> usize {
        if is_letter(letter) {
            self@[letter - LOWER_A]
        } else {
            0
        }
    }

    /// All counts start at zero.
    pub fn new() -> (r: LetterCount)
        ensures
            r.wf(),
            forall|b: u8| r.spec_get(b) == 0,
    {
        let mut map: Vec<usize> = Vec::new();
        for i in 0..26usize
            invariant
                map@.len() == i,
                forall|j: int| 0 <= j < i ==> map@[j] == 0,
        {
            map.push(0);
        }
        LetterCount { map }
    }

    /// Add one to a letter's bucket; a byte outside the alphabet is ignored.
    pub fn increment(&mut self, letter: u8)
        requires
            old(self).wf(),
            old(self).spec_get(letter) < usize::MAX,
        ensures
            final(self).wf(),
            final(self)@ == if is_letter(letter) {
                old(self)@.update(letter - LOWER_A, (old(self).spec_get(letter) + 1) as usize)
            } else {
                old(self)@
            },
    {
        if LOWER_A <= letter && letter <= LOWER_Z {
            let idx = to_ascii_index(letter) as usize;
            let cur = self.map[idx];
            self.map.set(idx, cur + 1);
        }
    }

    /// Read a letter's bucket; zero for any byte outside the alphabet.
    pub fn get(&self, letter: u8) -> (r: usize)
        requires
            self.wf(),
        ensures
            r == self.spec_get(letter),
    {
        if LOWER_A <= letter && letter <= LOWER_Z {
            let idx = to_ascii_index(letter) as usize;
            self.map[idx]
        } else {
            0
        }
    }
}

} // verus!
