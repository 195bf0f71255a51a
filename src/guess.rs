//! A guess with its observed coloring, and which words stay possible answers after it.
use vstd::prelude::*;
use vstd::string::StringSliceAdditionalSpecFns;
use crate::prelude::{WORD_SIZE, ALPHABET_SIZE, LETTER_A, Word, is_word, is_lower_letter, letter_idx,
    count_of, count_prefix};
use crate::color::{Coloring, Colorings, letter, color_at, coloring_for, open_prefix, unmatched_prefix,
    matched_prefix, lemma_count_split};

verus! {

/// A guess that was made, with the coloring it got.
#[derive(Debug, Clone, Copy)]
pub struct Guess {
    /// The guessed word.
    pub word: Word,
    /// The coloring the guess got.
    pub coloring: Colorings,
}

impl PartialEq for Guess {
    fn eq(&self, other: &Guess) -> (r: bool) {
        let mut i: usize = 0;
        while i < WORD_SIZE
            invariant
                i <= WORD_SIZE,
                forall|j: int| 0 <= j < i ==> self.word@[j] == other.word@[j],
            decreases WORD_SIZE - i,
        {
            if self.word[i] != other.word[i] {
                return false;
            }
            i += 1;
        }
        proof {
            assert(self.word@ =~= other.word@);
        }
        self.coloring == other.coloring
    }
}

impl vstd::std_specs::cmp::PartialEqSpecImpl for Guess {
    open spec fn obeys_eq_spec() -> bool {
        true
    }

    open spec fn eq_spec(&self, other: &Guess) -> bool {
        self.word@ == other.word@ && self.coloring@ == other.coloring@
    }
}

/// How many of the first `n` positions of the guess hold `c` and are not marked excluded.
pub open spec fn need_prefix(g: Guess, c: u8, n: int) -> nat
    decreases n,
{
    if n <= 0 {
        0
    } else {
        need_prefix(g, c, n - 1) + if g.coloring@[n - 1] != Coloring::Excluded && g.word@[n - 1] == c {
            1nat
        } else {
            0nat
        }
    }
}

/// How many copies of `c` the guess shows the answer to hold at least: the positions with
/// letter `c` marked correct or misplaced.
pub open spec fn need(g: Guess, c: u8) -> nat {
    need_prefix(g, c, WORD_SIZE as int)
}

/// Whether some position of the guess holds `c` and is marked excluded.
pub open spec fn is_excluded(g: Guess, c: u8) -> bool {
    exists|i: int| 0 <= i < WORD_SIZE && g.coloring@[i] == Coloring::Excluded && #[trigger] g.word@[i] == c
}

/// Whether `other` may still be the answer after guess `g`: it is not the guessed word; it
/// has the letter of every correct position there and not the letter of a misplaced position
/// there; it holds each letter at least as often as the guess marks it correct or misplaced,
/// and no more often where a copy of the letter was marked excluded.
pub open spec fn allows(g: Guess, other: Seq<u8>) -> bool {
    &&& other != g.word@
    &&& forall|i: int| 0 <= i < WORD_SIZE && g.coloring@[i] == Coloring::Correct ==> #[trigger] other[i] == g.word@[i]
    &&& forall|i: int| 0 <= i < WORD_SIZE && g.coloring@[i] == Coloring::Misplaced ==> #[trigger] other[i] != g.word@[i]
    &&& forall|c: u8| need(g, c) <= #[trigger] count_of(other, c)
    &&& forall|c: u8| is_excluded(g, c) ==> #[trigger] count_of(other, c) <= need(g, c)
}

/// Whether `other` may still be the answer after every guess of `gs`.
pub open spec fn allowed_by_all(gs: Seq<Guess>, other: Seq<u8>) -> bool {
    forall|i: int| 0 <= i < gs.len() ==> allows(#[trigger] gs[i], other)
}

/// Whether every verdict of a coloring is `Correct`.
pub open spec fn all_correct(cs: Seq<Coloring>) -> bool {
    forall|i: int| 0 <= i < cs.len() ==> cs[i] == Coloring::Correct
}

/// A prefix that holds more than `m` copies of `c` has a position with `c` before which
/// there are exactly `m` copies.
proof fn lemma_count_witness(s: Seq<u8>, c: u8, n: int, m: nat) -> (j: int)
    requires
        0 <= n <= s.len(),
        count_prefix(s, c, n) > m,
    ensures
        0 <= j < n,
        s[j] == c,
        count_prefix(s, c, j) == m,
    decreases n,
{
    if count_prefix(s, c, n - 1) > m {
        lemma_count_witness(s, c, n - 1, m)
    } else {
        n - 1
    }
}

/// Counting over a longer prefix never gives less.
proof fn lemma_count_monotone(s: Seq<u8>, c: u8, m: int, n: int)
    requires
        0 <= m <= n,
    ensures
        count_prefix(s, c, m) <= count_prefix(s, c, n),
    decreases n - m,
{
    if m < n {
        lemma_count_monotone(s, c, m, n - 1);
    }
}

/// A word holds no byte but lowercase letters.
proof fn lemma_count_non_letter(s: Seq<u8>, c: u8, n: int)
    requires
        0 <= n <= s.len(),
        forall|i: int| 0 <= i < s.len() ==> is_lower_letter(#[trigger] s[i]),
        !is_lower_letter(c),
    ensures
        count_prefix(s, c, n) == 0,
    decreases n,
{
    if n > 0 {
        lemma_count_non_letter(s, c, n - 1);
    }
}

/// The guess needs no byte but lowercase letters.
proof fn lemma_need_non_letter(g: Guess, c: u8, n: int)
    requires
        0 <= n <= WORD_SIZE,
        is_word(g.word@),
        !is_lower_letter(c),
    ensures
        need_prefix(g, c, n) == 0,
    decreases n,
{
    if n > 0 {
        lemma_need_non_letter(g, c, n - 1);
    }
}

/// A guess whose coloring is all correct admits no word but the guessed one.
pub proof fn lemma_all_correct_admits_only_the_guess(g: Guess, other: Seq<u8>)
    requires
        all_correct(g.coloring@),
        is_word(other),
        allows(g, other),
    ensures
        other == g.word@,
{
    assert forall|i: int| 0 <= i < WORD_SIZE implies other[i] == g.word@[i] by {
        assert(g.coloring@[i] == Coloring::Correct);
    }
    assert(other =~= g.word@);
}

/// A guess never admits its own word again.
pub proof fn lemma_repeat_not_allowed(g: Guess)
    ensures
        !allows(g, g.word@),
{
}

/// How many of the first `n` positions of guess `g` against answer `a` hold `c` and are
/// marked misplaced.
spec fn misplaced_prefix(g: Seq<u8>, a: Seq<u8>, c: u8, n: int) -> nat
    decreases n,
{
    if n <= 0 {
        0
    } else {
        misplaced_prefix(g, a, c, n - 1) + if color_at(g, a, n - 1) == Coloring::Misplaced && g[n - 1] == c {
            1nat
        } else {
            0nat
        }
    }
}

/// The misplaced copies of a letter are its unmatched copies in the guess, up to the
/// unmatched copies in the answer.
proof fn lemma_misplaced_count(g: Seq<u8>, a: Seq<u8>, c: u8, n: int)
    requires
        0 <= n <= WORD_SIZE,
        g.len() == WORD_SIZE,
        a.len() == WORD_SIZE,
    ensures
        ({
            let o = open_prefix(g, a, c, n);
            let u = unmatched_prefix(g, a, c, WORD_SIZE as int);
            misplaced_prefix(g, a, c, n) == if o < u { o } else { u }
        }),
    decreases n,
{
    if n > 0 {
        lemma_misplaced_count(g, a, c, n - 1);
    }
}

/// Counting unmatched copies over a longer prefix never gives less.
proof fn lemma_open_monotone(g: Seq<u8>, a: Seq<u8>, c: u8, m: int, n: int)
    requires
        0 <= m <= n,
    ensures
        open_prefix(g, a, c, m) <= open_prefix(g, a, c, n),
    decreases n - m,
{
    if m < n {
        lemma_open_monotone(g, a, c, m, n - 1);
    }
}

/// Under the coloring it got against `a`, a guess needs the matched and the misplaced
/// copies of each letter.
proof fn lemma_need_split(g: Guess, a: Seq<u8>, c: u8, n: int)
    requires
        0 <= n <= WORD_SIZE,
        a.len() == WORD_SIZE,
        g.coloring@ == coloring_for(g.word@, a),
    ensures
        need_prefix(g, c, n) == matched_prefix(g.word@, a, c, n) + misplaced_prefix(g.word@, a, c, n),
    decreases n,
{
    if n > 0 {
        lemma_need_split(g, a, c, n - 1);
        assert(g.coloring@[n - 1] == color_at(g.word@, a, n - 1));
    }
}

/// The answer is never ruled out by the coloring it gives: a guess colored against answer
/// `a` admits `a`, unless the guess is `a` itself.
pub proof fn lemma_answer_is_admitted(g: Guess, a: Seq<u8>)
    requires
        is_word(g.word@),
        is_word(a),
        g.coloring@ == coloring_for(g.word@, a),
        a != g.word@,
    ensures
        allows(g, a),
{
    let w = g.word@;
    assert forall|i: int| 0 <= i < WORD_SIZE && g.coloring@[i] == Coloring::Correct implies #[trigger] a[i] == w[i] by {
        assert(g.coloring@[i] == color_at(w, a, i));
    }
    assert forall|i: int| 0 <= i < WORD_SIZE && g.coloring@[i] == Coloring::Misplaced implies #[trigger] a[i] != w[i] by {
        assert(g.coloring@[i] == color_at(w, a, i));
    }
    assert forall|c: u8| need(g, c) <= #[trigger] count_of(a, c) && (is_excluded(g, c) ==> count_of(a, c) <= need(g, c)) by {
        lemma_need_split(g, a, c, WORD_SIZE as int);
        lemma_misplaced_count(w, a, c, WORD_SIZE as int);
        lemma_count_split(w, a, c, WORD_SIZE as int);
        if is_excluded(g, c) {
            let i = choose|i: int| 0 <= i < WORD_SIZE && g.coloring@[i] == Coloring::Excluded && #[trigger] w[i] == c;
            assert(g.coloring@[i] == color_at(w, a, i));
            lemma_open_monotone(w, a, c, i, WORD_SIZE as int);
        }
    }
}

impl Guess {
    /// Whether the coloring says that this guess is the answer.
    pub fn is_correct(&self) -> (r: bool)
        ensures
            r == all_correct(self.coloring@),
    {
        let mut i: usize = 0;
        while i < WORD_SIZE
            invariant
                i <= WORD_SIZE,
                forall|j: int| 0 <= j < i ==> self.coloring@[j] == Coloring::Correct,
            decreases WORD_SIZE - i,
        {
            if self.coloring.0[i] != Coloring::Correct {
                return false;
            }
            i += 1;
        }
        true
    }

    /// Whether `other` is the guessed word.
    pub fn is_guess_same(&self, other: &str) -> (r: bool)
        requires
            is_word(other.spec_bytes()),
        ensures
            r == (other.spec_bytes() == self.word@),
    {
        self.is_word_same(other.as_bytes())
    }

    /// Whether the word `other`, given as bytes, is the guessed word.
    pub fn is_word_same(&self, other: &[u8]) -> (r: bool)
        requires
            is_word(other@),
        ensures
            r == (other@ == self.word@),
    {
        let mut i: usize = 0;
        while i < WORD_SIZE
            invariant
                i <= WORD_SIZE,
                other@.len() == WORD_SIZE,
                forall|j: int| 0 <= j < i ==> other@[j] == self.word@[j],
            decreases WORD_SIZE - i,
        {
            if other[i] != self.word[i] {
                return false;
            }
            i += 1;
        }
        proof {
            assert(other@ =~= self.word@);
        }
        true
    }

    /// For each letter, whether some position with that letter is marked excluded. A letter
    /// may be marked excluded and still occur in the answer, where the guess repeats it.
    fn determine_excluded_letters(&self) -> (r: [bool; ALPHABET_SIZE])
        requires
            is_word(self.word@),
        ensures
            forall|k: int| 0 <= k < ALPHABET_SIZE ==> r@[k] == is_excluded(*self, letter(k)),
    {
        let mut out = [false; ALPHABET_SIZE];
        let mut i: usize = 0;
        while i < WORD_SIZE
            invariant
                i <= WORD_SIZE,
                is_word(self.word@),
                forall|k: int| 0 <= k < ALPHABET_SIZE ==> (out@[k] <==> exists|j: int|
                    0 <= j < i && self.coloring@[j] == Coloring::Excluded && #[trigger] self.word@[j] == letter(k)),
            decreases WORD_SIZE - i,
        {
            if self.coloring.0[i] == Coloring::Excluded {
                let k = letter_idx(self.word[i]);
                out[k] = true;
                proof {
                    assert(letter(k as int) == self.word@[i as int]);
                }
            }
            i += 1;
        }
        out
    }

    /// Whether the word `other` may still be the answer after this guess.
    pub fn allows_other_guess(&self, other: &str) -> (r: bool)
        requires
            is_word(self.word@),
            is_word(other.spec_bytes()),
        ensures
            r == allows(*self, other.spec_bytes()),
    {
        self.allows_word(other.as_bytes())
    }

    /// Whether the word `other`, given as bytes, may still be the answer after this guess.
    ///
    /// The letters marked correct or misplaced make a budget per letter. Walking the
    /// positions, each letter of `other` takes one from its budget; a letter whose budget is
    /// spent must not be one marked excluded. At the end every budget must be spent.
    pub fn allows_word(&self, other: &[u8]) -> (r: bool)
        requires
            is_word(self.word@),
            is_word(other@),
        ensures
            r == allows(*self, other@),
    {
        let ghost o = other@;
        if self.is_word_same(other) {
            return false;
        }
        let mut budget = [0usize; ALPHABET_SIZE];
        let mut i: usize = 0;
        while i < WORD_SIZE
            invariant
                i <= WORD_SIZE,
                is_word(self.word@),
                forall|k: int| 0 <= k < ALPHABET_SIZE ==> #[trigger] budget@[k] == need_prefix(*self, letter(k), i as int),
                forall|k: int| 0 <= k < ALPHABET_SIZE ==> #[trigger] budget@[k] <= i,
            decreases WORD_SIZE - i,
        {
            if self.coloring.0[i] != Coloring::Excluded {
                let k = letter_idx(self.word[i]);
                proof {
                    assert(letter(k as int) == self.word@[i as int]);
                }
                budget[k] = budget[k] + 1;
            }
            i += 1;
        }
        let excluded = self.determine_excluded_letters();
        let mut i: usize = 0;
        while i < WORD_SIZE
            invariant
                i <= WORD_SIZE,
                o == other@,
                is_word(self.word@),
                is_word(o),
                o != self.word@,
                forall|k: int| 0 <= k < ALPHABET_SIZE ==> excluded@[k] == is_excluded(*self, letter(k)),
                forall|k: int| 0 <= k < ALPHABET_SIZE ==> {
                    let n = need(*self, letter(k)) as int;
                    let h = count_prefix(o, letter(k), i as int) as int;
                    #[trigger] budget@[k] == if h < n { n - h } else { 0 }
                },
                forall|j: int| 0 <= j < i && self.coloring@[j] == Coloring::Correct ==> #[trigger] o[j] == self.word@[j],
                forall|j: int| 0 <= j < i && self.coloring@[j] == Coloring::Misplaced ==> #[trigger] o[j] != self.word@[j],
                forall|j: int| 0 <= j < i && count_prefix(o, o[j], j) >= need(*self, o[j]) ==> !is_excluded(*self, #[trigger] o[j]),
            decreases WORD_SIZE - i,
        {
            let other_c = other[i];
            let self_c = self.word[i];
            let coloring = self.coloring.0[i];
            let matches = other_c == self_c;
            if coloring == Coloring::Correct && !matches {
                return false;
            }
            if coloring == Coloring::Misplaced && matches {
                return false;
            }
            let k = letter_idx(other_c);
            proof {
                assert(letter(k as int) == other_c);
            }
            if budget[k] > 0 {
                budget[k] = budget[k] - 1;
            } else if excluded[k] {
                proof {
                    lemma_count_monotone(o, other_c, i as int + 1, WORD_SIZE as int);
                    assert(count_prefix(o, other_c, i as int + 1) == count_prefix(o, other_c, i as int) + 1);
                    assert(is_excluded(*self, other_c));
                    assert(count_of(o, other_c) > need(*self, other_c));
                }
                return false;
            }
            proof {
                assert forall|k2: int| 0 <= k2 < ALPHABET_SIZE implies {
                    let n = need(*self, letter(k2)) as int;
                    let h = count_prefix(o, letter(k2), i as int + 1) as int;
                    #[trigger] budget@[k2] == if h < n { n - h } else { 0 }
                } by {
                    if letter(k2) == other_c {
                        assert(k2 == k);
                    }
                }
            }
            i += 1;
        }
        let mut k: usize = 0;
        while k < ALPHABET_SIZE
            invariant
                k <= ALPHABET_SIZE,
                o == other@,
                is_word(o),
                forall|k2: int| 0 <= k2 < ALPHABET_SIZE ==> {
                    let n = need(*self, letter(k2)) as int;
                    let h = count_of(o, letter(k2)) as int;
                    #[trigger] budget@[k2] == if h < n { n - h } else { 0 }
                },
                forall|k2: int| 0 <= k2 < k ==> budget@[k2] == 0,
            decreases ALPHABET_SIZE - k,
        {
            if budget[k] != 0 {
                proof {
                    assert(need(*self, letter(k as int)) > count_of(o, letter(k as int)));
                }
                return false;
            }
            k += 1;
        }
        proof {
            assert forall|c: u8| need(*self, c) <= #[trigger] count_of(o, c) by {
                if is_lower_letter(c) {
                    let k2 = c - LETTER_A;
                    assert(letter(k2) == c);
                    assert(budget@[k2] == 0);
                } else {
                    lemma_need_non_letter(*self, c, WORD_SIZE as int);
                }
            }
            assert forall|c: u8| is_excluded(*self, c) implies #[trigger] count_of(o, c) <= need(*self, c) by {
                if count_of(o, c) > need(*self, c) {
                    let j = lemma_count_witness(o, c, WORD_SIZE as int, need(*self, c));
                    assert(o[j] == c);
                }
            }
        }
        true
    }
}

} // verus!
