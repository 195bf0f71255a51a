//! The solver: the word universe, the guesses of a round, and the words that remain possible.
use vstd::prelude::*;
use vstd::string::StringSliceAdditionalSpecFns;
use vstd::utf8::encode_utf8;
use crate::prelude::{WORD_SIZE, NUM_TURNS, Word, is_word, is_wordle_str, word_array,
    normalize_wordle_word, trim_of, lower_of};
use crate::color::{Colorings, NUM_STATES, coloring_for, code_value};
use crate::guess::{Guess, allows, allowed_by_all, all_correct, lemma_answer_is_admitted};
use crate::option_iter::some_prefix;
use crate::data::{pack, pack_word, lemma_pack_injective};
use std::collections::HashSet;

verus! {

broadcast use vstd::std_specs::hash::group_hash_axioms;

/// Why a guess was refused. A refused guess leaves the solver as it was.
#[derive(Debug, Clone, PartialEq, Eq)]
pub enum SolverErr {
    /// No word remains possible: the colorings given so far contradict each other, or the
    /// answer is not in the universe.
    NoCandidates,
    /// Every turn of the round is used.
    TurnsExhausted,
    /// The last guess was colored all correct.
    AlreadySolved,
    /// The word, once normalized, is not `WORD_SIZE` lowercase letters.
    InvalidGuess(String),
}

/// Where a round stands.
#[derive(Debug, Clone, Copy, PartialEq, Eq, Structural)]
pub enum SolverState {
    /// No guess was made yet.
    Fresh,
    /// Guesses were made and more can be.
    InProgress,
    /// The last guess was colored all correct.
    Solved,
    /// Every turn is used.
    Exhausted,
    /// No word remains possible.
    Stuck,
}

/// The indices below `n` of the words of `words` that every guess of `gs` admits, in order.
pub open spec fn consistent_indices(words: Seq<Word>, gs: Seq<Guess>, n: int) -> Seq<usize>
    decreases n,
{
    if n <= 0 {
        Seq::empty()
    } else {
        let before = consistent_indices(words, gs, n - 1);
        if allowed_by_all(gs, words[n - 1]@) {
            before.push((n - 1) as usize)
        } else {
            before
        }
    }
}

/// Whether the text at index `i` of `ws` repeats, as bytes, a text before it.
pub open spec fn repeats_earlier(ws: Seq<String>, i: int) -> bool {
    exists|j: int| 0 <= j < i && encode_utf8(#[trigger] ws[j]@) == encode_utf8(ws[i]@)
}

/// The indices below `n` of the first copy of each text of `ws`, in order.
pub open spec fn first_copies(ws: Seq<String>, n: int) -> Seq<int>
    decreases n,
{
    if n <= 0 {
        Seq::empty()
    } else {
        let before = first_copies(ws, n - 1);
        if repeats_earlier(ws, n - 1) {
            before
        } else {
            before.push(n - 1)
        }
    }
}

/// The sum of the weights of the words at the first `n` indices of `idx`.
pub open spec fn weight_sum(weights: Seq<u32>, idx: Seq<usize>, n: int) -> nat
    decreases n,
{
    if n <= 0 {
        0
    } else {
        weight_sum(weights, idx, n - 1) + weights[idx[n - 1] as int] as nat
    }
}

/// The sum of the weights of the words at the first `n` indices of `idx` against which
/// `guess` gets the coloring with code `code`.
pub open spec fn bucket_sum(words: Seq<Word>, weights: Seq<u32>, idx: Seq<usize>, guess: Seq<u8>, code: nat, n: int) -> nat
    decreases n,
{
    if n <= 0 {
        0
    } else {
        bucket_sum(words, weights, idx, guess, code, n - 1) + if code_value(
            coloring_for(guess, words[idx[n - 1] as int]@),
        ) == code {
            weights[idx[n - 1] as int] as nat
        } else {
            0nat
        }
    }
}

/// The sum of the first `n` entries of `s`.
pub open spec fn total_of(s: Seq<u64>, n: int) -> nat
    decreases n,
{
    if n <= 0 {
        0
    } else {
        total_of(s, n - 1) + s[n - 1] as nat
    }
}

/// What a solver holds: the universe of words in rank order, the weight of each word (a
/// fraction with 32 fractional bits), and the guesses of the round.
pub struct SolverModel {
    pub words: Seq<Word>,
    pub weights: Seq<u32>,
    pub guesses: Seq<Guess>,
}

impl SolverModel {
    /// Whether `w` is a word of the universe.
    pub open spec fn contains_word(self, w: Seq<u8>) -> bool {
        exists|t: int| 0 <= t < self.words.len() && #[trigger] self.words[t]@ == w
    }

    /// The indices of the words that every guess so far admits, in rank order.
    pub open spec fn remaining(self) -> Seq<usize> {
        consistent_indices(self.words, self.guesses, self.words.len() as int)
    }

    /// The sum of the weights of the remaining words.
    pub open spec fn remaining_weight(self) -> nat {
        weight_sum(self.weights, self.remaining(), self.remaining().len() as int)
    }

    /// Whether the last guess was colored all correct.
    pub open spec fn is_solved(self) -> bool {
        self.guesses.len() > 0 && all_correct(self.guesses.last().coloring@)
    }

    /// Where the round stands.
    pub open spec fn state(self) -> SolverState {
        if self.guesses.len() == 0 {
            SolverState::Fresh
        } else if self.is_solved() {
            SolverState::Solved
        } else if self.remaining().len() == 0 {
            SolverState::Stuck
        } else if self.guesses.len() >= NUM_TURNS {
            SolverState::Exhausted
        } else {
            SolverState::InProgress
        }
    }

    /// The error with which a guess is refused whatever its word, if any, in the order
    /// in which they are checked.
    pub open spec fn blocked_by(self) -> Option<SolverErr> {
        if self.is_solved() {
            Some(SolverErr::AlreadySolved)
        } else if self.remaining().len() == 0 {
            Some(SolverErr::NoCandidates)
        } else if self.guesses.len() >= NUM_TURNS {
            Some(SolverErr::TurnsExhausted)
        } else {
            None
        }
    }

    /// Whether guess `g` is this model with one more guess, `word` colored `coloring`.
    pub open spec fn followed_by(self, g: SolverModel, word: Seq<u8>, coloring: Colorings) -> bool {
        &&& g.words == self.words
        &&& g.weights == self.weights
        &&& g.guesses.len() == self.guesses.len() + 1
        &&& g.guesses.subrange(0, self.guesses.len() as int) == self.guesses
        &&& g.guesses.last().word@ == word
        &&& g.guesses.last().coloring == coloring
    }
}

/// Solves the puzzle: keeps the guesses of a round and the words that remain possible.
pub struct Solver {
    words: Vec<Word>,
    weights: Vec<u32>,
    guesses: Vec<Guess>,
    remaining: Vec<usize>,
}

impl View for Solver {
    type V = SolverModel;

    closed spec fn view(&self) -> SolverModel {
        SolverModel { words: self.words@, weights: self.weights@, guesses: self.guesses@ }
    }
}

/// The indices admitted among the first `n` are increasing and below `n`.
proof fn lemma_consistent_indices_shape(words: Seq<Word>, gs: Seq<Guess>, n: int)
    requires
        0 <= n,
    ensures
        consistent_indices(words, gs, n).len() <= n,
        forall|i: int| 0 <= i < consistent_indices(words, gs, n).len() ==>
            #[trigger] consistent_indices(words, gs, n)[i] < n,
    decreases n,
{
    if n > 0 {
        lemma_consistent_indices_shape(words, gs, n - 1);
    }
}

/// With no guess every word is admitted.
proof fn lemma_consistent_indices_all(words: Seq<Word>, gs: Seq<Guess>, n: int)
    requires
        0 <= n,
        gs.len() == 0,
    ensures
        consistent_indices(words, gs, n).len() == n,
    decreases n,
{
    if n > 0 {
        lemma_consistent_indices_all(words, gs, n - 1);
    }
}

/// A sum of at most `n` weights is at most `n` times the largest weight.
proof fn lemma_weight_sum_bound(weights: Seq<u32>, idx: Seq<usize>, n: int)
    requires
        0 <= n <= idx.len(),
        forall|i: int| 0 <= i < idx.len() ==> #[trigger] idx[i] < weights.len(),
    ensures
        weight_sum(weights, idx, n) <= n * 0xffff_ffff,
    decreases n,
{
    if n > 0 {
        lemma_weight_sum_bound(weights, idx, n - 1);
    }
}

/// A bucket holds at most the weight of all the words counted.
proof fn lemma_bucket_sum_bound(words: Seq<Word>, weights: Seq<u32>, idx: Seq<usize>, guess: Seq<u8>, code: nat, n: int)
    requires
        0 <= n <= idx.len(),
    ensures
        bucket_sum(words, weights, idx, guess, code, n) <= weight_sum(weights, idx, n),
    decreases n,
{
    if n > 0 {
        lemma_bucket_sum_bound(words, weights, idx, guess, code, n - 1);
    }
}

/// Adding to one entry adds to the total.
proof fn lemma_total_of_update(s: Seq<u64>, i: int, v: u64, n: int)
    requires
        0 <= i < s.len(),
        0 <= n <= s.len(),
        v >= s[i],
    ensures
        total_of(s.update(i, v), n) == total_of(s, n) + if i < n { v - s[i] } else { 0 },
    decreases n,
{
    if n > 0 {
        lemma_total_of_update(s, i, v, n - 1);
    }
}

/// The total of zeros is zero.
proof fn lemma_total_of_zeros(s: Seq<u64>, n: int)
    requires
        0 <= n <= s.len(),
        forall|i: int| 0 <= i < s.len() ==> s[i] == 0,
    ensures
        total_of(s, n) == 0,
    decreases n,
{
    if n > 0 {
        lemma_total_of_zeros(s, n - 1);
    }
}

/// Whether the word `word` may still be the answer after every guess of `guesses`.
fn is_guess_allowed_by_existing_guesses(guesses: &Vec<Guess>, word: &[u8]) -> (r: bool)
    requires
        is_word(word@),
        forall|i: int| 0 <= i < guesses.len() ==> is_word(#[trigger] guesses@[i].word@),
    ensures
        r == allowed_by_all(guesses@, word@),
{
    let mut i: usize = 0;
    while i < guesses.len()
        invariant
            i <= guesses.len(),
            is_word(word@),
            forall|j: int| 0 <= j < guesses.len() ==> is_word(#[trigger] guesses@[j].word@),
            forall|j: int| 0 <= j < i ==> allows(#[trigger] guesses@[j], word@),
        decreases guesses.len() - i,
    {
        if !guesses[i].allows_word(word) {
            return false;
        }
        i += 1;
    }
    true
}

impl Solver {
    /// The invariant of a solver: valid words, one weight per word, a universe small enough
    /// for its weights to add up in 64 bits, at most `NUM_TURNS` guesses of valid words, and
    /// the remaining indices are those of the words that every guess admits.
    pub closed spec fn wf(&self) -> bool {
        &&& self.words.len() == self.weights.len()
        &&& self.words.len() <= u32::MAX
        &&& forall|t: int| 0 <= t < self.words.len() ==> is_word(#[trigger] self.words@[t]@)
        &&& forall|a: int, b: int| 0 <= a < b < self.words.len() ==> #[trigger] self.words@[a]@ != #[trigger] self.words@[b]@
        &&& self.guesses.len() <= NUM_TURNS
        &&& forall|i: int| 0 <= i < self.guesses.len() ==> is_word(#[trigger] self.guesses@[i].word@)
        &&& self.remaining@ == self@.remaining()
    }

    /// What the invariant of a solver says of its model: one weight per word, at most
    /// `u32::MAX` distinct valid words, and at most `NUM_TURNS` guesses of valid words.
    pub proof fn lemma_wf(&self)
        requires
            self.wf(),
        ensures
            self@.weights.len() == self@.words.len(),
            self@.words.len() <= u32::MAX,
            forall|t: int| 0 <= t < self@.words.len() ==> is_word(#[trigger] self@.words[t]@),
            forall|a: int, b: int| 0 <= a < b < self@.words.len() ==> #[trigger] self@.words[a]@ != #[trigger] self@.words[b]@,
            self@.guesses.len() <= NUM_TURNS,
            forall|i: int| 0 <= i < self@.guesses.len() ==> is_word(#[trigger] self@.guesses[i].word@),
    {
    }

    /// Recomputes the remaining words against the whole history of guesses.
    fn recompute_possibilities(&mut self)
        requires
            old(self).words.len() <= u32::MAX,
            forall|t: int| 0 <= t < old(self).words.len() ==> is_word(#[trigger] old(self).words@[t]@),
            forall|i: int| 0 <= i < old(self).guesses.len() ==> is_word(#[trigger] old(self).guesses@[i].word@),
        ensures
            final(self).words == old(self).words,
            final(self).weights == old(self).weights,
            final(self).guesses == old(self).guesses,
            final(self).remaining@ == final(self)@.remaining(),
    {
        let mut out: Vec<usize> = Vec::new();
        let mut t: usize = 0;
        while t < self.words.len()
            invariant
                t <= self.words.len(),
                forall|u: int| 0 <= u < self.words.len() ==> is_word(#[trigger] self.words@[u]@),
                forall|i: int| 0 <= i < self.guesses.len() ==> is_word(#[trigger] self.guesses@[i].word@),
                out@ == consistent_indices(self.words@, self.guesses@, t as int),
            decreases self.words.len() - t,
        {
            if is_guess_allowed_by_existing_guesses(&self.guesses, self.words[t].as_slice()) {
                out.push(t);
            }
            t += 1;
        }
        self.remaining = out;
    }

    /// Makes a solver over the universe `words`, in rank order, with the weight of each word
    /// (a fraction with 32 fractional bits). A word listed more than once counts once, at its
    /// first position and with the weight given there. Fails on the first text that is not a
    /// word.
    pub fn new(words: Vec<String>, weights: Vec<u32>) -> (r: Result<Solver, crate::data::LoadDataErr>)
        requires
            words.len() == weights.len(),
            words.len() <= u32::MAX,
        ensures
            (forall|t: int| 0 <= t < words.len() ==> is_word(encode_utf8(#[trigger] words@[t]@))) <==> r is Ok,
            r matches Ok(s) ==> {
                let kept = first_copies(words@, words.len() as int);
                &&& s.wf()
                &&& s@.words.len() == kept.len()
                &&& forall|v: int| 0 <= v < kept.len() ==> #[trigger] s@.words[v]@ == encode_utf8(words@[kept[v]]@)
                &&& forall|v: int| 0 <= v < kept.len() ==> #[trigger] s@.weights[v] == weights@[kept[v]]
                &&& forall|t: int| 0 <= t < words.len() ==> s@.contains_word(encode_utf8(#[trigger] words@[t]@))
                &&& s@.guesses.len() == 0
            },
            r matches Err(e) ==> (e matches crate::data::LoadDataErr::NonWordleWord(w) && exists|t: int|
                0 <= t < words.len() && !is_word(encode_utf8(#[trigger] words@[t]@)) && w@ == words@[t]@
                && forall|u: int| 0 <= u < t ==> is_word(encode_utf8(#[trigger] words@[u]@))),
    {
        let mut ws: Vec<Word> = Vec::new();
        let mut wts: Vec<u32> = Vec::new();
        let mut seen: HashSet<u64> = HashSet::new();
        let mut t: usize = 0;
        while t < words.len()
            invariant
                t <= words.len(),
                words.len() == weights.len(),
                words.len() <= u32::MAX,
                ws.len() <= t,
                forall|u: int| 0 <= u < t ==> is_word(encode_utf8(#[trigger] words@[u]@)),
                forall|v: int| 0 <= v < ws.len() ==> is_word(#[trigger] ws@[v]@),
                ws.len() == first_copies(words@, t as int).len(),
                wts.len() == ws.len(),
                forall|v: int| 0 <= v < ws.len() ==> 0 <= #[trigger] first_copies(words@, t as int)[v] < t,
                forall|v: int| 0 <= v < ws.len() ==> #[trigger] ws@[v]@
                    == encode_utf8(words@[first_copies(words@, t as int)[v]]@),
                forall|v: int| 0 <= v < ws.len() ==> #[trigger] wts@[v]
                    == weights@[first_copies(words@, t as int)[v]],
                forall|x: u64| seen@.contains(x) <==> exists|j: int| 0 <= j < t
                    && #[trigger] pack(encode_utf8(words@[j]@)) == x,
                forall|a: int, b: int| 0 <= a < b < ws.len() ==> #[trigger] ws@[a]@ != #[trigger] ws@[b]@,
                forall|u: int| 0 <= u < t ==> exists|v: int| 0 <= v < ws.len()
                    && #[trigger] ws@[v]@ == encode_utf8(#[trigger] words@[u]@),
            decreases words.len() - t,
        {
            let w = words[t].as_str();
            if !is_wordle_str(w) {
                return Err(crate::data::LoadDataErr::NonWordleWord(words[t].clone()));
            }
            let ghost b = encode_utf8(words@[t as int]@);
            let x = pack_word(w.as_bytes());
            proof {
                if repeats_earlier(words@, t as int) {
                    let j = choose|j: int| 0 <= j < t && encode_utf8(#[trigger] words@[j]@) == b;
                    assert(seen@.contains(x));
                }
                if seen@.contains(x) {
                    let j = choose|j: int| 0 <= j < t && #[trigger] pack(encode_utf8(words@[j]@)) == x;
                    lemma_pack_injective(encode_utf8(words@[j]@), b);
                    assert(encode_utf8(words@[j]@) == encode_utf8(words@[t as int]@));
                }
            }
            if !seen.contains(&x) {
                seen.insert(x);
                let ghost fc = first_copies(words@, t as int);
                let ghost old_ws = ws@;
                ws.push(word_array(w.as_bytes()));
                wts.push(weights[t]);
                proof {
                    assert(first_copies(words@, t as int + 1) == fc.push(t as int));
                    assert forall|a: int, c: int| 0 <= a < c < ws.len() implies #[trigger] ws@[a]@ != #[trigger] ws@[c]@ by {
                        if c == ws.len() - 1 {
                            if ws@[a]@ == b {
                                assert(encode_utf8(words@[fc[a]]@) == encode_utf8(words@[t as int]@));
                                assert(repeats_earlier(words@, t as int));
                            }
                        }
                    }
                    assert forall|u: int| 0 <= u < t + 1 implies exists|v: int| 0 <= v < ws.len()
                        && #[trigger] ws@[v]@ == encode_utf8(#[trigger] words@[u]@) by {
                        if u == t {
                            assert(ws@[ws.len() - 1]@ == b);
                        } else {
                            let v = choose|v: int| 0 <= v < old_ws.len() && #[trigger] old_ws[v]@ == encode_utf8(#[trigger] words@[u]@);
                            assert(ws@[v] == old_ws[v]);
                            assert(ws@[v]@ == encode_utf8(words@[u]@));
                        }
                    }
                }
            } else {
                proof {
                    assert(first_copies(words@, t as int + 1) == first_copies(words@, t as int));
                    let j = choose|j: int| 0 <= j < t && encode_utf8(#[trigger] words@[j]@) == b;
                    let v = choose|v: int| 0 <= v < ws.len() && #[trigger] ws@[v]@ == encode_utf8(#[trigger] words@[j]@);
                    assert(ws@[v]@ == encode_utf8(words@[t as int]@));
                }
            }
            t += 1;
        }
        let mut s = Solver { words: ws, weights: wts, guesses: Vec::new(), remaining: Vec::new() };
        s.recompute_possibilities();
        proof {
            assert forall|u: int| 0 <= u < words.len() implies s@.contains_word(encode_utf8(#[trigger] words@[u]@)) by {
                let v = choose|v: int| 0 <= v < s.words.len() && #[trigger] s.words@[v]@ == encode_utf8(#[trigger] words@[u]@);
            }
        }
        Ok(s)
    }
}

impl Solver {
    /// Whether the last guess was colored all correct.
    pub fn is_solved(&self) -> (r: bool)
        requires
            self.wf(),
        ensures
            r == self@.is_solved(),
    {
        if self.guesses.len() == 0 {
            false
        } else {
            self.guesses[self.guesses.len() - 1].is_correct()
        }
    }

    /// Whether any word remains possible.
    pub fn has_possible_guesses(&self) -> (r: bool)
        requires
            self.wf(),
        ensures
            r == (self@.remaining().len() > 0),
    {
        self.remaining.len() > 0
    }

    /// How many words remain possible.
    pub fn num_remaining_possibilities(&self) -> (r: usize)
        requires
            self.wf(),
        ensures
            r == self@.remaining().len(),
    {
        self.remaining.len()
    }

    /// How many words the universe has.
    pub fn num_total_possibilities(&self) -> (r: usize)
        ensures
            r == self@.words.len(),
    {
        self.words.len()
    }

    /// How many guesses were made.
    pub fn num_guesses(&self) -> (r: usize)
        ensures
            r == self@.guesses.len(),
    {
        self.guesses.len()
    }

    /// Where the next guess goes, or `None` where every turn is used.
    fn next_guess_idx(&self) -> (r: Option<usize>)
        ensures
            self@.guesses.len() < NUM_TURNS ==> r == Some(self@.guesses.len() as usize),
            self@.guesses.len() >= NUM_TURNS ==> r.is_none(),
    {
        if self.guesses.len() < NUM_TURNS {
            Some(self.guesses.len())
        } else {
            None
        }
    }

    /// Whether no guess was made yet.
    pub fn is_default_state(&self) -> (r: bool)
        ensures
            r == (self@.guesses.len() == 0),
    {
        self.guesses.len() == 0
    }

    /// Whether the top `k` guesses may come from a precomputed table of the opening state with
    /// `table_len` entries, if there is one: no guess was made yet and the table holds at
    /// least `k` entries.
    pub fn use_cached_table(&self, table_len: Option<usize>, k: usize) -> (r: bool)
        ensures
            r == (self@.guesses.len() == 0 && table_len is Some && table_len.unwrap() >= k),
    {
        match table_len {
            Some(n) => self.is_default_state() && n >= k,
            None => false,
        }
    }

    /// Whether a guess can be made: turns are left, the round is not solved, and some word
    /// remains possible.
    pub fn can_guess(&self) -> (r: bool)
        requires
            self.wf(),
        ensures
            r == self@.blocked_by().is_none(),
    {
        self.num_guesses() < NUM_TURNS && !self.is_solved() && self.has_possible_guesses()
    }

    /// Where the round stands.
    pub fn state(&self) -> (r: SolverState)
        requires
            self.wf(),
        ensures
            r == self@.state(),
    {
        if self.guesses.len() == 0 {
            SolverState::Fresh
        } else if self.is_solved() {
            SolverState::Solved
        } else if !self.has_possible_guesses() {
            SolverState::Stuck
        } else if self.guesses.len() >= NUM_TURNS {
            SolverState::Exhausted
        } else {
            SolverState::InProgress
        }
    }

    /// The guesses made so far, in order.
    pub fn iter_guesses(&self) -> (r: &[Guess])
        ensures
            r@ == self@.guesses,
    {
        self.guesses.as_slice()
    }

    /// The indices of the words that remain possible, in rank order.
    pub fn remaining_indices(&self) -> (r: &[usize])
        requires
            self.wf(),
        ensures
            r@ == self@.remaining(),
    {
        self.remaining.as_slice()
    }

    /// The word at index `t` of the universe.
    pub fn word_at(&self, t: usize) -> (r: Word)
        requires
            t < self@.words.len(),
        ensures
            r == self@.words[t as int],
    {
        self.words[t]
    }

    /// The weight of the word at index `t` of the universe.
    pub fn weight_at(&self, t: usize) -> (r: u32)
        requires
            self.wf(),
            t < self@.words.len(),
        ensures
            r == self@.weights[t as int],
    {
        self.weights[t]
    }

    /// The index of the first word of the universe equal to `word`, if any.
    pub fn index_of(&self, word: &str) -> (r: Option<usize>)
        ensures
            r matches Some(t) ==> (t < self@.words.len() && self@.words[t as int]@ == word.spec_bytes()
                && forall|u: int| 0 <= u < t ==> #[trigger] self@.words[u]@ != word.spec_bytes()),
            r is None ==> forall|t: int| 0 <= t < self@.words.len() ==> #[trigger] self@.words[t]@ != word.spec_bytes(),
    {
        let b = word.as_bytes();
        if b.len() != WORD_SIZE {
            return None;
        }
        let mut t: usize = 0;
        while t < self.words.len()
            invariant
                t <= self.words.len(),
                b@ == word.spec_bytes(),
                b@.len() == WORD_SIZE,
                forall|u: int| 0 <= u < t ==> #[trigger] self.words@[u]@ != b@,
            decreases self.words.len() - t,
        {
            let w = &self.words[t];
            let mut i: usize = 0;
            let mut same = true;
            while i < WORD_SIZE
                invariant
                    i <= WORD_SIZE,
                    b@.len() == WORD_SIZE,
                    same <==> forall|j: int| 0 <= j < i ==> w@[j] == b@[j],
                decreases WORD_SIZE - i,
            {
                if w[i] != b[i] {
                    same = false;
                }
                i += 1;
            }
            if same {
                proof {
                    assert(w@ =~= b@);
                }
                return Some(t);
            }
            t += 1;
        }
        None
    }

    /// Whether `guess` is a word of the universe. Says nothing of the guesses made so far.
    pub fn is_guess_permitted(&self, guess: &str) -> (r: bool)
        ensures
            r == self@.contains_word(guess.spec_bytes()),
    {
        match self.index_of(guess) {
            Some(_) => true,
            None => false,
        }
    }

    /// Records guess `word`, already normalized, with the coloring it got, and narrows the
    /// remaining words to those that every guess admits. Refused, with nothing changed, where
    /// the round is solved, no word remains, every turn is used, or `word` is not a word, in
    /// that order.
    pub fn apply_guess(&mut self, word: &str, coloring: Colorings) -> (r: Result<(), SolverErr>)
        requires
            old(self).wf(),
        ensures
            final(self).wf(),
            old(self)@.blocked_by() matches Some(e) ==> (r == Err::<(), SolverErr>(e) && final(self)@ == old(self)@),
            old(self)@.blocked_by() is None && !is_word(word.spec_bytes()) ==> (
                r matches Err(SolverErr::InvalidGuess(w)) && w@ == word@ && final(self)@ == old(self)@),
            old(self)@.blocked_by() is None && is_word(word.spec_bytes()) ==> (
                r is Ok && old(self)@.followed_by(final(self)@, word.spec_bytes(), coloring)),
    {
        if self.is_solved() {
            return Err(SolverErr::AlreadySolved);
        }
        if !self.has_possible_guesses() {
            return Err(SolverErr::NoCandidates);
        }
        if self.next_guess_idx().is_none() {
            return Err(SolverErr::TurnsExhausted);
        }
        if !is_wordle_str(word) {
            return Err(SolverErr::InvalidGuess(word.to_owned()));
        }
        let w = word_array(word.as_bytes());
        let ghost before = self.guesses@;
        self.guesses.push(Guess { word: w, coloring });
        proof {
            assert(self.guesses@.subrange(0, before.len() as int) =~= before);
        }
        self.recompute_possibilities();
        Ok(())
    }

    /// Records `guess` with the coloring it got, as `apply_guess` does, once the word is
    /// normalized with `normalize_wordle_word`.
    pub fn make_guess(&mut self, guess: &str, coloring: Colorings) -> (r: Result<(), SolverErr>)
        requires
            old(self).wf(),
        ensures
            final(self).wf(),
            ({
                let word = lower_of(trim_of(guess@));
                &&& old(self)@.blocked_by() matches Some(e) ==> (r == Err::<(), SolverErr>(e) && final(self)@ == old(self)@)
                &&& old(self)@.blocked_by() is None && !is_word(encode_utf8(word)) ==> (
                    r matches Err(SolverErr::InvalidGuess(w)) && w@ == word && final(self)@ == old(self)@)
                &&& old(self)@.blocked_by() is None && is_word(encode_utf8(word)) ==> (
                    r is Ok && old(self)@.followed_by(final(self)@, encode_utf8(word), coloring))
            }),
    {
        let word = normalize_wordle_word(guess);
        self.apply_guess(word.as_str(), coloring)
    }

    /// Forgets every guess: the round starts over with the whole universe possible. The
    /// universe and its weights stay.
    pub fn reset(&mut self)
        requires
            old(self).wf(),
        ensures
            final(self).wf(),
            final(self)@.words == old(self)@.words,
            final(self)@.weights == old(self)@.weights,
            final(self)@.guesses.len() == 0,
    {
        self.guesses = Vec::new();
        self.recompute_possibilities();
    }

    /// The sum of the weights of the remaining words.
    pub fn remaining_weight(&self) -> (r: u64)
        requires
            self.wf(),
        ensures
            r == self@.remaining_weight(),
    {
        let ghost rem = self@.remaining();
        proof {
            lemma_consistent_indices_shape(self.words@, self.guesses@, self.words.len() as int);
        }
        let mut total: u64 = 0;
        let mut i: usize = 0;
        while i < self.remaining.len()
            invariant
                self.wf(),
                rem == self@.remaining(),
                i <= rem.len(),
                rem.len() <= self.words.len(),
                forall|j: int| 0 <= j < rem.len() ==> #[trigger] rem[j] < self.words.len(),
                total == weight_sum(self.weights@, rem, i as int),
            decreases rem.len() - i,
        {
            proof {
                lemma_weight_sum_bound(self.weights@, rem, i as int + 1);
                assert((i as int + 1) * 0xffff_ffff <= 0xffff_ffff * 0xffff_ffff) by (nonlinear_arith)
                    requires
                        i as int + 1 <= 0xffff_ffff,
                ;
            }
            total = total + self.weights[self.remaining[i]] as u64;
            i += 1;
        }
        total
    }

    /// For each coloring code, the sum of the weights of the remaining words against which
    /// `guess` gets that coloring. Every remaining word falls in exactly one bucket, so the
    /// buckets add up to the weight of all the remaining words.
    pub fn coloring_weights(&self, guess: &[u8]) -> (r: Vec<u64>)
        requires
            self.wf(),
            is_word(guess@),
        ensures
            r.len() == NUM_STATES,
            forall|c: int| 0 <= c < NUM_STATES ==> #[trigger] r@[c] == bucket_sum(self@.words, self@.weights,
                self@.remaining(), guess@, c as nat, self@.remaining().len() as int),
            total_of(r@, NUM_STATES as int) == self@.remaining_weight(),
    {
        let ghost rem = self@.remaining();
        proof {
            lemma_consistent_indices_shape(self.words@, self.guesses@, self.words.len() as int);
        }
        let mut buckets: Vec<u64> = vec![0u64; NUM_STATES];
        proof {
            lemma_total_of_zeros(buckets@, NUM_STATES as int);
        }
        let mut i: usize = 0;
        while i < self.remaining.len()
            invariant
                self.wf(),
                is_word(guess@),
                rem == self@.remaining(),
                i <= rem.len(),
                rem.len() <= self.words.len(),
                forall|j: int| 0 <= j < rem.len() ==> #[trigger] rem[j] < self.words.len(),
                buckets.len() == NUM_STATES,
                forall|c: int| 0 <= c < NUM_STATES ==> #[trigger] buckets@[c] == bucket_sum(self.words@,
                    self.weights@, rem, guess@, c as nat, i as int),
                total_of(buckets@, NUM_STATES as int) == weight_sum(self.weights@, rem, i as int),
            decreases rem.len() - i,
        {
            let t = self.remaining[i];
            let code = Colorings::with_guess_answer_bytes(guess, self.words[t].as_slice()).to_code() as usize;
            let w = self.weights[t] as u64;
            proof {
                lemma_bucket_sum_bound(self.words@, self.weights@, rem, guess@, code as nat, i as int);
                lemma_weight_sum_bound(self.weights@, rem, i as int + 1);
                assert((i as int + 1) * 0xffff_ffff <= 0xffff_ffff * 0xffff_ffff) by (nonlinear_arith)
                    requires
                        i as int + 1 <= 0xffff_ffff,
                ;
            }
            let ghost old_buckets = buckets@;
            let v = buckets[code] + w;
            buckets.set(code, v);
            proof {
                lemma_total_of_update(old_buckets, code as int, v, NUM_STATES as int);
                assert(buckets@ == old_buckets.update(code as int, v));
            }
            i += 1;
        }
        buckets
    }
}

/// The indices admitted among the first `n` are exactly those of the words that every guess
/// admits.
proof fn lemma_consistent_indices_exact(words: Seq<Word>, gs: Seq<Guess>, n: int, t: int)
    requires
        0 <= t < n <= words.len(),
        words.len() <= u32::MAX,
    ensures
        consistent_indices(words, gs, n).contains(t as usize) <==> allowed_by_all(gs, words[t]@),
    decreases n,
{
    lemma_consistent_indices_shape(words, gs, n - 1);
    let before = consistent_indices(words, gs, n - 1);
    if t < n - 1 {
        lemma_consistent_indices_exact(words, gs, n - 1, t);
        if allowed_by_all(gs, words[n - 1]@) {
            let pushed = before.push((n - 1) as usize);
            if pushed.contains(t as usize) {
                let k = choose|k: int| 0 <= k < pushed.len() && #[trigger] pushed[k] == t as usize;
                if k == before.len() {
                    assert(t as usize == (n - 1) as usize);
                }
                assert(before[k] == t as usize);
            }
            if before.contains(t as usize) {
                let k = choose|k: int| 0 <= k < before.len() && before[k] == t as usize;
                assert(before.push((n - 1) as usize)[k] == t as usize);
            }
        }
    } else {
        if allowed_by_all(gs, words[n - 1]@) {
            assert(before.push((n - 1) as usize)[before.len() as int] == t as usize);
        } else {
            if before.contains(t as usize) {
                let k = choose|k: int| 0 <= k < before.len() && before[k] == t as usize;
                assert(before[k] < n - 1);
            }
        }
    }
}

/// The remaining words are exactly the words of the universe that every guess so far
/// admits, and each of them is a word of the universe.
pub proof fn lemma_remaining_exact(m: SolverModel, t: int)
    requires
        0 <= t < m.words.len(),
        m.words.len() <= u32::MAX,
    ensures
        m.remaining().contains(t as usize) <==> allowed_by_all(m.guesses, m.words[t]@),
        forall|i: int| 0 <= i < m.remaining().len() ==> #[trigger] m.remaining()[i] < m.words.len(),
{
    lemma_consistent_indices_exact(m.words, m.guesses, m.words.len() as int, t);
    lemma_consistent_indices_shape(m.words, m.guesses, m.words.len() as int);
}

/// While every coloring is the one a word of the universe gives, and that word was not
/// guessed, the word remains possible.
pub proof fn lemma_answer_remains(m: SolverModel, t: int)
    requires
        0 <= t < m.words.len(),
        m.words.len() <= u32::MAX,
        is_word(m.words[t]@),
        forall|i: int| 0 <= i < m.guesses.len() ==> is_word(#[trigger] m.guesses[i].word@),
        forall|i: int| 0 <= i < m.guesses.len() ==> #[trigger] m.guesses[i].coloring@
            == coloring_for(m.guesses[i].word@, m.words[t]@),
        forall|i: int| 0 <= i < m.guesses.len() ==> #[trigger] m.guesses[i].word@ != m.words[t]@,
    ensures
        m.remaining().contains(t as usize),
{
    assert forall|i: int| 0 <= i < m.guesses.len() implies allows(#[trigger] m.guesses[i], m.words[t]@) by {
        lemma_answer_is_admitted(m.guesses[i], m.words[t]@);
    }
    lemma_remaining_exact(m, t);
}

/// An accepted guess colored all correct solves the round, and every later guess is refused
/// as already solved.
pub proof fn lemma_all_correct_solves(m: SolverModel, g: SolverModel, word: Seq<u8>, coloring: Colorings)
    requires
        m.blocked_by() is None,
        m.followed_by(g, word, coloring),
        all_correct(coloring@),
    ensures
        g.state() == SolverState::Solved,
        g.blocked_by() == Some(SolverErr::AlreadySolved),
{
}

/// After `NUM_TURNS` guesses, none colored all correct, with some word still possible, the
/// turns are exhausted and every later guess is refused for it.
pub proof fn lemma_turns_exhaust(g: SolverModel)
    requires
        g.guesses.len() == NUM_TURNS,
        !all_correct(g.guesses.last().coloring@),
        g.remaining().len() > 0,
    ensures
        g.state() == SolverState::Exhausted,
        g.blocked_by() == Some(SolverErr::TurnsExhausted),
{
}

/// A round without guesses is fresh and has every word of the universe possible.
pub proof fn lemma_reset_is_fresh(m: SolverModel)
    requires
        m.guesses.len() == 0,
    ensures
        m.state() == SolverState::Fresh,
        m.remaining().len() == m.words.len(),
{
    lemma_consistent_indices_all(m.words, m.guesses, m.words.len() as int);
}

impl Solver {
    /// The universe index of each word of a precomputed opening table, in order. A word that
    /// is not in the universe makes the table unusable.
    pub fn compute_default_state_guesses(&self, words: &Vec<String>) -> (r: Result<Vec<usize>, crate::data::LoadDataErr>)
        ensures
            r matches Ok(idx) ==> (idx.len() == words.len() && forall|i: int| 0 <= i < words.len() ==> {
                &&& #[trigger] idx@[i] < self@.words.len()
                &&& self@.words[idx@[i] as int]@ == encode_utf8(words@[i]@)
            }),
            (forall|i: int| 0 <= i < words.len() ==> self@.contains_word(encode_utf8(#[trigger] words@[i]@))) <==> r is Ok,
            r matches Err(e) ==> (e matches crate::data::LoadDataErr::NonWordleWord(w) && exists|i: int|
                0 <= i < words.len() && w@ == #[trigger] words@[i]@),
    {
        let mut out: Vec<usize> = Vec::new();
        let mut i: usize = 0;
        while i < words.len()
            invariant
                i <= words.len(),
                out.len() == i,
                forall|j: int| 0 <= j < i ==> {
                    &&& #[trigger] out@[j] < self@.words.len()
                    &&& self@.words[out@[j] as int]@ == encode_utf8(words@[j]@)
                },
            decreases words.len() - i,
        {
            match self.index_of(words[i].as_str()) {
                Some(t) => out.push(t),
                None => {
                    proof {
                        assert forall|t: int| 0 <= t < self@.words.len() implies #[trigger] self@.words[t]@
                            != encode_utf8(words@[i as int]@) by {}
                    }
                    return Err(crate::data::LoadDataErr::NonWordleWord(words[i].clone()));
                },
            }
            i += 1;
        }
        proof {
            assert forall|j: int| 0 <= j < words.len() implies self@.contains_word(encode_utf8(#[trigger] words@[j]@)) by {
                assert(self@.words[out@[j] as int]@ == encode_utf8(words@[j]@));
            }
        }
        Ok(out)
    }
}

/// The guesses of a slot array, up to its first empty slot: a guess after an empty slot
/// does not count.
pub fn iter_guesses(guesses: &[Option<Guess>]) -> (r: Vec<Guess>)
    ensures
        r@ == some_prefix(guesses@),
{
    let mut out: Vec<Guess> = Vec::new();
    let mut i: usize = 0;
    proof {
        assert(guesses@.subrange(0, guesses@.len() as int) =~= guesses@);
        assert(out@ + some_prefix(guesses@) =~= some_prefix(guesses@));
    }
    while i < guesses.len()
        invariant
            i <= guesses.len(),
            out@ + some_prefix(guesses@.subrange(i as int, guesses@.len() as int)) == some_prefix(guesses@),
        decreases guesses.len() - i,
    {
        let ghost rest = guesses@.subrange(i as int, guesses@.len() as int);
        match guesses[i] {
            Some(g) => {
                let ghost before = out@;
                out.push(g);
                proof {
                    assert(rest.drop_first() =~= guesses@.subrange(i as int + 1, guesses@.len() as int));
                    assert(before + (seq![g] + some_prefix(rest.drop_first()))
                        =~= before.push(g) + some_prefix(rest.drop_first()));
                }
            },
            None => {
                proof {
                    assert(out@ + Seq::<Guess>::empty() =~= out@);
                }
                return out;
            },
        }
        i += 1;
    }
    proof {
        assert(guesses@.subrange(i as int, guesses@.len() as int) =~= Seq::<Option<Guess>>::empty());
        assert(out@ + Seq::<Guess>::empty() =~= out@);
    }
    out
}

} // verus!
