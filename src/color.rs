//! Feedback colorings, their integer codes, and the coloring a guess gets against an answer.
use vstd::prelude::*;
use vstd::string::{StringSliceAdditionalSpecFns, StringExecFns};
use vstd::arithmetic::div_mod::lemma_fundamental_div_mod_converse;
use crate::prelude::{WORD_SIZE, ALPHABET_SIZE, LETTER_A, is_word, letter_idx, count_letters_bytes, count_of, count_prefix};

verus! {

/// The integer code of a full coloring: a base-3 number whose least significant digit is
/// position 0.
pub type ColoringCode = u8;

/// How many full colorings there are: `3` to the power `WORD_SIZE`.
pub const NUM_STATES: usize = 243;

/// The verdict shown for one letter of a guess.
#[derive(Debug, Clone, Copy, PartialEq, Eq, Hash, Structural)]
pub enum Coloring {
    /// The letter does not occur (again) in the answer.
    Excluded,
    /// The letter occurs in the answer, elsewhere.
    Misplaced,
    /// The letter occurs in the answer at this position.
    Correct,
}

/// The digit (0, 1 or 2) of a coloring.
pub open spec fn ordinal_of(c: Coloring) -> nat {
    match c {
        Coloring::Excluded => 0,
        Coloring::Misplaced => 1,
        Coloring::Correct => 2,
    }
}

/// The coloring of a digit; digits are taken modulo 3.
pub open spec fn coloring_of_digit(d: nat) -> Coloring {
    if d % 3 == 0 {
        Coloring::Excluded
    } else if d % 3 == 1 {
        Coloring::Misplaced
    } else {
        Coloring::Correct
    }
}

impl Coloring {
    /// The three colorings, in the order of their digits.
    pub const ALL: [Coloring; 3] = [Coloring::Excluded, Coloring::Misplaced, Coloring::Correct];

    /// How many colorings there are.
    pub const NUM: usize = 3;

    /// The digit of this coloring: 0, 1 or 2.
    pub fn ordinal(&self) -> (r: ColoringCode)
        ensures
            r == ordinal_of(*self),
    {
        match self {
            Coloring::Excluded => 0,
            Coloring::Misplaced => 1,
            Coloring::Correct => 2,
        }
    }

    /// The coloring whose digit is `code`, if `code` is 0, 1 or 2.
    pub fn from_ordinal(code: ColoringCode) -> (r: Option<Coloring>)
        ensures
            code < 3 ==> r == Some(coloring_of_digit(code as nat)),
            code >= 3 ==> r.is_none(),
    {
        match code {
            0 => Some(Coloring::Excluded),
            1 => Some(Coloring::Misplaced),
            2 => Some(Coloring::Correct),
            _ => None,
        }
    }

    /// A square of the matching color, for display.
    pub fn emoji(&self) -> (r: &'static str)
        ensures
            *self == Coloring::Excluded ==> r@ == "\u{2b1b}"@,
            *self == Coloring::Misplaced ==> r@ == "\u{1f7e8}"@,
            *self == Coloring::Correct ==> r@ == "\u{1f7e9}"@,
    {
        match self {
            Coloring::Excluded => "\u{2b1b}",
            Coloring::Misplaced => "\u{1f7e8}",
            Coloring::Correct => "\u{1f7e9}",
        }
    }
}

/// The code of a sequence of colorings, position 0 least significant.
pub open spec fn code_value(cs: Seq<Coloring>) -> nat
    decreases cs.len(),
{
    if cs.len() == 0 {
        0
    } else {
        ordinal_of(cs[0]) + 3 * code_value(cs.drop_first())
    }
}

/// The first `n` base-3 digits of `code`, as colorings, least significant first.
pub open spec fn colorings_of_code(code: nat, n: nat) -> Seq<Coloring>
    decreases n,
{
    if n == 0 {
        Seq::empty()
    } else {
        seq![coloring_of_digit(code % 3)] + colorings_of_code(code / 3, (n - 1) as nat)
    }
}

/// Three to the power `n`.
pub open spec fn pow3(n: nat) -> nat
    decreases n,
{
    if n == 0 {
        1
    } else {
        3 * pow3((n - 1) as nat)
    }
}

/// A code is below three to the power of the number of colorings it encodes.
pub proof fn lemma_code_value_bound(cs: Seq<Coloring>)
    ensures
        code_value(cs) < pow3(cs.len()),
    decreases cs.len(),
{
    if cs.len() > 0 {
        lemma_code_value_bound(cs.drop_first());
    }
}

/// Decoding the code of a sequence of colorings gives the sequence back.
pub proof fn lemma_decode_encode(cs: Seq<Coloring>)
    ensures
        colorings_of_code(code_value(cs), cs.len()) == cs,
    decreases cs.len(),
{
    if cs.len() > 0 {
        let rest = cs.drop_first();
        let x = code_value(cs);
        lemma_decode_encode(rest);
        lemma_fundamental_div_mod_converse(x as int, 3, code_value(rest) as int, ordinal_of(cs[0]) as int);
        assert(coloring_of_digit(x % 3) == cs[0]);
        assert(colorings_of_code(x, cs.len()) =~= cs);
    }
}

/// Encoding the colorings of a code below `pow3(n)` gives the code back.
pub proof fn lemma_encode_decode(code: nat, n: nat)
    requires
        code < pow3(n),
    ensures
        code_value(colorings_of_code(code, n)) == code,
        colorings_of_code(code, n).len() == n,
    decreases n,
{
    if n > 0 {
        let cs = colorings_of_code(code, n);
        lemma_encode_decode(code / 3, (n - 1) as nat);
        assert(cs.drop_first() =~= colorings_of_code(code / 3, (n - 1) as nat));
        assert(ordinal_of(coloring_of_digit(code % 3)) == code % 3);
    } else {
        assert(code == 0);
    }
}

/// The codec is a bijection between the full colorings and the codes below `NUM_STATES`:
/// decoding an encoded coloring gives it back, two colorings with one code are equal, and
/// every code in range is the code of the coloring it decodes to.
pub proof fn lemma_codec_bijection(a: Colorings, b: Colorings, code: nat)
    requires
        code < NUM_STATES,
    ensures
        colorings_of_code(code_value(a@), WORD_SIZE as nat) == a@,
        code_value(a@) < NUM_STATES,
        code_value(a@) == code_value(b@) ==> a == b,
        code_value(colorings_of_code(code, WORD_SIZE as nat)) == code,
{
    lemma_pow3_values();
    lemma_decode_encode(a@);
    lemma_decode_encode(b@);
    lemma_code_value_bound(a@);
    lemma_encode_decode(code, WORD_SIZE as nat);
    if code_value(a@) == code_value(b@) {
        assert(a.0@ =~= b.0@);
        assert(a.0 =~= b.0);
    }
}

/// The letter with alphabet position `k`.
pub open spec fn letter(k: int) -> u8 {
    (k + LETTER_A) as u8
}

/// How many of the first `n` positions hold `c` in the guess but not in the answer.
pub open spec fn open_prefix(g: Seq<u8>, a: Seq<u8>, c: u8, n: int) -> nat
    decreases n,
{
    if n <= 0 {
        0
    } else {
        open_prefix(g, a, c, n - 1) + if g[n - 1] == c && g[n - 1] != a[n - 1] { 1nat } else { 0nat }
    }
}

/// How many of the first `n` positions hold `c` in the answer but not in the guess.
pub open spec fn unmatched_prefix(g: Seq<u8>, a: Seq<u8>, c: u8, n: int) -> nat
    decreases n,
{
    if n <= 0 {
        0
    } else {
        unmatched_prefix(g, a, c, n - 1) + if a[n - 1] == c && g[n - 1] != a[n - 1] { 1nat } else { 0nat }
    }
}

/// How many of the first `n` positions hold `c` in both the guess and the answer.
pub open spec fn matched_prefix(g: Seq<u8>, a: Seq<u8>, c: u8, n: int) -> nat
    decreases n,
{
    if n <= 0 {
        0
    } else {
        matched_prefix(g, a, c, n - 1) + if a[n - 1] == c && g[n - 1] == a[n - 1] { 1nat } else { 0nat }
    }
}

/// The verdict at position `i` of guess `g` against answer `a`: `Correct` where the letters
/// agree; elsewhere `Misplaced` as long as the answer has copies of the letter left that no
/// position marks `Correct` and no earlier position marks `Misplaced`; else `Excluded`.
pub open spec fn color_at(g: Seq<u8>, a: Seq<u8>, i: int) -> Coloring {
    if g[i] == a[i] {
        Coloring::Correct
    } else if open_prefix(g, a, g[i], i) < unmatched_prefix(g, a, g[i], a.len() as int) {
        Coloring::Misplaced
    } else {
        Coloring::Excluded
    }
}

/// The coloring that guess `g` gets when the answer is `a`.
pub open spec fn coloring_for(g: Seq<u8>, a: Seq<u8>) -> Seq<Coloring> {
    Seq::new(WORD_SIZE as nat, |i: int| color_at(g, a, i))
}

/// Every copy of a letter in the answer is either matched by the guess or not.
pub proof fn lemma_count_split(g: Seq<u8>, a: Seq<u8>, c: u8, n: int)
    requires
        0 <= n,
    ensures
        count_prefix(a, c, n) == unmatched_prefix(g, a, c, n) + matched_prefix(g, a, c, n),
    decreases n,
{
    if n > 0 {
        lemma_count_split(g, a, c, n - 1);
    }
}

/// Counting over a longer prefix never gives less.
pub proof fn lemma_matched_monotone(g: Seq<u8>, a: Seq<u8>, c: u8, m: int, n: int)
    requires
        0 <= m <= n,
    ensures
        matched_prefix(g, a, c, m) <= matched_prefix(g, a, c, n),
    decreases n - m,
{
    if m < n {
        lemma_matched_monotone(g, a, c, m, n - 1);
    }
}

/// A full coloring: one verdict per letter of a guess.
#[derive(Debug, Clone, Copy, Eq, Hash)]
pub struct Colorings(pub [Coloring; WORD_SIZE]);

impl View for Colorings {
    type V = Seq<Coloring>;

    open spec fn view(&self) -> Seq<Coloring> {
        self.0@
    }
}

impl PartialEq for Colorings {
    fn eq(&self, other: &Colorings) -> (r: bool) {
        let mut i: usize = 0;
        while i < WORD_SIZE
            invariant
                i <= WORD_SIZE,
                forall|j: int| 0 <= j < i ==> self@[j] == other@[j],
            decreases WORD_SIZE - i,
        {
            if self.0[i] != other.0[i] {
                return false;
            }
            i += 1;
        }
        proof {
            assert(self@ =~= other@);
        }
        true
    }
}

impl vstd::std_specs::cmp::PartialEqSpecImpl for Colorings {
    open spec fn obeys_eq_spec() -> bool {
        true
    }

    open spec fn eq_spec(&self, other: &Colorings) -> bool {
        self@ == other@
    }
}

impl From<[Coloring; WORD_SIZE]> for Colorings {
    fn from(arr: [Coloring; WORD_SIZE]) -> (r: Colorings) {
        Colorings(arr)
    }
}

impl vstd::std_specs::convert::FromSpecImpl<[Coloring; WORD_SIZE]> for Colorings {
    open spec fn obeys_from_spec() -> bool {
        true
    }

    open spec fn from_spec(arr: [Coloring; WORD_SIZE]) -> Colorings {
        Colorings(arr)
    }
}

impl Colorings {
    /// The coloring that `guess` gets when the answer is `answer`.
    pub fn with_guess_answer(guess: &str, answer: &str) -> (r: Colorings)
        requires
            is_word(guess.spec_bytes()),
            is_word(answer.spec_bytes()),
        ensures
            r@ == coloring_for(guess.spec_bytes(), answer.spec_bytes()),
    {
        Colorings::with_guess_answer_bytes(guess.as_bytes(), answer.as_bytes())
    }

    /// The coloring that the word `guess` gets when the answer is the word `answer`, both
    /// given as bytes.
    ///
    /// A first pass marks the positions where the letters agree and takes them from the
    /// answer's letter budget; a second pass marks a letter misplaced while its budget lasts.
    pub fn with_guess_answer_bytes(guess: &[u8], answer: &[u8]) -> (r: Colorings)
        requires
            is_word(guess@),
            is_word(answer@),
        ensures
            r@ == coloring_for(guess@, answer@),
    {
        let ghost g = guess@;
        let ghost a = answer@;
        let mut out = Colorings::default();
        let mut budget = count_letters_bytes(answer);
        let mut i: usize = 0;
        while i < WORD_SIZE
            invariant
                i <= WORD_SIZE,
                g == guess@,
                a == answer@,
                is_word(g),
                is_word(a),
                forall|k: int| 0 <= k < ALPHABET_SIZE ==>
                    #[trigger] budget@[k] + matched_prefix(g, a, letter(k), i as int)
                        == count_of(a, letter(k)),
                forall|j: int| 0 <= j < i ==> (out@[j] == Coloring::Correct <==> g[j] == a[j]),
                forall|j: int| 0 <= j < i ==> (out@[j] == Coloring::Correct || out@[j] == Coloring::Excluded),
                forall|j: int| i <= j < WORD_SIZE ==> out@[j] == Coloring::Excluded,
            decreases WORD_SIZE - i,
        {
            let gc = guess[i];
            let ac = answer[i];
            if gc == ac {
                let k = letter_idx(gc);
                proof {
                    lemma_count_split(g, a, gc, WORD_SIZE as int);
                    lemma_matched_monotone(g, a, gc, i as int + 1, WORD_SIZE as int);
                    assert(letter(k as int) == gc);
                }
                budget[k] = budget[k] - 1;
                out.0[i] = Coloring::Correct;
            }
            proof {
                assert forall|k: int| 0 <= k < ALPHABET_SIZE implies #[trigger] budget@[k]
                    + matched_prefix(g, a, letter(k), i as int + 1) == count_of(a, letter(k)) by {
                    if g[i as int] == a[i as int] && letter(k) == g[i as int] {
                        assert(k == gc - LETTER_A);
                    }
                }
            }
            i += 1;
        }
        proof {
            assert forall|k: int| 0 <= k < ALPHABET_SIZE implies #[trigger] budget@[k]
                == unmatched_prefix(g, a, letter(k), WORD_SIZE as int) by {
                lemma_count_split(g, a, letter(k), WORD_SIZE as int);
            }
        }
        let mut i: usize = 0;
        while i < WORD_SIZE
            invariant
                i <= WORD_SIZE,
                g == guess@,
                a == answer@,
                is_word(g),
                is_word(a),
                forall|k: int| 0 <= k < ALPHABET_SIZE ==> {
                    let u = unmatched_prefix(g, a, letter(k), WORD_SIZE as int) as int;
                    let o = open_prefix(g, a, letter(k), i as int) as int;
                    #[trigger] budget@[k] == if o < u { u - o } else { 0 }
                },
                forall|j: int| 0 <= j < i ==> out@[j] == color_at(g, a, j),
                forall|j: int| i <= j < WORD_SIZE ==> (out@[j] == Coloring::Correct <==> g[j] == a[j]),
                forall|j: int| i <= j < WORD_SIZE ==> (out@[j] == Coloring::Correct || out@[j] == Coloring::Excluded),
            decreases WORD_SIZE - i,
        {
            if out.0[i] != Coloring::Correct {
                let gc = guess[i];
                let k = letter_idx(gc);
                proof {
                    assert(letter(k as int) == gc);
                }
                if budget[k] > 0 {
                    budget[k] = budget[k] - 1;
                    out.0[i] = Coloring::Misplaced;
                }
            }
            proof {
                assert forall|k: int| 0 <= k < ALPHABET_SIZE implies {
                    let u = unmatched_prefix(g, a, letter(k), WORD_SIZE as int) as int;
                    let o = open_prefix(g, a, letter(k), i as int + 1) as int;
                    #[trigger] budget@[k] == if o < u { u - o } else { 0 }
                } by {
                    if g[i as int] != a[i as int] && letter(k) == g[i as int] {
                        assert(k == g[i as int] - LETTER_A);
                    }
                }
            }
            i += 1;
        }
        proof {
            assert(out@ =~= coloring_for(g, a));
        }
        out
    }
}

impl Colorings {
    /// How many full colorings there are.
    pub const NUM_STATES: usize = NUM_STATES;

    /// The code of this coloring: the base-3 number whose digit at position `i` is the
    /// ordinal of the verdict at `i`, position 0 least significant.
    pub fn to_code(&self) -> (r: ColoringCode)
        ensures
            r == code_value(self@),
            r < NUM_STATES,
    {
        let mut out: u8 = 0;
        let mut i: usize = WORD_SIZE;
        proof {
            assert(self@.subrange(WORD_SIZE as int, WORD_SIZE as int) =~= Seq::<Coloring>::empty());
        }
        while i > 0
            invariant
                i <= WORD_SIZE,
                out == code_value(self@.subrange(i as int, WORD_SIZE as int)),
            decreases i,
        {
            i -= 1;
            let ghost rest = self@.subrange(i as int + 1, WORD_SIZE as int);
            proof {
                lemma_code_value_bound(rest);
                assert(self@.subrange(i as int, WORD_SIZE as int).drop_first() =~= rest);
                lemma_pow3_values();
                lemma_pow3_monotone((WORD_SIZE - i - 1) as nat, 4);
            }
            out = out * 3 + self.0[i].ordinal();
        }
        proof {
            assert(self@.subrange(0, WORD_SIZE as int) =~= self@);
            lemma_code_value_bound(self@);
            lemma_pow3_values();
        }
        out
    }

    /// The coloring whose code is `code`: its base-3 digits, least significant first. Digits
    /// beyond position `WORD_SIZE` are not read.
    pub fn from_code(code: ColoringCode) -> (r: Option<Colorings>)
        ensures
            r is Some,
            r.unwrap()@ == colorings_of_code(code as nat, WORD_SIZE as nat),
    {
        let mut out = Colorings::default();
        let mut rest: u8 = code;
        let mut i: usize = 0;
        proof {
            assert(out@.subrange(0, 0) + colorings_of_code(code as nat, WORD_SIZE as nat)
                =~= colorings_of_code(code as nat, WORD_SIZE as nat));
        }
        while i < WORD_SIZE
            invariant
                i <= WORD_SIZE,
                out@.subrange(0, i as int) + colorings_of_code(rest as nat, (WORD_SIZE - i) as nat)
                    == colorings_of_code(code as nat, WORD_SIZE as nat),
            decreases WORD_SIZE - i,
        {
            let c = match Coloring::from_ordinal(rest % 3) {
                Some(c) => c,
                None => return None,
            };
            let ghost before = out@;
            out.0[i] = c;
            proof {
                let tail = colorings_of_code((rest / 3) as nat, (WORD_SIZE - i - 1) as nat);
                assert(colorings_of_code(rest as nat, (WORD_SIZE - i) as nat)
                    == seq![c] + tail);
                assert(out@.subrange(0, i as int + 1) =~= before.subrange(0, i as int).push(c));
                assert(before.subrange(0, i as int) + (seq![c] + tail)
                    =~= before.subrange(0, i as int).push(c) + tail);
            }
            rest = rest / 3;
            i += 1;
        }
        proof {
            assert(out@.subrange(0, WORD_SIZE as int) =~= out@);
            assert(colorings_of_code(rest as nat, 0) =~= Seq::<Coloring>::empty());
            assert(out@ + Seq::<Coloring>::empty() =~= out@);
        }
        Some(out)
    }

    /// Every full coloring once, in the order of their codes.
    pub fn iter_all_possible() -> (r: Vec<Colorings>)
        ensures
            r.len() == NUM_STATES,
            forall|i: int| 0 <= i < NUM_STATES ==> r@[i]@ == colorings_of_code(i as nat, WORD_SIZE as nat),
    {
        let mut out: Vec<Colorings> = Vec::new();
        let mut code: usize = 0;
        while code < NUM_STATES
            invariant
                code <= NUM_STATES,
                out.len() == code,
                forall|i: int| 0 <= i < code ==> out@[i]@ == colorings_of_code(i as nat, WORD_SIZE as nat),
            decreases NUM_STATES - code,
        {
            let c = Colorings::from_code(code as u8);
            out.push(c.unwrap());
            code += 1;
        }
        out
    }

    /// The coloring as a row of colored squares.
    pub fn to_emoji_string(&self) -> (r: String)
        ensures
            r@ == emoji_row(self@, WORD_SIZE as int),
    {
        let mut out = String::new();
        let mut i: usize = 0;
        while i < WORD_SIZE
            invariant
                i <= WORD_SIZE,
                out@ == emoji_row(self@, i as int),
            decreases WORD_SIZE - i,
        {
            out.append(self.0[i].emoji());
            i += 1;
        }
        out
    }
}

/// The squares of the first `n` colorings of `cs`, one after the other.
pub open spec fn emoji_row(cs: Seq<Coloring>, n: int) -> Seq<char>
    decreases n,
{
    if n <= 0 {
        Seq::empty()
    } else {
        emoji_row(cs, n - 1) + match cs[n - 1] {
            Coloring::Excluded => "\u{2b1b}"@,
            Coloring::Misplaced => "\u{1f7e8}"@,
            Coloring::Correct => "\u{1f7e9}"@,
        }
    }
}

/// The powers of three that the codes of full colorings reach.
proof fn lemma_pow3_values()
    ensures
        pow3(4) == 81,
        pow3(WORD_SIZE as nat) == NUM_STATES,
{
    reveal_with_fuel(pow3, 6);
}

/// A larger exponent gives a larger power.
proof fn lemma_pow3_monotone(m: nat, n: nat)
    requires
        m <= n,
    ensures
        pow3(m) <= pow3(n),
    decreases n - m,
{
    if m < n {
        lemma_pow3_monotone(m, (n - 1) as nat);
    }
}

impl Default for Colorings {
    fn default() -> (r: Colorings)
        ensures
            forall|i: int| 0 <= i < WORD_SIZE ==> r@[i] == Coloring::Excluded,
    {
        Colorings([Coloring::Excluded; WORD_SIZE])
    }
}

} // verus!
