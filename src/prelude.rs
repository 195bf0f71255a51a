//! Puzzle dimensions and the basic checks on words and letters.
use vstd::prelude::*;
use vstd::string::StringSliceAdditionalSpecFns;

verus! {

/// How many letters a word of the puzzle has.
pub const WORD_SIZE: usize = 5;

/// How many guesses a round allows.
pub const NUM_TURNS: usize = 6;

/// How many letters the lowercase alphabet has.
pub const ALPHABET_SIZE: usize = 26;

/// How many recommendations the precomputed table of the opening state holds.
pub const N_RECOMMENDATIONS: usize = 32;

/// The ASCII code of `a`.
pub const LETTER_A: u8 = 97;

/// The ASCII code of `z`.
pub const LETTER_Z: u8 = 122;

/// A validated word: its letters as ASCII bytes.
pub type Word = [u8; WORD_SIZE];

/// A byte that is a lowercase ASCII letter.
pub open spec fn is_lower_letter(b: u8) -> bool {
    LETTER_A <= b <= LETTER_Z
}

/// A word: exactly `WORD_SIZE` lowercase ASCII letters.
pub open spec fn is_word(s: Seq<u8>) -> bool {
    s.len() == WORD_SIZE && forall|i: int| 0 <= i < s.len() ==> is_lower_letter(#[trigger] s[i])
}

/// How many of the first `n` bytes of `s` equal `c`.
pub open spec fn count_prefix(s: Seq<u8>, c: u8, n: int) -> nat
    decreases n,
{
    if n <= 0 {
        0
    } else {
        count_prefix(s, c, n - 1) + if s[n - 1] == c { 1nat } else { 0nat }
    }
}

/// A prefix holds at most as many copies of a byte as it has positions.
pub proof fn lemma_count_prefix_bound(s: Seq<u8>, c: u8, n: int)
    requires
        0 <= n,
    ensures
        count_prefix(s, c, n) <= n,
    decreases n,
{
    if n > 0 {
        lemma_count_prefix_bound(s, c, n - 1);
    }
}

/// How many bytes of `s` equal `c`.
pub open spec fn count_of(s: Seq<u8>, c: u8) -> nat {
    count_prefix(s, c, s.len() as int)
}

/// Whether a character has the Unicode White_Space property.
pub open spec fn is_white_space(c: char) -> bool {
    let x = c as u32;
    ||| 0x9 <= x <= 0xd
    ||| x == 0x20
    ||| x == 0x85
    ||| x == 0xa0
    ||| x == 0x1680
    ||| 0x2000 <= x <= 0x200a
    ||| x == 0x2028
    ||| x == 0x2029
    ||| x == 0x202f
    ||| x == 0x205f
    ||| x == 0x3000
}

/// The text without its leading white space.
pub open spec fn trim_start_of(s: Seq<char>) -> Seq<char>
    decreases s.len(),
{
    if s.len() > 0 && is_white_space(s[0]) {
        trim_start_of(s.drop_first())
    } else {
        s
    }
}

/// The text without its trailing white space.
pub open spec fn trim_end_of(s: Seq<char>) -> Seq<char>
    decreases s.len(),
{
    if s.len() > 0 && is_white_space(s.last()) {
        trim_end_of(s.drop_last())
    } else {
        s
    }
}

/// The text without leading and trailing white space.
pub open spec fn trim_of(s: Seq<char>) -> Seq<char> {
    trim_end_of(trim_start_of(s))
}

/// What `str::to_lowercase` makes of a text.
pub uninterp spec fn lower_of(s: Seq<char>) -> Seq<char>;

/// Relies on `str::trim`: the text without leading and trailing white space, white space
/// being the characters with the Unicode White_Space property.
#[verifier::external_body]
fn trimmed<'a>(s: &'a str) -> (r: &'a str)
    ensures
        r@ == trim_of(s@),
{
    s.trim()
}

/// Relies on `str::to_lowercase`: the text with each character in lower case, as Unicode
/// defines it; the result depends on the characters alone.
#[verifier::external_body]
fn lowercased(s: &str) -> (r: String)
    ensures
        r@ == lower_of(s@),
{
    s.to_lowercase()
}

/// Cleans up a text that may be a word: drops surrounding white space and lowers the case.
/// It neither shortens the word nor drops other characters; check the result with
/// `is_wordle_str`.
pub fn normalize_wordle_word(s: &str) -> (r: String)
    ensures
        r@ == lower_of(trim_of(s@)),
{
    lowercased(trimmed(s))
}

/// Whether the text is a word: `WORD_SIZE` lowercase ASCII letters.
pub fn is_wordle_str(v: &str) -> (r: bool)
    ensures
        r == is_word(v.spec_bytes()),
{
    is_wordle_str_bytes(v.as_bytes())
}

/// How many times each letter occurs in a word, indexed by `letter_idx`.
pub fn count_letters(word: &str) -> (r: [usize; ALPHABET_SIZE])
    requires
        is_word(word.spec_bytes()),
    ensures
        forall|c: int| 0 <= c < ALPHABET_SIZE ==> r@[c] == count_of(word.spec_bytes(), (c + LETTER_A) as u8),
{
    count_letters_bytes(word.as_bytes())
}

/// The letters of a word as an array.
pub fn word_array(b: &[u8]) -> (r: Word)
    requires
        b@.len() == WORD_SIZE,
    ensures
        r@ == b@,
{
    let r: Word = [b[0], b[1], b[2], b[3], b[4]];
    proof {
        assert(r@ =~= b@);
    }
    r
}

/// Verifies that a byte is a lowercase ASCII letter.
pub fn is_normal_wordle_char(v: &u8) -> (r: bool)
    ensures
        r == is_lower_letter(*v),
{
    LETTER_A <= *v && *v <= LETTER_Z
}

/// The position of a lowercase letter in the alphabet (`a` is 0).
pub fn letter_idx(letter: u8) -> (r: usize)
    requires
        is_lower_letter(letter),
    ensures
        r == letter - LETTER_A,
        r < ALPHABET_SIZE,
{
    (letter - LETTER_A) as usize
}

/// Whether the bytes are a word: `WORD_SIZE` lowercase ASCII letters.
pub fn is_wordle_str_bytes(v: &[u8]) -> (r: bool)
    ensures
        r == is_word(v@),
{
    if v.len() != WORD_SIZE {
        return false;
    }
    let mut i: usize = 0;
    while i < v.len()
        invariant
            i <= v@.len(),
            forall|j: int| 0 <= j < i ==> is_lower_letter(#[trigger] v@[j]),
        decreases v@.len() - i,
    {
        if !is_normal_wordle_char(&v[i]) {
            return false;
        }
        i += 1;
    }
    true
}

/// How many times each letter occurs in a word, indexed by `letter_idx`.
pub fn count_letters_bytes(word: &[u8]) -> (r: [usize; ALPHABET_SIZE])
    requires
        is_word(word@),
    ensures
        forall|c: int| 0 <= c < ALPHABET_SIZE ==> r@[c] == count_of(word@, (c + LETTER_A) as u8),
{
    let mut out = [0usize; ALPHABET_SIZE];
    let mut i: usize = 0;
    while i < WORD_SIZE
        invariant
            i <= WORD_SIZE,
            is_word(word@),
            forall|c: int| 0 <= c < ALPHABET_SIZE ==> out@[c] == count_prefix(word@, (c + LETTER_A) as u8, i as int),
        decreases WORD_SIZE - i,
    {
        let k = letter_idx(word[i]);
        proof {
            lemma_count_prefix_bound(word@, word@[i as int], i as int);
        }
        out[k] = out[k] + 1;
        i += 1;
    }
    out
}

} // verus!
