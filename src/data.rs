//! The word list in its packed form, and the errors of reading the static data.
use vstd::prelude::*;
use vstd::string::StringSliceAdditionalSpecFns;
use vstd::utf8::encode_utf8;
use vstd::arithmetic::div_mod::lemma_fundamental_div_mod_converse;
use crate::prelude::{WORD_SIZE, LETTER_A, is_word, is_wordle_str};
use std::collections::HashSet;

verus! {

broadcast use vstd::std_specs::hash::group_hash_axioms;

#[verifier::external_type_specification]
#[verifier::external_body]
pub struct ExUtf8Error(std::str::Utf8Error);

#[verifier::external_type_specification]
#[verifier::external_body]
pub struct ExParseFloatError(std::num::ParseFloatError);

/// How many bytes a packed word takes.
pub const COMPRESSED_SIZE: usize = 3;

/// The number whose base-26 digits, least significant first, are the letters of `w`
/// (`a` is 0).
pub open spec fn pack(w: Seq<u8>) -> nat
    decreases w.len(),
{
    if w.len() == 0 {
        0
    } else {
        (w[0] - LETTER_A) as nat + 26 * pack(w.drop_first())
    }
}

/// The `n` lowest base-26 digits of `x` as letters, least significant first.
pub open spec fn unpack(x: nat, n: nat) -> Seq<u8>
    decreases n,
{
    if n == 0 {
        Seq::empty()
    } else {
        seq![((x % 26) + LETTER_A) as u8] + unpack(x / 26, (n - 1) as nat)
    }
}

/// The three low bytes of `x`, least significant first.
pub open spec fn le_bytes(x: nat) -> Seq<u8> {
    seq![(x % 256) as u8, ((x / 256) % 256) as u8, ((x / 65536) % 256) as u8]
}

/// The number whose little-endian bytes are the three bytes of `b`.
pub open spec fn le_value(b: Seq<u8>) -> nat {
    b[0] as nat + 256 * (b[1] as nat) + 65536 * (b[2] as nat)
}

/// Twenty-six to the power `n`.
pub open spec fn pow26(n: nat) -> nat
    decreases n,
{
    if n == 0 {
        1
    } else {
        26 * pow26((n - 1) as nat)
    }
}

/// A packed word is below `pow26` of its length.
proof fn lemma_pack_bound(w: Seq<u8>)
    requires
        forall|i: int| 0 <= i < w.len() ==> LETTER_A <= #[trigger] w[i] < LETTER_A + 26,
    ensures
        pack(w) < pow26(w.len()),
    decreases w.len(),
{
    if w.len() > 0 {
        lemma_pack_bound(w.drop_first());
    }
}

/// Unpacking a packed word gives the word back.
proof fn lemma_unpack_pack(w: Seq<u8>)
    requires
        forall|i: int| 0 <= i < w.len() ==> LETTER_A <= #[trigger] w[i] < LETTER_A + 26,
    ensures
        unpack(pack(w), w.len()) == w,
    decreases w.len(),
{
    if w.len() > 0 {
        let rest = w.drop_first();
        lemma_unpack_pack(rest);
        lemma_fundamental_div_mod_converse(pack(w) as int, 26, pack(rest) as int, (w[0] - LETTER_A) as int);
        assert(unpack(pack(w), w.len()) =~= w);
    }
}

/// Three little-endian bytes give back any number below `2^24`.
proof fn lemma_le_round_trip(x: nat)
    requires
        x < 0x100_0000,
    ensures
        le_value(le_bytes(x)) == x,
{
    let q1 = x / 256;
    lemma_fundamental_div_mod_converse(x as int, 256, q1 as int, (x % 256) as int);
    let q2 = q1 / 256;
    assert(x == (x % 256) + 256 * q1) by (nonlinear_arith)
        requires
            q1 == x / 256,
    ;
    assert(q1 == (q1 % 256) + 256 * q2) by (nonlinear_arith)
        requires
            q2 == q1 / 256,
    ;
    assert(x / 65536 == q2) by (nonlinear_arith)
        requires
            q1 == x / 256,
            q2 == q1 / 256,
    ;
    assert(q2 < 256) by (nonlinear_arith)
        requires
            q2 == x / 65536,
            x < 0x100_0000,
    ;
}

/// Packing a word and unpacking the bytes gives the word back.
pub proof fn lemma_compressed_round_trip(w: Seq<u8>)
    requires
        is_word(w),
    ensures
        unpack(le_value(le_bytes(pack(w))), WORD_SIZE as nat) == w,
{
    lemma_pack_bound(w);
    assert(pow26(5) == 11881376) by {
        reveal_with_fuel(pow26, 6);
    }
    lemma_le_round_trip(pack(w));
    lemma_unpack_pack(w);
}

/// The base-26 value of a word, its first letter least significant.
pub fn pack_word(b: &[u8]) -> (x: u64)
    requires
        is_word(b@),
    ensures
        x == pack(b@),
        x < pow26(WORD_SIZE as nat),
{
    let ghost w = b@;
    let mut x: u64 = 0;
    let mut i: usize = WORD_SIZE;
    proof {
        assert(w.subrange(WORD_SIZE as int, WORD_SIZE as int) =~= Seq::<u8>::empty());
        assert(pow26(5) == 11881376) by {
            reveal_with_fuel(pow26, 6);
        }
    }
    while i > 0
        invariant
            i <= WORD_SIZE,
            w == b@,
            is_word(w),
            pow26(5) == 11881376,
            x == pack(w.subrange(i as int, WORD_SIZE as int)),
        decreases i,
    {
        i -= 1;
        let ghost rest = w.subrange(i as int + 1, WORD_SIZE as int);
        proof {
            lemma_pack_bound(rest);
            lemma_pow26_monotone(rest.len(), 5);
            assert(w.subrange(i as int, WORD_SIZE as int).drop_first() =~= rest);
        }
        x = x * 26 + (b[i] - LETTER_A) as u64;
    }
    proof {
        assert(w.subrange(0, WORD_SIZE as int) =~= w);
        lemma_pack_bound(w);
    }
    x
}

/// Two words with one packed value are the same word.
pub proof fn lemma_pack_injective(v: Seq<u8>, w: Seq<u8>)
    requires
        is_word(v),
        is_word(w),
        pack(v) == pack(w),
    ensures
        v == w,
{
    lemma_unpack_pack(v);
    lemma_unpack_pack(w);
}

/// Relies on `String::from_utf8`: bytes that are valid UTF-8 become a string holding
/// exactly those bytes.
#[verifier::external_body]
fn string_from_ascii(bytes: Vec<u8>) -> (r: String)
    requires
        forall|i: int| 0 <= i < bytes.len() ==> #[trigger] bytes@[i] < 128,
    ensures
        encode_utf8(r@) == bytes@,
{
    String::from_utf8(bytes).unwrap_or_default()
}

/// A word packed into `COMPRESSED_SIZE` bytes: the little-endian bytes of its base-26
/// value.
#[derive(Clone, Copy)]
pub struct CompressedWord([u8; COMPRESSED_SIZE]);

impl View for CompressedWord {
    type V = Seq<u8>;

    closed spec fn view(&self) -> Seq<u8> {
        self.0@
    }
}

impl CompressedWord {
    /// Packs a word.
    pub fn new(s: &str) -> (r: CompressedWord)
        requires
            is_word(s.spec_bytes()),
        ensures
            r@ == le_bytes(pack(s.spec_bytes())),
    {
        let x = pack_word(s.as_bytes());
        let r = CompressedWord([(x % 256) as u8, ((x / 256) % 256) as u8, ((x / 65536) % 256) as u8]);
        proof {
            assert(r@ =~= le_bytes(pack(s.spec_bytes())));
        }
        r
    }

    /// The packed bytes.
    pub fn as_bytes(self) -> (r: [u8; COMPRESSED_SIZE])
        ensures
            r@ == self@,
    {
        self.0
    }

    /// Unpacks the word: the `WORD_SIZE` lowest base-26 digits of the bytes' value, as
    /// letters.
    pub fn to_string(self) -> (r: String)
        ensures
            encode_utf8(r@) == unpack(le_value(self@), WORD_SIZE as nat),
            is_word(encode_utf8(r@)),
    {
        let mut x: u64 = self.0[0] as u64 + 256 * (self.0[1] as u64) + 65536 * (self.0[2] as u64);
        let ghost x0 = x as nat;
        let mut out: Vec<u8> = Vec::new();
        let mut i: usize = 0;
        proof {
            assert(out@ + unpack(x0, WORD_SIZE as nat) =~= unpack(x0, WORD_SIZE as nat));
        }
        while i < WORD_SIZE
            invariant
                i <= WORD_SIZE,
                out.len() == i,
                x0 == le_value(self@),
                out@ + unpack(x as nat, (WORD_SIZE - i) as nat) == unpack(x0, WORD_SIZE as nat),
                forall|j: int| 0 <= j < i ==> LETTER_A <= #[trigger] out@[j] < LETTER_A + 26,
            decreases WORD_SIZE - i,
        {
            let ch = (x % 26) as u8 + LETTER_A;
            let ghost before = out@;
            out.push(ch);
            proof {
                let tail = unpack(x as nat / 26, (WORD_SIZE - i - 1) as nat);
                assert(unpack(x as nat, (WORD_SIZE - i) as nat) == seq![ch] + tail);
                assert(before + (seq![ch] + tail) =~= before.push(ch) + tail);
            }
            x = x / 26;
            i += 1;
        }
        proof {
            assert(unpack(x as nat, 0) =~= Seq::<u8>::empty());
            assert(out@ + Seq::<u8>::empty() =~= out@);
        }
        string_from_ascii(out)
    }
}

/// A larger exponent gives a larger power.
proof fn lemma_pow26_monotone(m: nat, n: nat)
    requires
        m <= n,
    ensures
        pow26(m) <= pow26(n),
    decreases n - m,
{
    if m < n {
        lemma_pow26_monotone(m, (n - 1) as nat);
    }
}

/// Why the static data could not be read.
#[derive(Debug)]
pub enum LoadDataErr {
    /// The list of allowed words is missing.
    MissingAllowedWordsFile,
    /// A text file is not UTF-8.
    EncodingError(std::str::Utf8Error),
    /// A line of the precomputed opening table lacks a field.
    BadDefaultDataLine(String),
    /// A number of the precomputed opening table does not parse.
    BadFloatStr(String, std::num::ParseFloatError),
    /// A text that should be a word is not one.
    NonWordleWord(String),
}

/// The words of a packed word list, `COMPRESSED_SIZE` bytes each; `None` where the list is
/// missing.
pub fn try_read_allowed_words(file: Option<&[u8]>) -> (r: Result<Vec<String>, LoadDataErr>)
    requires
        file matches Some(b) ==> b@.len() % (COMPRESSED_SIZE as nat) == 0,
    ensures
        file is None ==> r matches Err(LoadDataErr::MissingAllowedWordsFile),
        file matches Some(b) ==> (r matches Ok(ws) && ws.len() == b@.len() / (COMPRESSED_SIZE as nat)
            && forall|t: int| 0 <= t < ws.len() ==> encode_utf8(#[trigger] ws@[t]@)
                == unpack(le_value(b@.subrange(3 * t, 3 * t + 3)), WORD_SIZE as nat)),
{
    let b = match file {
        Some(b) => b,
        None => return Err(LoadDataErr::MissingAllowedWordsFile),
    };
    let n = b.len() / COMPRESSED_SIZE;
    let mut out: Vec<String> = Vec::new();
    let mut t: usize = 0;
    let mut i: usize = 0;
    while t < n
        invariant
            t <= n,
            i == 3 * t,
            n == b@.len() / 3,
            b@.len() % 3 == 0,
            out.len() == t,
            forall|u: int| 0 <= u < t ==> encode_utf8(#[trigger] out@[u]@)
                == unpack(le_value(b@.subrange(3 * u, 3 * u + 3)), WORD_SIZE as nat),
        decreases n - t,
    {
        proof {
            assert(3 * t + 3 <= b@.len()) by (nonlinear_arith)
                requires
                    t < n,
                    n == b@.len() / 3,
            ;
        }
        let w = CompressedWord([b[i], b[i + 1], b[i + 2]]);
        proof {
            assert(w@ =~= b@.subrange(3 * t, 3 * t + 3));
        }
        out.push(w.to_string());
        t += 1;
        i += COMPRESSED_SIZE;
    }
    Ok(out)
}

/// Whether some text of `ws` is, as bytes, the word `w`.
pub open spec fn lists_word(ws: Seq<String>, w: Seq<u8>) -> bool {
    exists|i: int| 0 <= i < ws.len() && #[trigger] encode_utf8(ws[i]@) == w
}

/// The texts among the first `n` of `first`, in order, that are words and that `other`
/// lists (`keep`) or does not list (`!keep`).
pub open spec fn select_words(first: Seq<String>, other: Seq<String>, keep: bool, n: int) -> Seq<Seq<char>>
    decreases n,
{
    if n <= 0 {
        Seq::empty()
    } else {
        let before = select_words(first, other, keep, n - 1);
        let b = encode_utf8(first[n - 1]@);
        if is_word(b) && lists_word(other, b) == keep {
            before.push(first[n - 1]@)
        } else {
            before
        }
    }
}

/// The packed values of the texts of `ws` that are words.
fn packed_set(ws: &Vec<String>) -> (r: HashSet<u64>)
    ensures
        forall|w: Seq<u8>| is_word(w) ==> (r@.contains(pack(w) as u64) <==> lists_word(ws@, w)),
{
    let mut set: HashSet<u64> = HashSet::new();
    let mut i: usize = 0;
    while i < ws.len()
        invariant
            i <= ws.len(),
            forall|x: u64| set@.contains(x) <==> exists|j: int| 0 <= j < i
                && is_word(#[trigger] encode_utf8(ws@[j]@)) && pack(encode_utf8(ws@[j]@)) == x,
        decreases ws.len() - i,
    {
        let s = ws[i].as_str();
        if is_wordle_str(s) {
            let x = pack_word(s.as_bytes());
            set.insert(x);
        }
        i += 1;
    }
    proof {
        assert forall|w: Seq<u8>| is_word(w) implies (set@.contains(pack(w) as u64) <==> lists_word(ws@, w)) by {
            lemma_pack_bound(w);
            assert(pow26(5) == 11881376) by {
                reveal_with_fuel(pow26, 6);
            }
            if set@.contains(pack(w) as u64) {
                let j = choose|j: int| 0 <= j < ws@.len() && is_word(#[trigger] encode_utf8(ws@[j]@))
                    && pack(encode_utf8(ws@[j]@)) == pack(w) as u64;
                lemma_pack_injective(encode_utf8(ws@[j]@), w);
            }
            if lists_word(ws@, w) {
                let j = choose|j: int| 0 <= j < ws@.len() && #[trigger] encode_utf8(ws@[j]@) == w;
                assert(set@.contains(pack(w) as u64));
            }
        }
    }
    set
}

/// The allowed words in frequency order: first the words of `ordered` that `unordered`
/// lists, in the order of `ordered`; then the words of `unordered` that `ordered` does not
/// list, in their own order. Texts that are not words are left out.
pub fn ordered_words(unordered: &Vec<String>, ordered: &Vec<String>) -> (r: Vec<String>)
    ensures
        r@.map_values(|s: String| s@) == select_words(ordered@, unordered@, true, ordered@.len() as int)
            + select_words(unordered@, ordered@, false, unordered@.len() as int),
{
    let unordered_s = packed_set(unordered);
    let ordered_s = packed_set(ordered);
    let mut out: Vec<String> = Vec::new();
    let mut i: usize = 0;
    while i < ordered.len()
        invariant
            i <= ordered.len(),
            forall|w: Seq<u8>| is_word(w) ==> (unordered_s@.contains(pack(w) as u64) <==> lists_word(unordered@, w)),
            out@.map_values(|s: String| s@) == select_words(ordered@, unordered@, true, i as int),
        decreases ordered.len() - i,
    {
        let s = ordered[i].as_str();
        if is_wordle_str(s) {
            let x = pack_word(s.as_bytes());
            if unordered_s.contains(&x) {
                let ghost before = out@;
                out.push(ordered[i].clone());
                proof {
                    assert(out@.map_values(|s: String| s@) =~= before.map_values(|s: String| s@).push(ordered@[i as int]@));
                }
            }
        }
        i += 1;
    }
    let ghost first = out@.map_values(|s: String| s@);
    let mut i: usize = 0;
    proof {
        assert(first + Seq::<Seq<char>>::empty() =~= first);
    }
    while i < unordered.len()
        invariant
            i <= unordered.len(),
            first == select_words(ordered@, unordered@, true, ordered@.len() as int),
            forall|w: Seq<u8>| is_word(w) ==> (ordered_s@.contains(pack(w) as u64) <==> lists_word(ordered@, w)),
            out@.map_values(|s: String| s@) == first + select_words(unordered@, ordered@, false, i as int),
        decreases unordered.len() - i,
    {
        let s = unordered[i].as_str();
        if is_wordle_str(s) {
            let x = pack_word(s.as_bytes());
            if !ordered_s.contains(&x) {
                let ghost before = out@;
                out.push(unordered[i].clone());
                proof {
                    assert(out@.map_values(|s: String| s@) =~= before.map_values(|s: String| s@).push(unordered@[i as int]@));
                    assert(first + select_words(unordered@, ordered@, false, i as int + 1)
                        =~= (first + select_words(unordered@, ordered@, false, i as int)).push(unordered@[i as int]@));
                }
            }
        }
        i += 1;
    }
    out
}

} // verus!
