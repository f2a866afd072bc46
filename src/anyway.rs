//! # Anyway Encosure Scheme (AES)
//!
//! Each byte becomes one unit of text built from the word "anyway":
//! - its two low bits (the tail) give the number of stars written before and after the word;
//! - its six high bits (the body) give the case of the six letters, bit 2 for the first letter
//!   up to bit 7 for the last: uppercase for 0, lowercase for 1.
//!
//! `A` (65, body `010000`, tail `01`) is written `*ANYWaY*`.
//!
//! The escaped variant (EAES) also writes each star once more, backslash-escaped, outside the
//! plain stars: `A` is written `\**ANYWaY*\*`, which survives being pasted where markdown is
//! read. Units are joined by a separator that holds no character of the alphabet.
//!
//! The decoder skips characters outside the alphabet and a backslash with the character after
//! it, counts stars, reads letters by their case alone, and completes a byte at each sixth
//! letter; the run of alphabet characters right after that letter is skipped.
use crate::to_bytes::ToBytes;
use vstd::prelude::*;

verus! {

/// The characters that the scheme itself uses.
pub open spec fn is_alphabet_char(c: char) -> bool {
    c == 'a' || c == 'n' || c == 'y' || c == 'w' || c == 'A' || c == 'N' || c == 'Y' || c == 'W'
        || c == '*' || c == '\\'
}

/// A separator is usable when it is non-empty and holds no character of the alphabet.
pub open spec fn valid_separator(s: Seq<char>) -> bool {
    s.len() > 0 && forall|i: int| 0 <= i < s.len() ==> !is_alphabet_char(#[trigger] s[i])
}

/// The letters of the word, in order, before case is applied.
pub open spec fn word_letter(i: int, lower: bool) -> char {
    if i == 0 || i == 4 {
        if lower { 'a' } else { 'A' }
    } else if i == 1 {
        if lower { 'n' } else { 'N' }
    } else if i == 3 {
        if lower { 'w' } else { 'W' }
    } else {
        if lower { 'y' } else { 'Y' }
    }
}

/// The tail of a byte: its two low bits, the number of stars around its word.
pub open spec fn tail_of(v: u8) -> nat {
    (v & 3u8) as nat
}

/// Whether letter `i` (0 to 5) of the word of `v` is lowercase: bit `i + 2` of `v` is set.
pub open spec fn letter_is_lower(v: u8, i: int) -> bool {
    (v >> ((i + 2) as u8)) & 1u8 == 1u8
}

/// `s` written `n` times in a row.
pub open spec fn repeat(s: Seq<char>, n: nat) -> Seq<char>
    decreases n,
{
    if n == 0 {
        Seq::empty()
    } else {
        repeat(s, (n - 1) as nat) + s
    }
}

/// The plain marker: `n` stars.
pub open spec fn marker(n: nat) -> Seq<char> {
    repeat(seq!['*'], n)
}

/// The escaped marker: `n` backslash-escaped stars.
pub open spec fn escaped_marker(n: nat) -> Seq<char> {
    repeat(seq!['\\', '*'], n)
}

/// The six-letter word that carries the high six bits of `v`.
pub open spec fn word_of(v: u8) -> Seq<char> {
    Seq::new(6, |i: int| word_letter(i, letter_is_lower(v, i)))
}

/// The text that stands for one byte.
pub open spec fn unit_of(v: u8, escape: bool) -> Seq<char> {
    let m = marker(tail_of(v));
    if escape {
        let e = escaped_marker(tail_of(v));
        e + m + word_of(v) + m + e
    } else {
        m + word_of(v) + m
    }
}

/// The units of all bytes of `b`, joined by `sep`.
pub open spec fn join_units(b: Seq<u8>, sep: Seq<char>, escape: bool) -> Seq<char>
    decreases b.len(),
{
    if b.len() == 0 {
        Seq::empty()
    } else if b.len() == 1 {
        unit_of(b[0], escape)
    } else {
        join_units(b.drop_last(), sep, escape) + sep + unit_of(b.last(), escape)
    }
}

/// The separator that is used when none valid is given: a comma and a space.
pub open spec fn default_separator() -> Seq<char> {
    seq![',', ' ']
}

/// The separator that encoding actually writes.
pub open spec fn effective_separator(sep: Seq<char>) -> Seq<char> {
    if valid_separator(sep) {
        sep
    } else {
        default_separator()
    }
}

/// The full encoding of `b` with separator `sep`, plain or escaped.
pub open spec fn encoded(b: Seq<u8>, sep: Seq<char>, escape: bool) -> Seq<char> {
    join_units(b, effective_separator(sep), escape)
}

fn alphabet_char(c: char) -> (r: bool)
    ensures
        r == is_alphabet_char(c),
{
    matches!(c, 'a' | 'n' | 'y' | 'w' | 'A' | 'N' | 'Y' | 'W' | '*' | '\\')
}

/// Checks if the input would be a valid separator for AES.
pub fn check_separator(separator: &str) -> (r: bool)
    ensures
        r == valid_separator(separator@),
{
    if separator.is_empty() {
        return false;
    }
    for c in it: separator.chars()
        invariant
            it.seq() == separator@,
            forall|i: int| 0 <= i < it.index() ==> !is_alphabet_char(#[trigger] separator@[i]),
    {
        if alphabet_char(c) {
            return false;
        }
    }
    true
}

fn push_repeated(ret: &mut String, piece: &str, n: u8)
    ensures
        final(ret)@ == old(ret)@ + repeat(piece@, n as nat),
{
    let ghost start = ret@;
    for k in 0..n
        invariant
            ret@ == start + repeat(piece@, k as nat),
    {
        ret.append(piece);
        assert(start + repeat(piece@, (k + 1) as nat) =~= start + repeat(piece@, k as nat) + piece@);
    }
}

fn push_letter(ret: &mut String, i: u8, lower: bool)
    requires
        i < 6,
    ensures
        final(ret)@ == old(ret)@.push(word_letter(i as int, lower)),
{
    let letter = match i {
        0 | 4 => if lower { "a" } else { "A" },
        1 => if lower { "n" } else { "N" },
        3 => if lower { "w" } else { "W" },
        _ => if lower { "y" } else { "Y" },
    };
    proof {
        reveal_strlit("a");
        reveal_strlit("A");
        reveal_strlit("n");
        reveal_strlit("N");
        reveal_strlit("w");
        reveal_strlit("W");
        reveal_strlit("y");
        reveal_strlit("Y");
    }
    ret.append(letter);
}

fn push_unit(ret: &mut String, v: u8, escape: bool)
    ensures
        final(ret)@ == old(ret)@ + unit_of(v, escape),
{
    let ghost start = ret@;
    let tail: u8 = v & 3;
    proof {
        reveal_strlit("*");
        reveal_strlit("\\*");
    }
    assert("*"@ =~= seq!['*']);
    assert("\\*"@ =~= seq!['\\', '*']);
    if escape {
        push_repeated(ret, "\\*", tail);
    }
    push_repeated(ret, "*", tail);
    let ghost before_word = ret@;
    for i in 0..6u8
        invariant
            ret@ == before_word + word_of(v).take(i as int),
    {
        let lower = (v >> (i + 2)) & 1 == 1;
        push_letter(ret, i, lower);
        assert(word_of(v).take(i as int + 1) =~= word_of(v).take(i as int).push(word_of(v)[i as int]));
    }
    push_repeated(ret, "*", tail);
    if escape {
        push_repeated(ret, "\\*", tail);
    }
    assert(word_of(v).take(6) =~= word_of(v));
    assert(ret@ =~= start + unit_of(v, escape));
}

/// Where the decoder stands between two characters.
#[derive(Clone, Copy, PartialEq, Eq, Structural)]
pub enum ScanMode {
    /// Reading markers and letters of a unit.
    Scan,
    /// The previous character was a backslash: the next one is skipped.
    Escape,
    /// A unit was just completed: the run of alphabet characters that follows is skipped.
    Trailing,
}

/// The decoder's state: letters seen so far in the current unit, the body bits they gave,
/// and the star count (kept modulo 4).
#[derive(Clone, Copy, PartialEq, Eq, Structural)]
pub struct ScanState {
    pub mode: ScanMode,
    pub count: u8,
    pub body: u8,
    pub stars: u8,
}

/// The state at the start of a text, and between units.
pub open spec fn fresh_state(mode: ScanMode) -> ScanState {
    ScanState { mode, count: 0, body: 0, stars: 0 }
}

/// The weight of letter `count` of a unit in its body.
pub open spec fn letter_weight(count: u8) -> u8 {
    1u8 << count
}

/// A state that the scan can reach: fewer than six letters seen, the body made of their
/// bits alone, fewer than four stars.
pub open spec fn state_wf(st: ScanState) -> bool {
    st.count < 6 && st.body < letter_weight(st.count) && st.stars < 4
}

/// A letter of the word, in either case.
pub open spec fn is_word_letter(c: char) -> bool {
    is_alphabet_char(c) && c != '*' && c != '\\'
}

/// A lowercase letter of the word, which stands for a set bit.
pub open spec fn is_lower_letter(c: char) -> bool {
    c == 'a' || c == 'n' || c == 'y' || c == 'w'
}

/// One step of the decoder on character `c`: the next state, and the byte completed, if any.
pub open spec fn scan_step(st: ScanState, c: char) -> (ScanState, Option<u8>) {
    match st.mode {
        ScanMode::Escape => (ScanState { mode: ScanMode::Scan, ..st }, None),
        ScanMode::Trailing if is_alphabet_char(c) => (st, None),
        _ => {
            if c == '\\' {
                (ScanState { mode: ScanMode::Escape, ..st }, None)
            } else if c == '*' {
                (ScanState { mode: ScanMode::Scan, stars: ((st.stars + 1) % 4) as u8, ..st }, None)
            } else if is_word_letter(c) {
                let body = if is_lower_letter(c) {
                    (st.body + letter_weight(st.count)) as u8
                } else {
                    st.body
                };
                if st.count + 1 == 6 {
                    (fresh_state(ScanMode::Trailing), Some((body * 4 + st.stars) as u8))
                } else {
                    (ScanState { mode: ScanMode::Scan, count: (st.count + 1) as u8, body, ..st }, None)
                }
            } else {
                (ScanState { mode: ScanMode::Scan, ..st }, None)
            }
        },
    }
}

/// The decoder run over `s` from state `st`: the state it ends in, and the bytes it completed.
pub open spec fn run_from(st: ScanState, s: Seq<char>) -> (ScanState, Seq<u8>)
    decreases s.len(),
{
    if s.len() == 0 {
        (st, Seq::empty())
    } else {
        let (mid, out) = run_from(st, s.drop_last());
        let (next, done) = scan_step(mid, s.last());
        match done {
            Some(v) => (next, out.push(v)),
            None => (next, out),
        }
    }
}

/// The bytes that text `s` decodes to.
pub open spec fn decoded(s: Seq<char>) -> Seq<u8> {
    run_from(fresh_state(ScanMode::Scan), s).1
}

proof fn lemma_weight(count: u8)
    requires
        count < 6,
    ensures
        letter_weight(count) <= 32,
        letter_weight(count) * 2 == letter_weight((count + 1) as u8),
        letter_weight(0) == 1,
{
    assert(count < 6 ==> (1u8 << count) <= 32 && (1u8 << count) * 2 == (1u8 << ((count + 1) as u8)))
        by (bit_vector);
    assert((1u8 << 0u8) == 1) by (bit_vector);
}

fn step(st: ScanState, c: char) -> (r: (ScanState, Option<u8>))
    requires
        state_wf(st),
    ensures
        r == scan_step(st, c),
        state_wf(r.0),
{
    proof {
        lemma_weight(st.count);
    }
    match st.mode {
        ScanMode::Escape => (ScanState { mode: ScanMode::Scan, ..st }, None),
        ScanMode::Trailing if alphabet_char(c) => (st, None),
        _ => {
            if c == '\\' {
                (ScanState { mode: ScanMode::Escape, ..st }, None)
            } else if c == '*' {
                (ScanState { mode: ScanMode::Scan, stars: (st.stars + 1) % 4, ..st }, None)
            } else if alphabet_char(c) {
                let weight: u8 = 1u8 << st.count;
                let body: u8 = if c == 'a' || c == 'n' || c == 'y' || c == 'w' {
                    st.body + weight
                } else {
                    st.body
                };
                if st.count + 1 == 6 {
                    (ScanState { mode: ScanMode::Trailing, count: 0, body: 0, stars: 0 }, Some(body * 4 + st.stars))
                } else {
                    (ScanState { mode: ScanMode::Scan, count: st.count + 1, body, ..st }, None)
                }
            } else {
                (ScanState { mode: ScanMode::Scan, ..st }, None)
            }
        },
    }
}

/// Decodes AES and EAES to a vector.
pub fn decode(text: &str) -> (r: Vec<u8>)
    ensures
        r@ == decoded(text@),
{
    let mut st = ScanState { mode: ScanMode::Scan, count: 0, body: 0, stars: 0 };
    let mut ret: Vec<u8> = Vec::new();
    proof {
        lemma_weight(0);
    }
    for c in it: text.chars()
        invariant
            it.seq() == text@,
            state_wf(st),
            (st, ret@) == run_from(fresh_state(ScanMode::Scan), text@.take(it.index() as int)),
    {
        assert(text@.take(it.index() as int + 1).drop_last() =~= text@.take(it.index() as int));
        let (next, done) = step(st, c);
        st = next;
        match done {
            Some(v) => ret.push(v),
            None => {},
        }
    }
    assert(text@.take(text@.len() as int) =~= text@);
    ret
}

#[verifier::external_type_specification]
#[verifier::external_body]
pub struct ExUtf8Error(std::str::Utf8Error);

/// Relies on std's `str::from_utf8`: it accepts exactly the valid UTF-8 byte sequences, and
/// the text it gives is the one they encode.
#[verifier::external_body]
fn text_from_utf8(bytes: &[u8]) -> (r: Result<String, std::str::Utf8Error>)
    ensures
        r is Ok <==> vstd::utf8::valid_utf8(bytes@),
        r matches Ok(s) ==> s@ == vstd::utf8::decode_utf8(bytes@),
{
    match std::str::from_utf8(bytes) {
        Ok(s) => Ok(s.to_owned()),
        Err(e) => Err(e),
    }
}

/// Decodes AES and EAES to a string.
///
/// Returns an error alongside a vector with the decoded data if it can't be constructed into
/// a [`String`].
pub fn decode_to_string(text: &str) -> (r: Result<String, (std::str::Utf8Error, Vec<u8>)>)
    ensures
        r is Ok <==> vstd::utf8::valid_utf8(decoded(text@)),
        r matches Ok(s) ==> s@ == vstd::utf8::decode_utf8(decoded(text@)),
        r matches Err((_, bytes)) ==> bytes@ == decoded(text@),
{
    let vec = decode(text);
    match text_from_utf8(vec.as_slice()) {
        Ok(s) => Ok(s),
        Err(e) => Err((e, vec)),
    }
}

/// Encodes input (in bytes) to AES.
pub fn encode<T: ToBytes>(input: T, separator: &str) -> (r: String)
    ensures
        r@ == encoded(input.byte_view(), separator@, false),
{
    encode_escape(input, separator, false)
}

/// Encodes input (in bytes) to EAES.
pub fn encode_escaped<T: ToBytes>(input: T, separator: &str) -> (r: String)
    ensures
        r@ == encoded(input.byte_view(), separator@, true),
{
    encode_escape(input, separator, true)
}

/// Encodes input (in bytes) to AES or EAES depending on if `escape` is true.
pub fn encode_escape<T: ToBytes>(input: T, separator: &str, escape: bool) -> (r: String)
    ensures
        r@ == encoded(input.byte_view(), separator@, escape),
{
    proof {
        reveal_strlit(", ");
    }
    assert(", "@ =~= default_separator());
    let sep_used = if check_separator(separator) {
        separator
    } else {
        ", "
    };
    let data = input.to_bytes();
    let ghost b = data@;
    let mut ret = String::new();
    for idx in 0..data.len()
        invariant
            b == data@,
            b == input.byte_view(),
            sep_used@ == effective_separator(separator@),
            ret@ == join_units(b.take(idx as int), sep_used@, escape),
    {
        let ghost prev = ret@;
        if idx > 0 {
            ret.append(sep_used);
        }
        push_unit(&mut ret, data[idx], escape);
        assert(b.take(idx as int + 1).drop_last() =~= b.take(idx as int));
        assert(ret@ =~= join_units(b.take(idx as int + 1), sep_used@, escape));
    }
    assert(b.take(data.len() as int) =~= b);
    ret
}

} // verus!
