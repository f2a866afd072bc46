//! Laws of the Anyway scheme: what encoding and decoding guarantee together.
//!
//! The lemmas run the decoder's state machine over the pieces that the encoder writes (escaped
//! markers, markers, words, separators) and put the results together.
use crate::anyway::{
    decoded, default_separator, effective_separator, encoded, escaped_marker, fresh_state,
    is_alphabet_char, is_lower_letter, join_units, letter_is_lower, letter_weight, marker,
    repeat, run_from, scan_step, tail_of, unit_of, valid_separator, word_of, ScanMode, ScanState,
};
use vstd::prelude::*;

verus! {

/// Running over `a + b` is running over `a`, then over `b` from where `a` ended.
pub proof fn lemma_run_concat(st: ScanState, a: Seq<char>, b: Seq<char>)
    ensures
        run_from(st, a + b) == (
            run_from(run_from(st, a).0, b).0,
            run_from(st, a).1 + run_from(run_from(st, a).0, b).1,
        ),
    decreases b.len(),
{
    if b.len() == 0 {
        assert(a + b =~= a);
        assert(run_from(st, a).1 + Seq::<u8>::empty() =~= run_from(st, a).1);
    } else {
        assert((a + b).drop_last() =~= a + b.drop_last());
        lemma_run_concat(st, a, b.drop_last());
        let (mid, out) = run_from(run_from(st, a).0, b.drop_last());
        let (next, done) = scan_step(mid, b.last());
        match done {
            Some(v) => {
                assert(run_from(st, a).1 + out.push(v) =~= (run_from(st, a).1 + out).push(v));
            },
            None => {},
        }
    }
}

/// Text that holds no character of the alphabet leaves a scanning state as it is.
proof fn lemma_run_noise(st: ScanState, x: Seq<char>)
    requires
        st.mode == ScanMode::Scan || st.mode == ScanMode::Trailing,
        forall|i: int| 0 <= i < x.len() ==> !is_alphabet_char(#[trigger] x[i]),
    ensures
        run_from(st, x).1 == Seq::<u8>::empty(),
        run_from(st, x).0 == (if x.len() == 0 { st } else { ScanState { mode: ScanMode::Scan, ..st } }),
    decreases x.len(),
{
    if x.len() > 0 {
        assert(x.drop_last().len() == 0 || x.drop_last()[0] == x[0]);
        lemma_run_noise(st, x.drop_last());
        assert(!is_alphabet_char(x[x.len() - 1]));
    }
}

/// After a completed unit, a run of alphabet characters is skipped whole.
proof fn lemma_run_trailing(x: Seq<char>)
    requires
        forall|i: int| 0 <= i < x.len() ==> is_alphabet_char(#[trigger] x[i]),
    ensures
        run_from(fresh_state(ScanMode::Trailing), x) == (fresh_state(ScanMode::Trailing), Seq::<u8>::empty()),
    decreases x.len(),
{
    if x.len() > 0 {
        lemma_run_trailing(x.drop_last());
        assert(is_alphabet_char(x[x.len() - 1]));
    }
}

/// A piece made of alphabet characters stays so when repeated.
proof fn lemma_repeat_alphabet(s: Seq<char>, n: nat)
    requires
        forall|j: int| 0 <= j < s.len() ==> is_alphabet_char(#[trigger] s[j]),
    ensures
        forall|i: int| 0 <= i < repeat(s, n).len() ==> is_alphabet_char(#[trigger] repeat(s, n)[i]),
    decreases n,
{
    if n > 0 {
        let prev = repeat(s, (n - 1) as nat);
        lemma_repeat_alphabet(s, (n - 1) as nat);
        assert forall|i: int| 0 <= i < repeat(s, n).len() implies is_alphabet_char(
            #[trigger] repeat(s, n)[i],
        ) by {
            if i < prev.len() {
                assert(repeat(s, n)[i] == prev[i]);
            } else {
                assert(repeat(s, n)[i] == s[i - prev.len()]);
            }
        }
    }
}

/// Escaped markers are skipped pair by pair, with no effect on the scan.
proof fn lemma_run_escaped(st: ScanState, n: nat)
    requires
        st.mode == ScanMode::Scan,
    ensures
        run_from(st, escaped_marker(n)) == (st, Seq::<u8>::empty()),
    decreases n,
{
    if n > 0 {
        lemma_run_escaped(st, (n - 1) as nat);
        lemma_run_concat(st, escaped_marker((n - 1) as nat), seq!['\\', '*']);
        assert(seq!['\\', '*'].drop_last() =~= seq!['\\']);
        assert(seq!['\\'].drop_last() =~= Seq::<char>::empty());
        assert(run_from(st, Seq::<char>::empty()) == (st, Seq::<u8>::empty()));
        assert(run_from(st, seq!['\\']) == (ScanState { mode: ScanMode::Escape, ..st }, Seq::<u8>::empty()));
        assert(run_from(st, seq!['\\', '*']) == (st, Seq::<u8>::empty()));
        assert(escaped_marker(n) == escaped_marker((n - 1) as nat) + seq!['\\', '*']);
        assert(Seq::<u8>::empty() + Seq::<u8>::empty() =~= Seq::<u8>::empty());
    }
}

/// Each plain marker star adds one to the star count, modulo 4.
proof fn lemma_run_marker(st: ScanState, n: nat)
    requires
        st.mode == ScanMode::Scan,
        st.stars < 4,
    ensures
        run_from(st, marker(n)) == (ScanState { stars: ((st.stars + n) % 4) as u8, ..st }, Seq::<u8>::empty()),
    decreases n,
{
    if n > 0 {
        lemma_run_marker(st, (n - 1) as nat);
        assert(marker(n).drop_last() =~= marker((n - 1) as nat));
        assert(((((st.stars + (n - 1)) % 4) as u8 + 1) % 4) == (st.stars + n) % 4);
    }
}

/// The body bits of `v` below letter `k`.
spec fn partial_body(v: u8, k: u8) -> u8 {
    (v >> 2u8) & ((1u8 << k) - 1u8) as u8
}

proof fn lemma_partial_body(v: u8, k: u8)
    requires
        k < 6,
    ensures
        partial_body(v, 0) == 0,
        partial_body(v, k) < letter_weight(k),
        partial_body(v, (k + 1) as u8) == partial_body(v, k) + (if (v >> ((k + 2) as u8)) & 1u8 == 1u8 {
            letter_weight(k)
        } else {
            0
        }),
        partial_body(v, 6) == v >> 2u8,
{
    assert(k < 6 ==> ((v >> 2u8) & ((1u8 << k) - 1u8) as u8) < (1u8 << k)) by (bit_vector);
    assert(k < 6 ==> ((v >> 2u8) & ((1u8 << ((k + 1) as u8)) - 1u8) as u8) == ((v >> 2u8) & ((1u8
        << k) - 1u8) as u8) + (if (v >> ((k + 2) as u8)) & 1u8 == 1u8 {
        1u8 << k
    } else {
        0u8
    })) by (bit_vector);
    assert(((v >> 2u8) & ((1u8 << 0u8) - 1u8) as u8) == 0) by (bit_vector);
    assert(((v >> 2u8) & ((1u8 << 6u8) - 1u8) as u8) == v >> 2u8) by (bit_vector);
}

/// A byte is its body times four plus its tail.
proof fn lemma_byte_split(v: u8)
    ensures
        (v >> 2u8) * 4 + (v & 3u8) == v,
        v & 3u8 < 4,
{
    assert((v >> 2u8) * 4 + (v & 3u8) == v) by (bit_vector);
    assert(v & 3u8 < 4) by (bit_vector);
}

/// The first `k` letters of a word are read into the body, one bit each.
proof fn lemma_run_word_prefix(v: u8, stars: u8, k: u8)
    requires
        k < 6,
        stars < 4,
    ensures
        run_from(ScanState { mode: ScanMode::Scan, count: 0, body: 0, stars }, word_of(v).take(k as int))
            == (ScanState { mode: ScanMode::Scan, count: k, body: partial_body(v, k), stars }, Seq::<u8>::empty()),
    decreases k,
{
    lemma_partial_body(v, 0);
    if k > 0 {
        let j = (k - 1) as u8;
        lemma_run_word_prefix(v, stars, j);
        lemma_partial_body(v, j);
        assert(word_of(v).take(k as int).drop_last() =~= word_of(v).take(j as int));
        assert(((j as int + 2) as u8) == (j + 2) as u8);
    } else {
        assert(word_of(v).take(0) =~= Seq::<char>::empty());
    }
}

/// A whole word completes the unit: the byte is its body and the star count.
proof fn lemma_run_word(v: u8, stars: u8)
    requires
        stars < 4,
    ensures
        run_from(ScanState { mode: ScanMode::Scan, count: 0, body: 0, stars }, word_of(v))
            == (fresh_state(ScanMode::Trailing), seq![(((v >> 2u8) * 4) + stars) as u8]),
{
    lemma_run_word_prefix(v, stars, 5);
    lemma_partial_body(v, 5);
    assert(word_of(v).drop_last() =~= word_of(v).take(5));
    assert(Seq::<u8>::empty().push((((v >> 2u8) * 4) + stars) as u8) =~= seq![(((v >> 2u8) * 4) + stars) as u8]);
}

/// One unit, read from a fresh state, gives back its byte and leaves the scan after it.
proof fn lemma_run_unit(v: u8, escape: bool)
    ensures
        run_from(fresh_state(ScanMode::Scan), unit_of(v, escape)) == (fresh_state(ScanMode::Trailing), seq![v]),
{
    let s0 = fresh_state(ScanMode::Scan);
    let t = tail_of(v);
    let m = marker(t);
    let e = escaped_marker(t);
    let w = word_of(v);
    lemma_run_marker(s0, t);
    lemma_byte_split(v);
    assert(((0 + t) % 4) as u8 == v & 3u8);
    let after_marker = ScanState { stars: v & 3u8, ..s0 };
    assert(run_from(s0, m) == (after_marker, Seq::<u8>::empty()));
    lemma_run_word(v, v & 3u8);
    lemma_repeat_alphabet(seq!['*'], t);
    lemma_repeat_alphabet(seq!['\\', '*'], t);
    lemma_run_trailing(m);
    lemma_run_trailing(e);
    lemma_run_concat(s0, m, w);
    lemma_run_concat(s0, m + w, m);
    assert(Seq::<u8>::empty() + seq![v] =~= seq![v]);
    assert(seq![v] + Seq::<u8>::empty() =~= seq![v]);
    if escape {
        lemma_run_escaped(s0, t);
        lemma_run_concat(s0, e, m);
        lemma_run_concat(s0, e + m, w);
        lemma_run_concat(s0, e + m + w, m);
        lemma_run_concat(s0, e + m + w + m, e);
        assert(Seq::<u8>::empty() + Seq::<u8>::empty() =~= Seq::<u8>::empty());
    }
}

/// Encoded text, read from a fresh state, gives back every byte.
proof fn lemma_run_join(b: Seq<u8>, sep: Seq<char>, escape: bool)
    requires
        valid_separator(sep),
    ensures
        run_from(fresh_state(ScanMode::Scan), join_units(b, sep, escape)) == (
            if b.len() == 0 { fresh_state(ScanMode::Scan) } else { fresh_state(ScanMode::Trailing) },
            b,
        ),
    decreases b.len(),
{
    let s0 = fresh_state(ScanMode::Scan);
    if b.len() == 0 {
        assert(b =~= Seq::<u8>::empty());
    } else if b.len() == 1 {
        lemma_run_unit(b[0], escape);
        assert(b =~= seq![b[0]]);
    } else {
        let prev = join_units(b.drop_last(), sep, escape);
        lemma_run_join(b.drop_last(), sep, escape);
        lemma_run_noise(fresh_state(ScanMode::Trailing), sep);
        lemma_run_unit(b.last(), escape);
        lemma_run_concat(s0, prev, sep);
        lemma_run_concat(s0, prev + sep, unit_of(b.last(), escape));
        assert(b.drop_last() + Seq::<u8>::empty() =~= b.drop_last());
        assert(b.drop_last() + seq![b.last()] =~= b);
    }
}

/// Encoding and then decoding gives back the input, for any separator and either style.
pub proof fn lemma_round_trip(b: Seq<u8>, sep: Seq<char>, escape: bool)
    ensures
        decoded(encoded(b, sep, escape)) == b,
{
    assert(valid_separator(default_separator()));
    lemma_run_join(b, effective_separator(sep), escape);
}

/// An invalid separator is replaced by the default one: the output is the one that the
/// default separator gives.
pub proof fn lemma_separator_fallback(b: Seq<u8>, sep: Seq<char>, escape: bool)
    requires
        !valid_separator(sep),
    ensures
        encoded(b, sep, escape) == encoded(b, default_separator(), escape),
{
    assert(valid_separator(default_separator()));
}

/// A single byte is written as its tail in stars around a word whose letter cases are its
/// six high bits, and reads back as itself.
pub proof fn lemma_single_byte(v: u8, sep: Seq<char>)
    ensures
        encoded(seq![v], sep, false) == marker((v & 3u8) as nat) + word_of(v) + marker((v & 3u8) as nat),
        marker((v & 3u8) as nat) =~= Seq::new((v & 3u8) as nat, |i: int| '*'),
        forall|i: int| 0 <= i < 6 ==> is_lower_letter(#[trigger] word_of(v)[i]) == letter_is_lower(v, i),
        decoded(encoded(seq![v], sep, false)) == seq![v],
        decoded(encoded(seq![v], sep, true)) == seq![v],
{
    lemma_round_trip(seq![v], sep, false);
    lemma_round_trip(seq![v], sep, true);
    lemma_marker_stars((v & 3u8) as nat);
}

proof fn lemma_marker_stars(n: nat)
    ensures
        marker(n) =~= Seq::new(n, |i: int| '*'),
    decreases n,
{
    if n > 0 {
        lemma_marker_stars((n - 1) as nat);
    }
}

/// The escaped encoding decodes to the same bytes as the plain one.
pub proof fn lemma_escape_tolerance(b: Seq<u8>, sep: Seq<char>)
    ensures
        decoded(encoded(b, sep, true)) == decoded(encoded(b, sep, false)),
{
    lemma_round_trip(b, sep, true);
    lemma_round_trip(b, sep, false);
}

/// Characters outside the alphabet, put into a text where the scan is reading units (not
/// right after a backslash, and not inside the run of alphabet characters that follows a
/// completed word), leave the decoded bytes as they are.
pub proof fn lemma_noise_tolerance(s: Seq<char>, i: int, x: Seq<char>)
    requires
        0 <= i <= s.len(),
        forall|j: int| 0 <= j < x.len() ==> !is_alphabet_char(#[trigger] x[j]),
        run_from(fresh_state(ScanMode::Scan), s.take(i)).0.mode == ScanMode::Scan || (run_from(
            fresh_state(ScanMode::Scan),
            s.take(i),
        ).0.mode == ScanMode::Trailing && (i == s.len() || !is_alphabet_char(s[i]))),
    ensures
        decoded(s.take(i) + x + s.skip(i)) == decoded(s),
{
    let s0 = fresh_state(ScanMode::Scan);
    let pre = s.take(i);
    let rest = s.skip(i);
    let (st, out) = run_from(s0, pre);
    assert(s =~= pre + rest);
    lemma_run_concat(s0, pre, x);
    lemma_run_concat(s0, pre + x, rest);
    lemma_run_concat(s0, pre, rest);
    lemma_run_noise(st, x);
    assert(out + Seq::<u8>::empty() =~= out);
    let st2 = run_from(st, x).0;
    if st2 != st {
        // `st` is trailing and `x` is not empty: both scans are in the same state once the
        // first character of `rest` has been read.
        if rest.len() > 0 {
            let c = seq![rest[0]];
            let tail = rest.skip(1);
            assert(rest =~= c + tail);
            lemma_run_concat(st, c, tail);
            lemma_run_concat(st2, c, tail);
            assert(c.drop_last() =~= Seq::<char>::empty());
            assert(rest[0] == s[i]);
            assert(run_from(st, Seq::<char>::empty()) == (st, Seq::<u8>::empty()));
            assert(run_from(st2, Seq::<char>::empty()) == (st2, Seq::<u8>::empty()));
            assert(scan_step(st, rest[0]) == scan_step(st2, rest[0]));
            assert(run_from(st, c) == run_from(st2, c));
        } else {
            assert(rest =~= Seq::<char>::empty());
        }
    }
}

} // verus!
