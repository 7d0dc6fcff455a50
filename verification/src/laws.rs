//! The laws of the codec, proved against the model: the round trip, the
//! shape of every produced phrase, the empty case, and tolerance for words
//! abbreviated to the dictionary's unique prefix length.

use vstd::prelude::*;

use crate::dict::{
    dict_ok, dict_word, first_match, lemma_first_match_congruent, lemma_first_match_inv,
    prefix_matches, resolve_word, UNIQUE_PREFIX_LEN,
};
use crate::model::{
    decode_tokens, decoding, digit_char, digit_val, encoding, is_digit_char,
    lemma_encoding_nonempty, lemma_find_space_at, pair_token, split_spaces, suffix_chars,
    suffix_of, suffix_val, terminal_token, token_result, token_seq, token_shape_ok,
    trailing_digits, truncate_token, truncate_tokens, truncated_phrase, word_index, word_of,
    DecodeFault,
};

verus! {

/// A token that can stand in a phrase: nonempty and free of spaces.
pub open spec fn space_free_token(t: Seq<char>) -> bool {
    t.len() > 0 && forall|k: int| 0 <= k < t.len() ==> t[k] != ' '
}

/// The character of a decimal digit is a digit character with that value.
proof fn lemma_digit_char_val(d: int)
    requires
        0 <= d <= 9,
    ensures
        is_digit_char(digit_char(d)),
        digit_val(digit_char(d)) == d,
{
}

/// A suffix text is one or two digit characters, two exactly from ten up.
proof fn lemma_suffix_chars_wf(n: int)
    requires
        0 <= n <= 99,
    ensures
        1 <= suffix_chars(n).len() <= 2,
        suffix_chars(n).len() == 2 <==> n >= 10,
        forall|k: int| 0 <= k < suffix_chars(n).len() ==> is_digit_char(#[trigger] suffix_chars(n)[k]),
{
    if n < 10 {
        lemma_digit_char_val(n);
        assert(suffix_chars(n)[0] == digit_char(n));
    } else {
        lemma_digit_char_val(n / 10);
        lemma_digit_char_val(n % 10);
        assert(suffix_chars(n)[0] == digit_char(n / 10));
        assert(suffix_chars(n)[1] == digit_char(n % 10));
    }
}

/// Appending digits to a text that does not end in one leaves exactly those
/// digits trailing.
proof fn lemma_trailing_digits_concat(u: Seq<char>, d: Seq<char>)
    requires
        forall|k: int| 0 <= k < d.len() ==> is_digit_char(d[k]),
        u.len() == 0 || !is_digit_char(u.last()),
    ensures
        trailing_digits(u + d) == d.len(),
    decreases d.len(),
{
    if d.len() == 0 {
        assert(u + d =~= u);
    } else {
        assert((u + d).last() == d.last());
        assert((u + d).drop_last() =~= u + d.drop_last());
        lemma_trailing_digits_concat(u, d.drop_last());
    }
}

/// How a token built as word-plus-suffix comes apart again.
proof fn lemma_token_parts(w: Seq<char>, n: int)
    requires
        0 <= n <= 99,
        w.len() >= 1,
        forall|k: int| 0 <= k < w.len() ==> !is_digit_char(w[k]),
    ensures
        trailing_digits(w + suffix_chars(n)) == suffix_chars(n).len(),
        token_shape_ok(w + suffix_chars(n)),
        word_of(w + suffix_chars(n)) == w,
        suffix_of(w + suffix_chars(n)) == suffix_chars(n),
        suffix_val(w + suffix_chars(n)) == n,
{
    let s = suffix_chars(n);
    let t = w + s;
    lemma_suffix_chars_wf(n);
    assert(w.last() == t[w.len() - 1]);
    lemma_trailing_digits_concat(w, s);
    assert(word_of(t) =~= w);
    assert(suffix_of(t) =~= s);
    if n < 10 {
        assert(t.last() == s[0]);
        lemma_digit_char_val(n);
    } else {
        assert(t[t.len() - 2] == s[0]);
        assert(t.last() == s[1]);
        lemma_digit_char_val(n / 10);
        lemma_digit_char_val(n % 10);
    }
}

/// The characters of a dictionary word are letters: no digits, no spaces.
proof fn lemma_dict_word_chars(i: int)
    requires
        dict_ok(),
        0 <= i < 1024,
    ensures
        dict_word(i).len() >= UNIQUE_PREFIX_LEN,
        forall|k: int| 0 <= k < dict_word(i).len() ==> !is_digit_char(#[trigger] dict_word(i)[k]),
        forall|k: int| 0 <= k < dict_word(i).len() ==> #[trigger] dict_word(i)[k] != ' ',
{
    assert forall|k: int| 0 <= k < dict_word(i).len() implies !is_digit_char(
        #[trigger] dict_word(i)[k],
    ) && dict_word(i)[k] != ' ' by {
        assert('a' <= dict_word(i)[k] <= 'z');
    }
}

/// A word resolves to its own dictionary index: its prefix matches there,
/// and, the prefixes being unique, nowhere else.
proof fn lemma_resolve_dict_word(i: int)
    requires
        dict_ok(),
        0 <= i < 1024,
    ensures
        resolve_word(dict_word(i)) == Ok::<u16, crate::dict::LookupError>(i as u16),
{
    let w = dict_word(i);
    assert(prefix_matches(w, i));
    lemma_first_match_inv(w, 0);
    match first_match(w, 0) {
        Some(k) => {
            if k != i {
                assert(dict_word(k).take(UNIQUE_PREFIX_LEN as int) != dict_word(i).take(
                    UNIQUE_PREFIX_LEN as int,
                ));
            }
        },
        None => {
            assert(!prefix_matches(w, i));
        },
    }
}

/// A pair token reads back as exactly its two bytes, non-terminal.
proof fn lemma_pair_token_result(x: u8, y: u8)
    requires
        dict_ok(),
    ensures
        token_result(pair_token(x, y)) == Ok::<(Seq<u8>, bool), DecodeFault>(
            (seq![x, y], false),
        ),
{
    let wi = word_index(x, y);
    let n = y as int % 64;
    let w = dict_word(wi);
    let t = pair_token(x, y);
    assert(0 <= wi < 1024);
    lemma_dict_word_chars(wi);
    lemma_token_parts(w, n);
    lemma_resolve_dict_word(wi);
    // The suffix of a pair token is never the terminal text "64".
    lemma_suffix_chars_wf(n);
    if suffix_of(t) == seq!['6', '4'] {
        assert(suffix_chars(n).len() == 2);
        assert(suffix_chars(n)[0] == '6' && suffix_chars(n)[1] == '4');
        lemma_digit_char_val(n / 10);
        lemma_digit_char_val(n % 10);
        assert(digit_val('6') == n / 10 && digit_val('4') == n % 10);
        assert(n == 64);
    }
    // The packed value comes apart into the original bytes.
    let v = wi * 64 + n;
    assert(v == x as int * 256 + y as int) by {
        vstd::arithmetic::div_mod::lemma_fundamental_div_mod(y as int, 64);
    }
    assert(v / 256 == x as int && v % 256 == y as int) by {
        vstd::arithmetic::div_mod::lemma_fundamental_div_mod(v, 256);
    }
    assert(seq![(v / 256) as u8, (v % 256) as u8] =~= seq![x, y]);
}

/// A terminal token reads back as exactly its byte, terminal.
proof fn lemma_terminal_token_result(x: u8)
    requires
        dict_ok(),
    ensures
        token_result(terminal_token(x)) == Ok::<(Seq<u8>, bool), DecodeFault>(
            (seq![x], true),
        ),
{
    let w = dict_word(x as int);
    assert(suffix_chars(64) =~= seq!['6', '4']);
    assert(terminal_token(x) =~= w + suffix_chars(64));
    lemma_dict_word_chars(x as int);
    lemma_token_parts(w, 64);
    lemma_resolve_dict_word(x as int);
}

/// Every token the encoder produces is nonempty and space-free.
proof fn lemma_token_seq_wf(b: Seq<u8>)
    requires
        dict_ok(),
    ensures
        forall|i: int|
            0 <= i < token_seq(b).len() ==> space_free_token(#[trigger] token_seq(b)[i]),
    decreases b.len(),
{
    if b.len() == 0 {
    } else if b.len() == 1 {
        let t = terminal_token(b[0]);
        lemma_dict_word_chars(b[0] as int);
        assert(suffix_chars(64) =~= seq!['6', '4']);
        assert forall|k: int| 0 <= k < t.len() implies t[k] != ' ' by {
            if k >= dict_word(b[0] as int).len() {
                assert(is_digit_char(t[k])) by {
                    lemma_suffix_chars_wf(64);
                }
            }
        }
        assert(space_free_token(t));
        assert(token_seq(b) =~= seq![t]);
    } else {
        let t = pair_token(b[0], b[1]);
        let wi = word_index(b[0], b[1]);
        let n = b[1] as int % 64;
        lemma_dict_word_chars(wi);
        lemma_suffix_chars_wf(n);
        assert forall|k: int| 0 <= k < t.len() implies t[k] != ' ' by {
            if k >= dict_word(wi).len() {
                assert(is_digit_char(t[k]));
            }
        }
        assert(t.len() > 0);
        assert(space_free_token(t));
        lemma_token_seq_wf(b.skip(2));
        assert forall|i: int|
            0 <= i < token_seq(b).len() implies space_free_token(
            #[trigger] token_seq(b)[i],
        ) by {
            if i > 0 {
                assert(token_seq(b)[i] == token_seq(b.skip(2))[i - 1]);
            }
        }
    }
}

/// Splitting undoes joining for nonempty, space-free tokens.
proof fn lemma_split_join(ts: Seq<Seq<char>>)
    requires
        ts.len() >= 1,
        forall|i: int| 0 <= i < ts.len() ==> space_free_token(#[trigger] ts[i]),
    ensures
        split_spaces(crate::model::join_tokens(ts)) == ts,
    decreases ts.len(),
{
    let p = crate::model::join_tokens(ts);
    if ts.len() == 1 {
        assert(p == ts[0]);
        lemma_find_space_at(p, p.len() as int);
        assert(split_spaces(p) =~= ts);
    } else {
        let tsd = ts.drop_first();
        let q = crate::model::join_tokens(tsd);
        let len0 = ts[0].len() as int;
        assert(p == ts[0] + seq![' '] + q);
        assert forall|m: int| 0 <= m < len0 implies p[m] != ' ' by {
            assert(p[m] == ts[0][m]);
        }
        assert(p[len0] == ' ');
        lemma_find_space_at(p, len0);
        assert(p.take(len0) =~= ts[0]);
        assert(p.skip(len0 + 1) =~= q);
        assert forall|i: int| 0 <= i < tsd.len() implies space_free_token(
            #[trigger] tsd[i],
        ) by {
            assert(tsd[i] == ts[i + 1]);
        }
        lemma_split_join(tsd);
        assert(split_spaces(p) == seq![ts[0]] + tsd);
        assert(seq![ts[0]] + tsd =~= ts);
    }
}

/// The encoder's token sequence reads back as exactly the encoded bytes.
proof fn lemma_decode_token_seq(b: Seq<u8>)
    requires
        dict_ok(),
    ensures
        decode_tokens(token_seq(b)) == Ok::<Seq<u8>, DecodeFault>(b),
    decreases b.len(),
{
    if b.len() == 0 {
        assert(b =~= Seq::<u8>::empty());
    } else if b.len() == 1 {
        lemma_terminal_token_result(b[0]);
        assert(token_seq(b) == seq![terminal_token(b[0])]);
        assert(seq![b[0]] =~= b);
    } else {
        lemma_pair_token_result(b[0], b[1]);
        let ts = token_seq(b);
        assert(ts == seq![pair_token(b[0], b[1])] + token_seq(b.skip(2)));
        assert(ts[0] == pair_token(b[0], b[1]));
        assert(ts.drop_first() =~= token_seq(b.skip(2)));
        lemma_decode_token_seq(b.skip(2));
        assert(decode_tokens(ts.drop_first()) == Ok::<Seq<u8>, DecodeFault>(b.skip(2)));
        assert(ts.len() == 1 + token_seq(b.skip(2)).len());
        assert(seq![b[0], b[1]] + b.skip(2) =~= b);
    }
}

/// The suffix of a pair token is never the terminal text "64", and its
/// value is the low six bits of the second byte.
proof fn lemma_pair_token_parts(x: u8, y: u8)
    requires
        dict_ok(),
    ensures
        token_shape_ok(pair_token(x, y)),
        suffix_of(pair_token(x, y)) != seq!['6', '4'],
        suffix_val(pair_token(x, y)) == y as int % 64,
{
    let wi = word_index(x, y);
    let n = y as int % 64;
    assert(0 <= wi < 1024);
    lemma_dict_word_chars(wi);
    lemma_token_parts(dict_word(wi), n);
    lemma_suffix_chars_wf(n);
    if suffix_of(pair_token(x, y)) == seq!['6', '4'] {
        assert(suffix_chars(n).len() == 2);
        assert(suffix_chars(n)[0] == '6' && suffix_chars(n)[1] == '4');
        lemma_digit_char_val(n / 10);
        lemma_digit_char_val(n % 10);
        assert(n == 64);
    }
}

/// A terminal token is word-then-suffix shaped and carries the text "64".
proof fn lemma_terminal_token_parts(x: u8)
    requires
        dict_ok(),
    ensures
        token_shape_ok(terminal_token(x)),
        suffix_of(terminal_token(x)) == seq!['6', '4'],
{
    assert(suffix_chars(64) =~= seq!['6', '4']);
    assert(terminal_token(x) =~= dict_word(x as int) + suffix_chars(64));
    lemma_dict_word_chars(x as int);
    lemma_token_parts(dict_word(x as int), 64);
}

/// The shape of the encoder's token sequence: one token per byte pair plus
/// one for a leftover byte; the terminal suffix stands exactly on the last
/// token, exactly when the byte count is odd; every other suffix value lies
/// in [0, 63].
proof fn lemma_token_seq_shape(b: Seq<u8>)
    requires
        dict_ok(),
    ensures
        token_seq(b).len() == (b.len() + 1) / 2,
        forall|i: int| 0 <= i < token_seq(b).len() ==> token_shape_ok(#[trigger] token_seq(b)[i]),
        forall|i: int|
            0 <= i < token_seq(b).len() ==> (suffix_of(#[trigger] token_seq(b)[i]) == seq![
                '6',
                '4',
            ] <==> (b.len() % 2 == 1 && i == token_seq(b).len() - 1)),
        forall|i: int|
            0 <= i < token_seq(b).len() && !(b.len() % 2 == 1 && i == token_seq(b).len() - 1)
                ==> 0 <= suffix_val(#[trigger] token_seq(b)[i]) <= 63,
    decreases b.len(),
{
    if b.len() == 0 {
    } else if b.len() == 1 {
        lemma_terminal_token_parts(b[0]);
        assert(token_seq(b) == seq![terminal_token(b[0])]);
    } else {
        lemma_pair_token_parts(b[0], b[1]);
        lemma_token_seq_shape(b.skip(2));
        let ts = token_seq(b);
        let tsr = token_seq(b.skip(2));
        assert(ts == seq![pair_token(b[0], b[1])] + tsr);
        assert(b.skip(2).len() == b.len() - 2);
        assert(forall|i: int| 1 <= i < ts.len() ==> ts[i] == tsr[i - 1]);
        assert(b.skip(2).len() % 2 == b.len() % 2);
    }
}

/// Phrase shape: a phrase of `n > 0` bytes splits into exactly
/// `ceil(n / 2)` tokens, each letters-then-suffix shaped; the terminal
/// suffix text "64" stands on the last token exactly when `n` is odd, and
/// every other token's suffix value lies in [0, 63]. (No bytes make the
/// empty phrase, with no tokens at all: see `lemma_empty_phrase`.)
pub proof fn lemma_phrase_shape(b: Seq<u8>)
    requires
        dict_ok(),
        b.len() > 0,
    ensures
        ({
            let ts = split_spaces(encoding(b));
            &&& ts.len() == (b.len() + 1) / 2
            &&& forall|i: int| 0 <= i < ts.len() ==> token_shape_ok(#[trigger] ts[i])
            &&& forall|i: int|
                0 <= i < ts.len() ==> (suffix_of(#[trigger] ts[i]) == seq!['6', '4'] <==> (
                b.len() % 2 == 1 && i == ts.len() - 1))
            &&& forall|i: int|
                0 <= i < ts.len() && !(b.len() % 2 == 1 && i == ts.len() - 1) ==> 0 <= suffix_val(
                    #[trigger] ts[i],
                ) <= 63
        }),
{
    lemma_token_seq_wf(b);
    lemma_split_join(token_seq(b));
    lemma_token_seq_shape(b);
}

/// Truncating a token that reads back cleanly to its word's unique prefix
/// leaves its reading unchanged.
proof fn lemma_token_result_truncate(t: Seq<char>)
    requires
        dict_ok(),
        token_result(t) is Ok,
    ensures
        token_result(truncate_token(t)) == token_result(t),
        space_free_token(truncate_token(t)),
{
    let w = word_of(t);
    let s = suffix_of(t);
    let td = trailing_digits(t);
    let tt = truncate_token(t);
    let w3 = w.take(UNIQUE_PREFIX_LEN as int);
    assert(token_shape_ok(t));
    assert(resolve_word(w) is Ok);
    assert(w.len() >= UNIQUE_PREFIX_LEN);
    crate::model::lemma_trailing_digits_bounds(t);
    assert(w.len() == t.len() - td);
    // The suffix characters are digits.
    assert(is_digit_char(t[t.len() - 1]));
    if td == 2 {
        assert(trailing_digits(t.drop_last()) == 1);
        assert(t.drop_last().last() == t[t.len() - 2]);
        assert(is_digit_char(t[t.len() - 2]));
    }
    assert forall|m: int| 0 <= m < s.len() implies is_digit_char(s[m]) by {
        assert(s[m] == t[t.len() - td + m]);
    }
    // The word part carries no digit, so neither does its prefix.
    assert forall|m: int| 0 <= m < w3.len() implies !is_digit_char(w3[m]) by {
        assert(w3[m] == t[m]);
    }
    // The kept prefix consists of dictionary characters, hence no spaces.
    lemma_first_match_inv(w, 0);
    match first_match(w, 0) {
        Some(k) => {
            lemma_dict_word_chars(k);
            assert forall|m: int| 0 <= m < w3.len() implies w3[m] != ' ' by {
                assert(w3[m] == w.take(UNIQUE_PREFIX_LEN as int)[m]);
                assert(dict_word(k).take(UNIQUE_PREFIX_LEN as int)[m] == dict_word(k)[m]);
            }
        },
        None => {
            assert(false);
        },
    }
    // The truncated token comes apart the same way.
    assert(w3.len() == UNIQUE_PREFIX_LEN);
    assert(!is_digit_char(w3.last()));
    lemma_trailing_digits_concat(w3, s);
    assert(trailing_digits(tt) == td);
    assert(token_shape_ok(tt));
    assert(word_of(tt) =~= w3);
    assert(suffix_of(tt) =~= s);
    assert(tt[tt.len() - 1] == t[t.len() - 1]);
    if td == 2 {
        assert(tt[tt.len() - 2] == t[t.len() - 2]);
    }
    assert(suffix_val(tt) == suffix_val(t));
    // The prefix alone resolves to the same index.
    assert(w3.take(UNIQUE_PREFIX_LEN as int) =~= w.take(UNIQUE_PREFIX_LEN as int));
    lemma_first_match_congruent(w3, w, 0);
    assert(resolve_word(word_of(tt)) == resolve_word(w));
    // Space-freeness: prefix characters are dictionary letters, suffix
    // characters are digits.
    assert forall|m: int| 0 <= m < tt.len() implies tt[m] != ' ' by {
        if m >= w3.len() {
            assert(is_digit_char(tt[m]));
        }
    }
}

/// Truncating every token of a cleanly decoding sequence leaves the decode
/// unchanged.
#[verifier::rlimit(50)]
proof fn lemma_decode_trunc(ts: Seq<Seq<char>>)
    requires
        dict_ok(),
        decode_tokens(ts) is Ok,
    ensures
        decode_tokens(truncate_tokens(ts)) == decode_tokens(ts),
        forall|i: int|
            0 <= i < ts.len() ==> space_free_token(#[trigger] truncate_tokens(ts)[i]),
    decreases ts.len(),
{
    let tts = truncate_tokens(ts);
    assert(tts.len() == ts.len());
    if ts.len() == 0 {
        assert(tts =~= Seq::<Seq<char>>::empty());
    } else {
        assert(token_result(ts[0]) is Ok);
        lemma_token_result_truncate(ts[0]);
        assert(tts[0] == truncate_token(ts[0]));
        match token_result(ts[0]) {
            Ok((bs, terminal)) => {
                if terminal {
                    assert(ts.len() == 1);
                } else {
                    assert(decode_tokens(ts.drop_first()) is Ok);
                    lemma_decode_trunc(ts.drop_first());
                    assert(tts.drop_first() =~= truncate_tokens(ts.drop_first()));
                    assert forall|i: int|
                        0 <= i < ts.len() implies space_free_token(#[trigger] tts[i]) by {
                        if i > 0 {
                            assert(tts[i] == truncate_tokens(ts.drop_first())[i - 1]);
                        }
                    }
                }
            },
            Err(e) => {
                assert(false);
            },
        }
    }
}

/// Prefix tolerance: abbreviating every word of a cleanly decoding phrase
/// to the dictionary's unique prefix length decodes to the same bytes.
pub proof fn lemma_prefix_tolerance(p: Seq<char>, v: Seq<u8>)
    requires
        dict_ok(),
        decoding(p) == Ok::<Seq<u8>, DecodeFault>(v),
    ensures
        decoding(truncated_phrase(p)) == Ok::<Seq<u8>, DecodeFault>(v),
{
    if p.len() > 0 {
        let ts = split_spaces(p);
        let tts = truncate_tokens(ts);
        lemma_decode_trunc(ts);
        assert(ts.len() >= 1);
        lemma_split_join(tts);
        assert(tts[0].len() > 0);
        assert(crate::model::join_tokens(tts).len() > 0);
        assert(decoding(truncated_phrase(p)) == decode_tokens(tts));
    }
}

/// The empty case: no bytes encode to the empty phrase, and the empty
/// phrase decodes to no bytes.
pub proof fn lemma_empty_phrase()
    ensures
        encoding(Seq::<u8>::empty()) == Seq::<char>::empty(),
        decoding(Seq::<char>::empty()) == Ok::<Seq<u8>, DecodeFault>(Seq::<u8>::empty()),
{
    assert(token_seq(Seq::<u8>::empty()) == Seq::<Seq<char>>::empty());
}

/// The round trip: decoding an encoded phrase yields the original bytes,
/// for every byte sequence, of any length. The dictionary's declared
/// well-formedness is all it takes.
pub proof fn lemma_round_trip(b: Seq<u8>)
    requires
        dict_ok(),
    ensures
        decoding(encoding(b)) == Ok::<Seq<u8>, DecodeFault>(b),
{
    if b.len() == 0 {
        lemma_empty_phrase();
        assert(b =~= Seq::<u8>::empty());
    } else {
        let ts = token_seq(b);
        assert(ts.len() >= 1);
        lemma_token_seq_wf(b);
        lemma_split_join(ts);
        lemma_decode_token_seq(b);
        lemma_encoding_nonempty(b);
        assert(split_spaces(encoding(b)) == ts);
        assert(decoding(encoding(b)) == decode_tokens(ts));
    }
}

} // verus!
