//! The mathematical model of the codec: what a phrase is, how bytes map to
//! tokens, and how a phrase is split, validated and read back.
//!
//! A token is a dictionary word followed by a decimal suffix of one or two
//! digits. A pair of bytes `x, y` becomes the word at index `x*4 + y/64`
//! (the high 10 bits) with suffix `y % 64` (the low 6 bits); a lone trailing
//! byte `x` becomes the word at index `x` with the literal suffix `64`,
//! which only the last token of a phrase may carry.

use vstd::prelude::*;

use crate::dict::{dict_word, resolve_word, LookupError, UNIQUE_PREFIX_LEN};

verus! {

// ---------------------------------------------------------------------------
// Characters and decimal suffixes
// ---------------------------------------------------------------------------
/// Whether `c` is a decimal digit.
pub open spec fn is_digit_char(c: char) -> bool {
    '0' <= c <= '9'
}

/// The numeric value of a digit character.
pub open spec fn digit_val(c: char) -> int {
    c as int - '0' as int
}

/// The character for the decimal digit `d`.
pub open spec fn digit_char(d: int) -> char {
    if d == 0 {
        '0'
    } else if d == 1 {
        '1'
    } else if d == 2 {
        '2'
    } else if d == 3 {
        '3'
    } else if d == 4 {
        '4'
    } else if d == 5 {
        '5'
    } else if d == 6 {
        '6'
    } else if d == 7 {
        '7'
    } else if d == 8 {
        '8'
    } else {
        '9'
    }
}

/// The decimal text of a suffix value, without padding: one digit below 10,
/// two digits otherwise.
pub open spec fn suffix_chars(n: int) -> Seq<char> {
    if n < 10 {
        seq![digit_char(n)]
    } else {
        seq![digit_char(n / 10), digit_char(n % 10)]
    }
}

// ---------------------------------------------------------------------------
// Tokens produced by the encoder
// ---------------------------------------------------------------------------
/// The dictionary index that packs byte `x` (all 8 bits) with the top 2 bits
/// of byte `y`.
pub open spec fn word_index(x: u8, y: u8) -> int {
    x as int * 4 + y as int / 64
}

/// The token encoding the byte pair `x, y`.
pub open spec fn pair_token(x: u8, y: u8) -> Seq<char> {
    dict_word(word_index(x, y)) + suffix_chars(y as int % 64)
}

/// The terminal token encoding a lone trailing byte `x`.
pub open spec fn terminal_token(x: u8) -> Seq<char> {
    dict_word(x as int) + seq!['6', '4']
}

/// The sequence of tokens that encodes `b`: one per byte pair, then one
/// terminal token if a byte is left over.
pub open spec fn token_seq(b: Seq<u8>) -> Seq<Seq<char>>
    decreases b.len(),
{
    if b.len() == 0 {
        Seq::empty()
    } else if b.len() == 1 {
        seq![terminal_token(b[0])]
    } else {
        seq![pair_token(b[0], b[1])] + token_seq(b.skip(2))
    }
}

/// Tokens joined by single spaces.
pub open spec fn join_tokens(ts: Seq<Seq<char>>) -> Seq<char>
    decreases ts.len(),
{
    if ts.len() == 0 {
        Seq::empty()
    } else if ts.len() == 1 {
        ts[0]
    } else {
        ts[0] + seq![' '] + join_tokens(ts.drop_first())
    }
}

/// The phrase encoding the byte sequence `b`.
pub open spec fn encoding(b: Seq<u8>) -> Seq<char> {
    join_tokens(token_seq(b))
}

// ---------------------------------------------------------------------------
// Splitting a phrase into tokens
// ---------------------------------------------------------------------------
/// The position of the first space in `p`, or `p.len()` if there is none.
pub open spec fn find_space(p: Seq<char>) -> int
    decreases p.len(),
{
    if p.len() == 0 {
        0
    } else if p[0] == ' ' {
        0
    } else {
        1 + find_space(p.drop_first())
    }
}

/// The first space of a phrase lies within it.
pub proof fn lemma_find_space_bounds(p: Seq<char>)
    ensures
        0 <= find_space(p) <= p.len(),
    decreases p.len(),
{
    if p.len() != 0 && p[0] != ' ' {
        lemma_find_space_bounds(p.drop_first());
    }
}

/// `p` split on single spaces, order preserved; consecutive spaces yield
/// empty tokens.
pub open spec fn split_spaces(p: Seq<char>) -> Seq<Seq<char>>
    decreases p.len(),
    via split_spaces_decreases
{
    let k = find_space(p);
    if k >= p.len() {
        seq![p]
    } else {
        seq![p.take(k)] + split_spaces(p.skip(k + 1))
    }
}

#[via_fn]
proof fn split_spaces_decreases(p: Seq<char>) {
    lemma_find_space_bounds(p);
}

// ---------------------------------------------------------------------------
// Reading a single token
// ---------------------------------------------------------------------------
/// The length of the maximal run of digits at the end of `t`.
pub open spec fn trailing_digits(t: Seq<char>) -> int
    decreases t.len(),
{
    if t.len() == 0 || !is_digit_char(t.last()) {
        0
    } else {
        1 + trailing_digits(t.drop_last())
    }
}

/// The trailing digit run lies within the token.
pub proof fn lemma_trailing_digits_bounds(t: Seq<char>)
    ensures
        0 <= trailing_digits(t) <= t.len(),
    decreases t.len(),
{
    if t.len() != 0 && is_digit_char(t.last()) {
        lemma_trailing_digits_bounds(t.drop_last());
    }
}

/// Whether `t` is letters-then-suffix shaped: every digit stands in a
/// trailing run of exactly one or two.
pub open spec fn token_shape_ok(t: Seq<char>) -> bool {
    &&& 1 <= trailing_digits(t) <= 2
    &&& forall|i: int| 0 <= i < t.len() - trailing_digits(t) ==> !is_digit_char(t[i])
}

/// The word part of `t`: everything before the trailing digits.
pub open spec fn word_of(t: Seq<char>) -> Seq<char> {
    t.take(t.len() - trailing_digits(t))
}

/// The suffix part of `t`: the trailing digits.
pub open spec fn suffix_of(t: Seq<char>) -> Seq<char> {
    t.skip(t.len() - trailing_digits(t))
}

/// The numeric value of the trailing suffix of `t`.
pub open spec fn suffix_val(t: Seq<char>) -> int {
    if trailing_digits(t) == 1 {
        digit_val(t.last())
    } else {
        10 * digit_val(t[t.len() - 2]) + digit_val(t.last())
    }
}

// ---------------------------------------------------------------------------
// Decode errors
// ---------------------------------------------------------------------------
/// How decoding a phrase can fail.
#[derive(Clone, Copy, Debug, PartialEq, Eq, Structural)]
pub enum DecodeErrorKind {
    /// A token's suffix digits are not strictly trailing, number zero or
    /// more than two, or its word is shorter than the unique prefix length.
    MalformedWord,
    /// A token's word prefix matches no dictionary entry.
    WordNotFound,
    /// A terminal token resolved to a dictionary index above 255.
    TerminalWordOutOfRange,
    /// A non-terminal token's suffix value exceeds 64.
    SuffixOutOfRange,
    /// A terminal token appeared before the last token.
    MisplacedTerminal,
}

/// A decode failure at the specification level: its kind, and the token it
/// arose at.
pub struct DecodeFault {
    pub kind: DecodeErrorKind,
    pub token: Seq<char>,
}

/// The fault of the given kind at token `t`.
pub open spec fn fault(kind: DecodeErrorKind, t: Seq<char>) -> DecodeFault {
    DecodeFault { kind, token: t }
}

// ---------------------------------------------------------------------------
// Reading tokens back into bytes
// ---------------------------------------------------------------------------
/// What a single token yields: its bytes and whether it was terminal, or
/// the fault it raises. Validation order follows the decoder: shape first,
/// then the word (too short, then unknown), then the range of the terminal
/// index or of the suffix value.
pub open spec fn token_result(t: Seq<char>) -> Result<(Seq<u8>, bool), DecodeFault> {
    if !token_shape_ok(t) {
        Err(fault(DecodeErrorKind::MalformedWord, t))
    } else if suffix_of(t) == seq!['6', '4'] {
        match resolve_word(word_of(t)) {
            Err(LookupError::WordTooShort) => Err(fault(DecodeErrorKind::MalformedWord, t)),
            Err(LookupError::WordNotFound) => Err(fault(DecodeErrorKind::WordNotFound, t)),
            Ok(idx) => if idx > 255 {
                Err(fault(DecodeErrorKind::TerminalWordOutOfRange, t))
            } else {
                Ok((seq![idx as u8], true))
            },
        }
    } else {
        match resolve_word(word_of(t)) {
            Err(LookupError::WordTooShort) => Err(fault(DecodeErrorKind::MalformedWord, t)),
            Err(LookupError::WordNotFound) => Err(fault(DecodeErrorKind::WordNotFound, t)),
            Ok(idx) => if suffix_val(t) > 64 {
                Err(fault(DecodeErrorKind::SuffixOutOfRange, t))
            } else {
                Ok(
                    (
                        seq![
                            ((idx as int * 64 + suffix_val(t)) / 256) as u8,
                            ((idx as int * 64 + suffix_val(t)) % 256) as u8,
                        ],
                        false,
                    ),
                )
            },
        }
    }
}

/// What a token sequence decodes to: token results concatenated in order,
/// where a terminal token must be last, and the first fault wins.
pub open spec fn decode_tokens(ts: Seq<Seq<char>>) -> Result<Seq<u8>, DecodeFault>
    decreases ts.len(),
{
    if ts.len() == 0 {
        Ok(Seq::empty())
    } else {
        match token_result(ts[0]) {
            Err(e) => Err(e),
            Ok((bs, terminal)) => if terminal {
                if ts.len() > 1 {
                    Err(fault(DecodeErrorKind::MisplacedTerminal, ts[0]))
                } else {
                    Ok(bs)
                }
            } else {
                match decode_tokens(ts.drop_first()) {
                    Ok(rest) => Ok(bs + rest),
                    Err(e) => Err(e),
                }
            },
        }
    }
}

/// What the phrase `p` decodes to: the empty phrase yields no bytes, any
/// other phrase is split on spaces and read token by token.
pub open spec fn decoding(p: Seq<char>) -> Result<Seq<u8>, DecodeFault> {
    if p.len() == 0 {
        Ok(Seq::empty())
    } else {
        decode_tokens(split_spaces(p))
    }
}

/// A byte prefix joined onto a pending decode result; faults pass through.
pub open spec fn prepend_bytes(pre: Seq<u8>, r: Result<Seq<u8>, DecodeFault>) -> Result<
    Seq<u8>,
    DecodeFault,
> {
    match r {
        Ok(v) => Ok(pre + v),
        Err(e) => Err(e),
    }
}

// ---------------------------------------------------------------------------
// Truncating a phrase to unique prefixes
// ---------------------------------------------------------------------------
/// `t` with its word part cut down to the unique prefix length; the suffix
/// stays.
pub open spec fn truncate_token(t: Seq<char>) -> Seq<char> {
    word_of(t).take(UNIQUE_PREFIX_LEN as int) + suffix_of(t)
}

/// Every token of `ts` truncated.
pub open spec fn truncate_tokens(ts: Seq<Seq<char>>) -> Seq<Seq<char>> {
    ts.map_values(|t: Seq<char>| truncate_token(t))
}

/// The phrase `p` with every word abbreviated to the unique prefix length.
pub open spec fn truncated_phrase(p: Seq<char>) -> Seq<char> {
    if p.len() == 0 {
        p
    } else {
        join_tokens(truncate_tokens(split_spaces(p)))
    }
}

// ---------------------------------------------------------------------------
// Facts about building phrases
// ---------------------------------------------------------------------------
/// Two more bytes extend the token sequence by one pair token.
pub proof fn lemma_token_seq_snoc2(b: Seq<u8>, x: u8, y: u8)
    requires
        b.len() % 2 == 0,
    ensures
        token_seq(b.push(x).push(y)) == token_seq(b).push(pair_token(x, y)),
    decreases b.len(),
{
    let c = b.push(x).push(y);
    if b.len() == 0 {
        assert(c.skip(2) =~= Seq::<u8>::empty());
        assert(token_seq(c.skip(2)) == Seq::<Seq<char>>::empty());
        assert(c[0] == x && c[1] == y);
        assert(token_seq(c) =~= token_seq(b).push(pair_token(x, y)));
    } else {
        let d = b.skip(2);
        assert(c.skip(2) =~= d.push(x).push(y));
        lemma_token_seq_snoc2(d, x, y);
        assert(c[0] == b[0] && c[1] == b[1]);
        assert(token_seq(c.skip(2)) == token_seq(d).push(pair_token(x, y)));
        assert(token_seq(c) == seq![pair_token(b[0], b[1])] + token_seq(d).push(
            pair_token(x, y),
        ));
        assert(seq![pair_token(b[0], b[1])] + token_seq(d).push(pair_token(x, y)) =~= (
        seq![pair_token(b[0], b[1])] + token_seq(d)).push(pair_token(x, y)));
    }
}

/// One trailing byte extends the token sequence by one terminal token.
pub proof fn lemma_token_seq_snoc1(b: Seq<u8>, x: u8)
    requires
        b.len() % 2 == 0,
    ensures
        token_seq(b.push(x)) == token_seq(b).push(terminal_token(x)),
    decreases b.len(),
{
    let c = b.push(x);
    if b.len() == 0 {
        assert(c[0] == x);
        assert(token_seq(c) =~= token_seq(b).push(terminal_token(x)));
    } else {
        let d = b.skip(2);
        assert(c.skip(2) =~= d.push(x));
        lemma_token_seq_snoc1(d, x);
        assert(c[0] == b[0] && c[1] == b[1]);
        assert(token_seq(c.skip(2)) == token_seq(d).push(terminal_token(x)));
        assert(token_seq(c) == seq![pair_token(b[0], b[1])] + token_seq(d).push(
            terminal_token(x),
        ));
        assert(seq![pair_token(b[0], b[1])] + token_seq(d).push(terminal_token(x)) =~= (
        seq![pair_token(b[0], b[1])] + token_seq(d)).push(terminal_token(x)));
    }
}

/// Joining one more token appends a separating space except at the front.
pub proof fn lemma_join_push(ts: Seq<Seq<char>>, t: Seq<char>)
    ensures
        join_tokens(ts.push(t)) == join_tokens(ts) + (if ts.len() == 0 {
            Seq::<char>::empty()
        } else {
            seq![' ']
        }) + t,
    decreases ts.len(),
{
    let p = ts.push(t);
    if ts.len() == 0 {
        assert(p[0] == t);
        assert(join_tokens(p) =~= join_tokens(ts) + Seq::<char>::empty() + t);
    } else if ts.len() == 1 {
        assert(p.drop_first() =~= seq![t]);
        assert(join_tokens(p.drop_first()) == t);
        assert(p[0] == ts[0]);
        assert(join_tokens(p) =~= join_tokens(ts) + seq![' '] + t);
    } else {
        let tsd = ts.drop_first();
        assert(p.drop_first() =~= tsd.push(t));
        lemma_join_push(tsd, t);
        assert(p[0] == ts[0]);
        assert(join_tokens(p) == ts[0] + seq![' '] + (join_tokens(tsd) + seq![' '] + t));
        assert(ts[0] + seq![' '] + (join_tokens(tsd) + seq![' '] + t) =~= (ts[0] + seq![' ']
            + join_tokens(tsd)) + seq![' '] + t);
    }
}

/// A nonempty byte sequence encodes to a nonempty phrase.
pub proof fn lemma_encoding_nonempty(b: Seq<u8>)
    requires
        b.len() > 0,
    ensures
        encoding(b).len() > 0,
{
    let ts = token_seq(b);
    assert(ts[0].len() > 0) by {
        if b.len() == 1 {
            assert(suffix_chars(64int).len() > 0);
        } else {
            assert(suffix_chars(b[1] as int % 64).len() > 0);
        }
    }
    if ts.len() == 1 {
        assert(encoding(b) == ts[0]);
    }
}

/// Two more bytes extend the phrase by a separator and one pair token.
pub proof fn lemma_encoding_snoc2(b: Seq<u8>, x: u8, y: u8)
    requires
        b.len() % 2 == 0,
    ensures
        encoding(b.push(x).push(y)) == encoding(b) + (if b.len() == 0 {
            Seq::<char>::empty()
        } else {
            seq![' ']
        }) + pair_token(x, y),
{
    lemma_token_seq_snoc2(b, x, y);
    lemma_join_push(token_seq(b), pair_token(x, y));
}

/// A trailing byte extends the phrase by a separator and a terminal token.
pub proof fn lemma_encoding_snoc1(b: Seq<u8>, x: u8)
    requires
        b.len() % 2 == 0,
    ensures
        encoding(b.push(x)) == encoding(b) + (if b.len() == 0 {
            Seq::<char>::empty()
        } else {
            seq![' ']
        }) + terminal_token(x),
{
    lemma_token_seq_snoc1(b, x);
    lemma_join_push(token_seq(b), terminal_token(x));
}

/// `find_space` is pinned by a space-free prefix followed by a space or the
/// end of the phrase.
pub proof fn lemma_find_space_at(s: Seq<char>, k: int)
    requires
        0 <= k <= s.len(),
        forall|m: int| 0 <= m < k ==> s[m] != ' ',
        k == s.len() || s[k] == ' ',
    ensures
        find_space(s) == k,
    decreases k,
{
    if s.len() != 0 && s[0] != ' ' {
        lemma_find_space_at(s.drop_first(), k - 1);
    }
}

} // verus!
