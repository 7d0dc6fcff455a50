//! The executable codec: `binary_to_phrase` and `phrase_to_binary`.

use vstd::prelude::*;
use vstd::string::*;

use crate::dict::{dict_index, dictionary_word, LookupError, UNIQUE_PREFIX_LEN};
use crate::model::{
    decode_tokens, decoding, digit_char, digit_val, encoding, fault, is_digit_char,
    lemma_encoding_nonempty, lemma_encoding_snoc1, lemma_encoding_snoc2, lemma_find_space_at,
    pair_token, prepend_bytes, split_spaces, suffix_chars, suffix_of, suffix_val,
    terminal_token, token_result, token_shape_ok, trailing_digits, word_index, word_of,
    DecodeErrorKind, DecodeFault,
};

verus! {

/// An error from decoding a phrase: which rule was broken, and the token at
/// which decoding stopped.
#[derive(Debug)]
pub struct DecodeError {
    /// Which rule the token broke.
    pub kind: DecodeErrorKind,
    /// The text of the offending token.
    pub token: String,
}

impl View for DecodeError {
    type V = DecodeFault;

    open spec fn view(&self) -> DecodeFault {
        DecodeFault { kind: self.kind, token: self.token@ }
    }
}

/// Relies on `String`'s `FromIterator<char>` impl: collecting characters
/// builds the string of exactly those characters, in order.
#[verifier::external_body]
fn chars_to_string(v: &Vec<char>) -> (r: String)
    ensures
        r@ == v@,
{
    v.iter().collect()
}

/// The characters of `s`, as a vector.
fn chars_of(s: &str) -> (r: Vec<char>)
    ensures
        r@ == s@,
{
    let n = s.unicode_len();
    let mut r: Vec<char> = Vec::new();
    let mut j: usize = 0;
    while j < n
        invariant
            n == s@.len(),
            j <= n,
            r@ == s@.take(j as int),
        decreases n - j,
    {
        r.push(s.get_char(j));
        proof {
            assert(s@.take(j + 1) =~= s@.take(j as int).push(s@[j as int]));
        }
        j += 1;
    }
    proof {
        assert(s@.take(n as int) =~= s@);
    }
    r
}

/// Appends the characters of `s` to `acc`.
fn push_str_chars(acc: &mut Vec<char>, s: &str)
    ensures
        final(acc)@ == old(acc)@ + s@,
{
    let n = s.unicode_len();
    proof {
        assert(acc@ + s@.take(0) =~= acc@);
    }
    let mut j: usize = 0;
    while j < n
        invariant
            n == s@.len(),
            j <= n,
            acc@ == old(acc)@ + s@.take(j as int),
        decreases n - j,
    {
        acc.push(s.get_char(j));
        proof {
            assert(old(acc)@ + s@.take(j + 1) =~= (old(acc)@ + s@.take(j as int)).push(
                s@[j as int],
            ));
        }
        j += 1;
    }
    proof {
        assert(s@.take(n as int) =~= s@);
    }
}

/// The character for the decimal digit `d`.
fn char_of_digit(d: u8) -> (r: char)
    requires
        d <= 9,
    ensures
        r == digit_char(d as int),
{
    match d {
        0 => '0',
        1 => '1',
        2 => '2',
        3 => '3',
        4 => '4',
        5 => '5',
        6 => '6',
        7 => '7',
        8 => '8',
        _ => '9',
    }
}

/// Appends the decimal text of `n` to `acc`: one digit below ten, two
/// digits otherwise.
fn push_suffix(acc: &mut Vec<char>, n: u8)
    requires
        n < 100,
    ensures
        final(acc)@ == old(acc)@ + suffix_chars(n as int),
{
    if n < 10 {
        acc.push(char_of_digit(n));
        proof {
            assert(old(acc)@ + suffix_chars(n as int) =~= old(acc)@.push(digit_char(n as int)));
        }
    } else {
        acc.push(char_of_digit(n / 10));
        acc.push(char_of_digit(n % 10));
        proof {
            assert(old(acc)@ + suffix_chars(n as int) =~= old(acc)@.push(
                digit_char(n as int / 10),
            ).push(digit_char(n as int % 10)));
        }
    }
}

/// binary_to_phrase converts binary data to a phrase: one dictionary word
/// with a suffix in `[0, 63]` per byte pair, then, if a byte is left over,
/// one word among the first 256 with the literal suffix `64`.
pub fn binary_to_phrase(data: &[u8]) -> (r: String)
    ensures
        r@ == encoding(data@),
{
    let n = data.len();
    let mut acc: Vec<char> = Vec::new();
    let mut i: usize = 0;
    while i + 1 < n
        invariant
            n == data@.len(),
            i <= n,
            i % 2 == 0,
            acc@ == encoding(data@.take(i as int)),
        decreases n - i,
    {
        let x = data[i];
        let y = data[i + 1];
        let wi = (x as u16) * 4 + (y / 64) as u16;
        let word = dictionary_word(wi as usize);
        let ghost b = data@.take(i as int);
        let ghost sep_taken = acc.len() > 0;
        if acc.len() > 0 {
            acc.push(' ');
        }
        push_str_chars(&mut acc, word);
        push_suffix(&mut acc, y % 64);
        proof {
            if b.len() > 0 {
                lemma_encoding_nonempty(b);
            }
            assert(sep_taken <==> b.len() > 0);
            lemma_encoding_snoc2(b, x, y);
            assert(data@.take(i + 2) =~= b.push(x).push(y));
            assert(wi as int == word_index(x, y));
            if b.len() == 0 {
                assert(acc@ =~= encoding(b) + Seq::<char>::empty() + pair_token(x, y));
            } else {
                assert(acc@ =~= encoding(b) + seq![' '] + pair_token(x, y));
            }
        }
        i += 2;
    }
    if i < n {
        let x = data[i];
        let word = dictionary_word(x as usize);
        let ghost b = data@.take(i as int);
        let ghost sep_taken = acc.len() > 0;
        if acc.len() > 0 {
            acc.push(' ');
        }
        push_str_chars(&mut acc, word);
        acc.push('6');
        acc.push('4');
        proof {
            if b.len() > 0 {
                lemma_encoding_nonempty(b);
            }
            assert(sep_taken <==> b.len() > 0);
            lemma_encoding_snoc1(b, x);
            assert(data@.take(i + 1) =~= b.push(x));
            assert(data@.take(n as int) =~= data@);
            if b.len() == 0 {
                assert(acc@ =~= encoding(b) + Seq::<char>::empty() + terminal_token(x));
            } else {
                assert(acc@ =~= encoding(b) + seq![' '] + terminal_token(x));
            }
        }
    } else {
        proof {
            assert(data@.take(i as int) =~= data@);
        }
    }
    chars_to_string(&acc)
}

/// Builds the error of the given kind at token `t`.
fn make_error(kind: DecodeErrorKind, t: &Vec<char>) -> (r: DecodeError)
    ensures
        r@ == fault(kind, t@),
{
    DecodeError { kind, token: chars_to_string(t) }
}

/// Splits `p` on single spaces, keeping token order; consecutive spaces
/// yield empty tokens.
fn split_vec(p: &Vec<char>) -> (r: Vec<Vec<char>>)
    ensures
        r.deep_view() == split_spaces(p@),
{
    let n = p.len();
    let mut out: Vec<Vec<char>> = Vec::new();
    let mut start: usize = 0;
    proof {
        assert(p@.skip(0) =~= p@);
        assert(out.deep_view() + split_spaces(p@) =~= split_spaces(p@));
    }
    loop
        invariant_except_break
            start <= n,
            n == p@.len(),
            split_spaces(p@) == out.deep_view() + split_spaces(p@.skip(start as int)),
        ensures
            out.deep_view() == split_spaces(p@),
        decreases n - start,
    {
        let ghost out0 = out.deep_view();
        let mut j: usize = start;
        while j < n && p[j] != ' '
            invariant
                start <= j <= n,
                n == p@.len(),
                forall|m: int| start <= m < j ==> p@[m] != ' ',
            decreases n - j,
        {
            j += 1;
        }
        let mut tok: Vec<char> = Vec::new();
        let mut m: usize = start;
        while m < j
            invariant
                start <= m <= j <= n,
                n == p@.len(),
                tok@ == p@.subrange(start as int, m as int),
            decreases j - m,
        {
            tok.push(p[m]);
            proof {
                assert(p@.subrange(start as int, m + 1) =~= p@.subrange(
                    start as int,
                    m as int,
                ).push(p@[m as int]));
            }
            m += 1;
        }
        let ghost rest = p@.skip(start as int);
        proof {
            assert forall|q: int| 0 <= q < j - start implies rest[q] != ' ' by {
                assert(rest[q] == p@[start + q]);
            }
            if j < n {
                assert(rest[j - start] == p@[j as int]);
            }
            lemma_find_space_at(rest, j - start);
            assert(tok@ =~= rest.take(j - start));
            assert(tok.deep_view() =~= tok@);
        }
        out.push(tok);
        proof {
            assert(out.deep_view() =~= out0.push(tok@));
        }
        if j == n {
            proof {
                assert(tok@ =~= rest);
                assert(split_spaces(rest) == seq![rest]);
                assert(out0 + seq![rest] =~= out.deep_view());
            }
            break;
        }
        proof {
            assert(rest.skip(j - start + 1) =~= p@.skip(j + 1));
            assert(split_spaces(rest) == seq![tok@] + split_spaces(p@.skip(j + 1)));
            assert(out0 + (seq![tok@] + split_spaces(p@.skip(j + 1))) =~= out.deep_view()
                + split_spaces(p@.skip(j + 1)));
        }
        start = j + 1;
    }
    out
}

/// The numeric value of a digit character.
fn digit_of_char(c: char) -> (r: u8)
    requires
        is_digit_char(c),
    ensures
        r as int == digit_val(c),
        r <= 9,
{
    (c as u32 - 48) as u8
}

/// Reads one token: its byte or byte pair and whether it was terminal, or
/// the error it raises. Validation mirrors `token_result`: shape first,
/// then the word, then the terminal index or the suffix value.
fn process_token(t: &Vec<char>) -> (r: Result<(Vec<u8>, bool), DecodeError>)
    ensures
        (match r {
            Ok((v, terminal)) => token_result(t@) == Ok::<(Seq<u8>, bool), DecodeFault>(
                (v@, terminal),
            ),
            Err(e) => token_result(t@) == Err::<(Seq<u8>, bool), DecodeFault>(e@),
        }),
{
    let n = t.len();
    // Find the maximal run of digits at the end of the token.
    let mut j: usize = n;
    proof {
        assert(t@.take(n as int) =~= t@);
    }
    while j > 0 && '0' <= t[j - 1] && t[j - 1] <= '9'
        invariant
            j <= n,
            n == t@.len(),
            trailing_digits(t@) == n - j + trailing_digits(t@.take(j as int)),
        decreases j,
    {
        proof {
            assert(t@.take(j as int).drop_last() =~= t@.take(j - 1));
            assert(t@.take(j as int).last() == t@[j - 1]);
        }
        j -= 1;
    }
    proof {
        if j > 0 {
            assert(t@.take(j as int).last() == t@[j - 1]);
        }
        assert(trailing_digits(t@.take(j as int)) == 0);
        assert(trailing_digits(t@) == n - j);
    }
    let td = n - j;
    if td < 1 || td > 2 {
        proof {
            assert(!token_shape_ok(t@));
        }
        return Err(make_error(DecodeErrorKind::MalformedWord, t));
    }
    // No digit may stand before the suffix.
    let mut i: usize = 0;
    while i < j
        invariant
            i <= j <= n,
            n == t@.len(),
            td == n - j,
            1 <= td <= 2,
            trailing_digits(t@) == td,
            forall|m: int| 0 <= m < i ==> !is_digit_char(t@[m]),
        decreases j - i,
    {
        let c = t[i];
        if '0' <= c && c <= '9' {
            proof {
                assert(is_digit_char(t@[i as int]));
                assert(!token_shape_ok(t@));
            }
            return Err(make_error(DecodeErrorKind::MalformedWord, t));
        }
        i += 1;
    }
    proof {
        assert(token_shape_ok(t@));
    }
    // Split off the word part.
    let mut word: Vec<char> = Vec::new();
    let mut m: usize = 0;
    while m < j
        invariant
            m <= j <= n,
            n == t@.len(),
            word@ == t@.take(m as int),
        decreases j - m,
    {
        word.push(t[m]);
        proof {
            assert(t@.take(m + 1) =~= t@.take(m as int).push(t@[m as int]));
        }
        m += 1;
    }
    proof {
        assert(word@ == word_of(t@));
    }
    if j < UNIQUE_PREFIX_LEN {
        return Err(make_error(DecodeErrorKind::MalformedWord, t));
    }
    // Is this the terminal suffix "64"?
    let terminal = td == 2 && t[n - 2] == '6' && t[n - 1] == '4';
    proof {
        if td == 2 {
            assert(suffix_of(t@) =~= seq![t@[n - 2], t@[n - 1]]);
            assert(seq![t@[n - 2], t@[n - 1]][0] == t@[n - 2]);
            assert(seq![t@[n - 2], t@[n - 1]][1] == t@[n - 1]);
            assert(seq!['6', '4'][0] == '6' && seq!['6', '4'][1] == '4');
        } else {
            assert(suffix_of(t@).len() == 1);
        }
        assert(terminal <==> suffix_of(t@) == seq!['6', '4']);
    }
    match dict_index(&word) {
        Err(LookupError::WordTooShort) => Err(make_error(DecodeErrorKind::MalformedWord, t)),
        Err(LookupError::WordNotFound) => Err(make_error(DecodeErrorKind::WordNotFound, t)),
        Ok(idx) => {
            if terminal {
                if idx > 255 {
                    return Err(make_error(DecodeErrorKind::TerminalWordOutOfRange, t));
                }
                let mut v: Vec<u8> = Vec::new();
                v.push(idx as u8);
                proof {
                    assert(v@ =~= seq![idx as u8]);
                }
                Ok((v, true))
            } else {
                proof {
                    assert(is_digit_char(t@[n - 1]));
                    if td == 2 {
                        assert(trailing_digits(t@.drop_last()) == 1);
                        assert(t@.drop_last().last() == t@[n - 2]);
                        assert(is_digit_char(t@[n - 2]));
                    }
                }
                let s: u16 = if td == 1 {
                    digit_of_char(t[n - 1]) as u16
                } else {
                    10 * (digit_of_char(t[n - 2]) as u16) + (digit_of_char(t[n - 1]) as u16)
                };
                proof {
                    assert(s as int == suffix_val(t@));
                }
                if s > 64 {
                    return Err(make_error(DecodeErrorKind::SuffixOutOfRange, t));
                }
                proof {
                    if s == 64 {
                        assert(td == 2);
                        assert(digit_val(t@[n - 2]) == 6 && digit_val(t@[n - 1]) == 4);
                        assert(t@[n - 2] as int == '6' as int && t@[n - 1] as int == '4' as int);
                        assert(t@[n - 2] == '6' && t@[n - 1] == '4');
                        assert(false);
                    }
                }
                let bits: u16 = idx * 64 + s;
                let mut v: Vec<u8> = Vec::new();
                v.push((bits / 256) as u8);
                v.push((bits % 256) as u8);
                proof {
                    assert(bits as int == idx as int * 64 + suffix_val(t@));
                    assert(v@ =~= seq![
                        ((idx as int * 64 + suffix_val(t@)) / 256) as u8,
                        ((idx as int * 64 + suffix_val(t@)) % 256) as u8,
                    ]);
                }
                Ok((v, false))
            }
        },
    }
}

/// phrase_to_binary is the inverse of binary_to_phrase: it validates a
/// phrase token by token and reads the bytes back, reporting the first
/// offending token on failure.
pub fn phrase_to_binary(phrase: &str) -> (r: Result<Vec<u8>, DecodeError>)
    ensures
        (match r {
            Ok(v) => decoding(phrase@) == Ok::<Seq<u8>, DecodeFault>(v@),
            Err(e) => decoding(phrase@) == Err::<Seq<u8>, DecodeFault>(e@),
        }),
{
    if phrase.is_empty() {
        let v: Vec<u8> = Vec::new();
        proof {
            assert(v@ =~= Seq::<u8>::empty());
        }
        return Ok(v);
    }
    let cs = chars_of(phrase);
    let tokens = split_vec(&cs);
    let ghost ts = tokens.deep_view();
    let nt = tokens.len();
    let mut acc: Vec<u8> = Vec::new();
    let mut k: usize = 0;
    proof {
        assert(ts.skip(0) =~= ts);
        assert(decode_tokens(ts) == prepend_bytes(acc@, decode_tokens(ts.skip(0))));
    }
    while k < nt
        invariant
            nt == tokens.len(),
            k <= nt,
            ts == tokens.deep_view(),
            decoding(phrase@) == decode_tokens(ts),
            decode_tokens(ts) == prepend_bytes(acc@, decode_tokens(ts.skip(k as int))),
        decreases nt - k,
    {
        let tok = &tokens[k];
        let ghost rest = ts.skip(k as int);
        proof {
            assert(tok.deep_view() =~= tok@);
            assert(tok@ == ts[k as int]);
            assert(rest.len() == nt - k);
            assert(rest[0] == ts[k as int]);
            assert(rest.drop_first() =~= ts.skip(k + 1));
        }
        match process_token(tok) {
            Err(e) => {
                proof {
                    assert(decode_tokens(rest) == Err::<Seq<u8>, DecodeFault>(e@));
                }
                return Err(e);
            },
            Ok((bs, terminal)) => {
                if terminal && k + 1 < nt {
                    proof {
                        assert(decode_tokens(rest) == Err::<Seq<u8>, DecodeFault>(
                            fault(DecodeErrorKind::MisplacedTerminal, ts[k as int]),
                        ));
                    }
                    return Err(make_error(DecodeErrorKind::MisplacedTerminal, tok));
                }
                let ghost acc0 = acc@;
                let ghost bsv = bs@;
                let mut bs = bs;
                acc.append(&mut bs);
                proof {
                    if terminal {
                        assert(rest.len() == 1);
                        assert(decode_tokens(rest) == Ok::<Seq<u8>, DecodeFault>(bsv));
                        assert(ts.skip(k + 1) =~= Seq::<Seq<char>>::empty());
                        assert(acc0 + bsv + Seq::<u8>::empty() =~= acc0 + bsv);
                    } else {
                        match decode_tokens(ts.skip(k + 1)) {
                            Ok(r2) => {
                                assert(acc0 + (bsv + r2) =~= (acc0 + bsv) + r2);
                            },
                            Err(e2) => {},
                        }
                    }
                }
                k += 1;
            },
        }
    }
    proof {
        assert(ts.skip(nt as int) =~= Seq::<Seq<char>>::empty());
        assert(acc@ + Seq::<u8>::empty() =~= acc@);
    }
    Ok(acc)
}

} // verus!
