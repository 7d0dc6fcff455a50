//! The word dictionary and its resolver.
//!
//! The dictionary itself is an external collaborator: a fixed, ordered table
//! of 1024 distinct words in which every word is uniquely determined by its
//! first [`UNIQUE_PREFIX_LEN`] characters. Lookup is by prefix equality, so
//! users may abbreviate words down to that length.

use vstd::prelude::*;

verus! {

/// Number of leading characters guaranteed to identify a dictionary word
/// uniquely; mirrors `dictionary_1024::DICTIONARY_UNIQUE_PREFIX`.
pub const UNIQUE_PREFIX_LEN: usize = 3;

/// The word stored at index `i` of the dictionary, as its characters.
pub uninterp spec fn dict_word(i: int) -> Seq<char>;

/// Well-formedness of the dictionary, as its source and documentation
/// declare it: 1024 words of at least [`UNIQUE_PREFIX_LEN`] lowercase ascii
/// letters each, no two sharing their first [`UNIQUE_PREFIX_LEN`] characters.
pub open spec fn dict_ok() -> bool {
    &&& forall|i: int| 0 <= i < 1024 ==> (#[trigger] dict_word(i)).len() >= UNIQUE_PREFIX_LEN
    &&& forall|i: int, k: int|
        0 <= i < 1024 && 0 <= k < dict_word(i).len()
            ==> 'a' <= #[trigger] dict_word(i)[k] <= 'z'
    &&& forall|i: int, j: int|
        0 <= i < 1024 && 0 <= j < 1024 && i != j
            ==> #[trigger] dict_word(i).take(UNIQUE_PREFIX_LEN as int)
                != #[trigger] dict_word(j).take(UNIQUE_PREFIX_LEN as int)
}

/// What a dictionary access yields: the word at index `i`, handed out of a
/// table that is well formed as a whole.
pub open spec fn obtained_dict_word(w: Seq<char>, i: int) -> bool {
    w == dict_word(i) && dict_ok()
}

/// Relies on `dictionary_1024::DICTIONARY`: a fixed `[&str; 1024]` table.
/// Its entries are 3 to 6 lowercase ascii letters each, and the crate
/// declares (`DICTIONARY_UNIQUE_PREFIX`) that no two entries share their
/// first 3 characters; both facts are visible in the table's source.
#[verifier::external_body]
pub(crate) fn dictionary_word(i: usize) -> (r: &'static str)
    requires
        i < 1024,
    ensures
        r@ == dict_word(i as int),
        obtained_dict_word(r@, i as int),
{
    dictionary_1024::DICTIONARY[i]
}

/// Whether the word at dictionary index `i` matches `w` on the first
/// [`UNIQUE_PREFIX_LEN`] characters.
pub open spec fn prefix_matches(w: Seq<char>, i: int) -> bool {
    dict_word(i).take(UNIQUE_PREFIX_LEN as int) == w.take(UNIQUE_PREFIX_LEN as int)
}

/// The first dictionary index at or after `i` whose word matches `w` by
/// prefix, if any.
pub open spec fn first_match(w: Seq<char>, i: int) -> Option<int>
    decreases 1024 - i,
{
    if i < 0 || i >= 1024 {
        None
    } else if prefix_matches(w, i) {
        Some(i)
    } else {
        first_match(w, i + 1)
    }
}

/// How a dictionary lookup can fail: the word is too short to carry a unique
/// prefix, or no entry shares its prefix.
#[derive(Clone, Copy, Debug, PartialEq, Eq, Structural)]
pub enum LookupError {
    WordTooShort,
    WordNotFound,
}

/// What resolving a word against the dictionary yields: the index of the
/// first entry (in dictionary order) that shares the word's first
/// [`UNIQUE_PREFIX_LEN`] characters.
pub open spec fn resolve_word(w: Seq<char>) -> Result<u16, LookupError> {
    if w.len() < UNIQUE_PREFIX_LEN {
        Err(LookupError::WordTooShort)
    } else {
        match first_match(w, 0) {
            Some(i) => Ok(i as u16),
            None => Err(LookupError::WordNotFound),
        }
    }
}

/// `first_match(w, i)` returns exactly the least matching index at or after
/// `i`, and `None` exactly when no index in `[i, 1024)` matches.
pub proof fn lemma_first_match_inv(w: Seq<char>, i: int)
    requires
        0 <= i <= 1024,
    ensures
        match first_match(w, i) {
            Some(k) => i <= k < 1024 && prefix_matches(w, k) && (forall|j: int|
                i <= j < k ==> !prefix_matches(w, j)),
            None => forall|j: int| i <= j < 1024 ==> !prefix_matches(w, j),
        },
    decreases 1024 - i,
{
    if i < 1024 && !prefix_matches(w, i) {
        lemma_first_match_inv(w, i + 1);
    }
}

/// If two words agree on their first [`UNIQUE_PREFIX_LEN`] characters, they
/// match the same dictionary entries, so they resolve alike.
pub proof fn lemma_first_match_congruent(w1: Seq<char>, w2: Seq<char>, i: int)
    requires
        w1.take(UNIQUE_PREFIX_LEN as int) == w2.take(UNIQUE_PREFIX_LEN as int),
    ensures
        first_match(w1, i) == first_match(w2, i),
    decreases 1024 - i,
{
    if 0 <= i < 1024 && !prefix_matches(w1, i) {
        lemma_first_match_congruent(w1, w2, i + 1);
    }
}

/// dict_index returns the index of the word in the dictionary, scanning in
/// dictionary order and comparing only the unique prefix. An error reports
/// a word too short to hold the prefix, or a prefix that no entry carries.
pub(crate) fn dict_index(word: &Vec<char>) -> (r: Result<u16, LookupError>)
    ensures
        r == resolve_word(word@),
        r matches Ok(idx) ==> idx < 1024,
{
    if word.len() < UNIQUE_PREFIX_LEN {
        return Err(LookupError::WordTooShort);
    }
    proof {
        lemma_first_match_inv(word@, 0);
    }
    let mut i: usize = 0;
    while i < 1024
        invariant
            i <= 1024,
            word@.len() >= UNIQUE_PREFIX_LEN,
            forall|j: int| 0 <= j < i ==> !prefix_matches(word@, j),
        decreases 1024 - i,
    {
        let entry = dictionary_word(i);
        if entry.get_char(0) == word[0] && entry.get_char(1) == word[1] && entry.get_char(2)
            == word[2] {
            proof {
                assert(dict_word(i as int).take(UNIQUE_PREFIX_LEN as int) =~= word@.take(
                    UNIQUE_PREFIX_LEN as int,
                ));
                assert(prefix_matches(word@, i as int));
                lemma_first_match_inv(word@, 0);
            }
            return Ok(i as u16);
        }
        proof {
            if prefix_matches(word@, i as int) {
                assert(dict_word(i as int).take(UNIQUE_PREFIX_LEN as int)[0] == word@.take(
                    UNIQUE_PREFIX_LEN as int,
                )[0]);
                assert(dict_word(i as int).take(UNIQUE_PREFIX_LEN as int)[1] == word@.take(
                    UNIQUE_PREFIX_LEN as int,
                )[1]);
                assert(dict_word(i as int).take(UNIQUE_PREFIX_LEN as int)[2] == word@.take(
                    UNIQUE_PREFIX_LEN as int,
                )[2]);
            }
        }
        i += 1;
    }
    proof {
        lemma_first_match_inv(word@, 0);
    }
    Err(LookupError::WordNotFound)
}

} // verus!
