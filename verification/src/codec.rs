//! Encoding an identifier as a triple of words, and decoding it again.

use crate::bits::{
    assemble, assembled, fragment_a, fragment_b, fragment_c, fragments, lemma_assembled_fragments,
    lemma_fragment_bounds, lemma_fragments_assembled, lemma_high_bits, LAST_FRAGMENT_SIZE,
    VOCABULARY_SIZE,
};
use crate::text::{
    free_of, join, lemma_join_split, lemma_split_join, lemma_split_len, lemma_split_len_concat,
    lemma_split_single, split, split_str,
};
use crate::words::{lemma_distinct_index, reverse_index, valid_vocabulary, Words};
use vstd::prelude::*;

verus! {

/// Why a text could not be decoded.
#[derive(Debug, Clone, Copy, PartialEq, Eq, Structural)]
pub enum Error {
    /// The text is not three words of the vocabulary joined by hyphens.
    DecodeError,
}

/// The character that stands between the words of a triple.
pub const SEPARATOR: char = '-';

/// Three words joined by hyphens.
pub open spec fn triple(first: Seq<char>, second: Seq<char>, third: Seq<char>) -> Seq<char> {
    first + seq![SEPARATOR] + second + seq![SEPARATOR] + third
}

/// The name of `n` over the vocabulary `v`: the words that the three
/// fragments of `n` select, joined by hyphens.
pub open spec fn encode_spec(v: Seq<Seq<char>>, n: u32) -> Seq<char> {
    triple(v[fragment_a(n) as int], v[fragment_b(n) as int], v[fragment_c(n) as int])
}

/// What `s` decodes to over the vocabulary `v`.
///
/// A text decodes exactly when it consists of three hyphen-separated tokens
/// that are all words of `v`; the value is then assembled from the indices of
/// the three words. Any other text is an error.
pub open spec fn decode_spec(v: Seq<Seq<char>>, s: Seq<char>) -> Result<u32, Error> {
    let tokens = split(s, SEPARATOR);
    if tokens.len() == 3 && v.contains(tokens[0]) && v.contains(tokens[1]) && v.contains(
        tokens[2],
    ) {
        let index = reverse_index(v);
        Ok(assembled(index[tokens[0]], index[tokens[1]], index[tokens[2]]))
    } else {
        Err(Error::DecodeError)
    }
}

/// A triple is the join of its three words.
pub proof fn lemma_triple_is_join(first: Seq<char>, second: Seq<char>, third: Seq<char>)
    ensures
        triple(first, second, third) == join(seq![first, second, third], SEPARATOR),
{
    let all = seq![first, second, third];
    let two = seq![first, second];
    let one = seq![first];
    assert(all.drop_last() =~= two);
    assert(two.drop_last() =~= one);
    assert(join(one, SEPARATOR) == first);
    assert(join(two, SEPARATOR) =~= first + seq![SEPARATOR] + second);
    assert(join(all, SEPARATOR) =~= triple(first, second, third));
}

/// The first and second word of an encoded triple are drawn from the whole
/// vocabulary, the third only from its first 256 words.
pub proof fn lemma_encode_draws(v: Seq<Seq<char>>, n: u32)
    requires
        v.len() == VOCABULARY_SIZE,
    ensures
        exists|a: int, b: int, c: int|
            0 <= a < VOCABULARY_SIZE && 0 <= b < VOCABULARY_SIZE && 0 <= c < LAST_FRAGMENT_SIZE
                && encode_spec(v, n) == #[trigger] triple(v[a], v[b], v[c]),
{
    lemma_fragment_bounds(n);
    let a = fragment_a(n) as int;
    let b = fragment_b(n) as int;
    let c = fragment_c(n) as int;
    assert(encode_spec(v, n) == triple(v[a], v[b], v[c]));
}

/// Decoding undoes encoding: over a valid vocabulary, every identifier whose
/// three words hold no hyphen decodes from its name to itself.
pub proof fn lemma_decode_encode(v: Seq<Seq<char>>, n: u32)
    requires
        valid_vocabulary(v),
        !v[fragment_a(n) as int].contains(SEPARATOR),
        !v[fragment_b(n) as int].contains(SEPARATOR),
        !v[fragment_c(n) as int].contains(SEPARATOR),
    ensures
        decode_spec(v, encode_spec(v, n)) == Ok::<u32, Error>(n),
{
    lemma_fragment_bounds(n);
    let a = fragment_a(n) as int;
    let b = fragment_b(n) as int;
    let c = fragment_c(n) as int;
    let parts = seq![v[a], v[b], v[c]];
    lemma_triple_is_join(v[a], v[b], v[c]);
    assert(free_of(parts, SEPARATOR));
    lemma_split_join(parts, SEPARATOR);
    lemma_distinct_index(v, a);
    lemma_distinct_index(v, b);
    lemma_distinct_index(v, c);
    lemma_assembled_fragments(n);
}

/// Where one of the three words of an identifier holds a hyphen, its name
/// falls into more than three tokens and does not decode.
pub proof fn lemma_decode_encode_hyphen(v: Seq<Seq<char>>, n: u32)
    requires
        v.len() == VOCABULARY_SIZE,
        v[fragment_a(n) as int].contains(SEPARATOR) || v[fragment_b(n) as int].contains(SEPARATOR)
            || v[fragment_c(n) as int].contains(SEPARATOR),
    ensures
        split(encode_spec(v, n), SEPARATOR).len() > 3,
        decode_spec(v, encode_spec(v, n)) == Err::<u32, Error>(Error::DecodeError),
{
    lemma_fragment_bounds(n);
    let first = v[fragment_a(n) as int];
    let second = v[fragment_b(n) as int];
    let third = v[fragment_c(n) as int];
    let hyphen = seq![SEPARATOR];
    assert(split(hyphen, SEPARATOR).len() == 2) by {
        let empty = Seq::<char>::empty();
        assert(hyphen.drop_last() =~= empty);
        assert(split(empty, SEPARATOR).len() == 1);
        assert(hyphen.last() == SEPARATOR);
    }
    lemma_split_single(first, SEPARATOR);
    lemma_split_single(second, SEPARATOR);
    lemma_split_single(third, SEPARATOR);
    lemma_split_len(first, SEPARATOR);
    lemma_split_len(second, SEPARATOR);
    lemma_split_len(third, SEPARATOR);
    lemma_split_len_concat(first, hyphen, SEPARATOR);
    lemma_split_len_concat(first + hyphen, second, SEPARATOR);
    lemma_split_len_concat(first + hyphen + second, hyphen, SEPARATOR);
    lemma_split_len_concat(first + hyphen + second + hyphen, third, SEPARATOR);
}

/// Encoding undoes decoding: over a valid vocabulary, a text that decodes,
/// and whose third word is one of the first 256, is the name of the
/// identifier it decodes to.
pub proof fn lemma_encode_decode(v: Seq<Seq<char>>, s: Seq<char>)
    requires
        valid_vocabulary(v),
        decode_spec(v, s) is Ok,
        reverse_index(v)[split(s, SEPARATOR)[2]] < LAST_FRAGMENT_SIZE,
    ensures
        encode_spec(v, decode_spec(v, s)->Ok_0) == s,
{
    let tokens = split(s, SEPARATOR);
    let index = reverse_index(v);
    v.index_of_last_ensures(tokens[0]);
    v.index_of_last_ensures(tokens[1]);
    v.index_of_last_ensures(tokens[2]);
    lemma_fragments_assembled(index[tokens[0]], index[tokens[1]], index[tokens[2]]);
    lemma_triple_is_join(tokens[0], tokens[1], tokens[2]);
    assert(seq![tokens[0], tokens[1], tokens[2]] =~= tokens);
    lemma_join_split(s, SEPARATOR);
}

/// Two identifiers that differ by a multiple of 2^28 share their second and
/// third word, and their names are equal exactly when the vocabulary holds
/// the same word at both of their first indices, which lie that multiple of
/// 256 apart.
pub proof fn lemma_encode_high_bits(v: Seq<Seq<char>>, n: u32, k: int)
    requires
        v.len() == VOCABULARY_SIZE,
        0 <= n + 0x1000_0000 * k <= u32::MAX,
    ensures
        ({
            let m = (n + 0x1000_0000 * k) as u32;
            &&& fragment_a(m) == fragment_a(n) + 256 * k
            &&& fragment_b(m) == fragment_b(n)
            &&& fragment_c(m) == fragment_c(n)
            &&& encode_spec(v, m) == encode_spec(v, n) <==> v[fragment_a(m) as int]
                == v[fragment_a(n) as int]
        }),
{
    let m = (n + 0x1000_0000 * k) as u32;
    lemma_high_bits(n, k);
    lemma_fragment_bounds(n);
    lemma_fragment_bounds(m);
    let tail = seq![SEPARATOR] + v[fragment_b(n) as int] + seq![SEPARATOR] + v[fragment_c(
        n,
    ) as int];
    let first_n = v[fragment_a(n) as int];
    let first_m = v[fragment_a(m) as int];
    assert(encode_spec(v, n) =~= first_n + tail);
    assert(encode_spec(v, m) =~= first_m + tail);
    if first_n + tail == first_m + tail {
        assert(first_n.len() == first_m.len()) by {
            assert((first_n + tail).len() == (first_m + tail).len());
        }
        assert(first_n =~= first_m) by {
            assert forall|i: int| 0 <= i < first_n.len() implies first_n[i] == first_m[i] by {
                assert((first_n + tail)[i] == first_n[i]);
                assert((first_m + tail)[i] == first_m[i]);
            }
        }
    }
}

/// Over a valid vocabulary, identifiers that differ by a multiple of 2^28
/// other than zero have different names.
pub proof fn lemma_encode_separates_high_bits(v: Seq<Seq<char>>, n: u32, k: int)
    requires
        valid_vocabulary(v),
        k != 0,
        0 <= n + 0x1000_0000 * k <= u32::MAX,
    ensures
        encode_spec(v, (n + 0x1000_0000 * k) as u32) != encode_spec(v, n),
{
    let m = (n + 0x1000_0000 * k) as u32;
    lemma_encode_high_bits(v, n, k);
    lemma_fragment_bounds(n);
    lemma_fragment_bounds(m);
}

/// Encodes an identifier as three words of the vocabulary, joined by hyphens.
pub fn encode(words: &Words, n: &u32) -> (s: String)
    ensures
        s@ == encode_spec(words@, *n),
{
    let (a, b, c) = fragments(*n);
    let mut s = words.word_at(a as usize).to_owned();
    proof {
        reveal_strlit("-");
        assert("-"@ =~= seq![SEPARATOR]);
    }
    s.append("-");
    s.append(words.word_at(b as usize));
    s.append("-");
    s.append(words.word_at(c as usize));
    s
}

/// Looks a token up in the vocabulary.
pub fn find_index(words: &Words, w: &str) -> (r: Result<u32, Error>)
    ensures
        r is Ok <==> words@.contains(w@),
        r matches Ok(i) ==> i == reverse_index(words@)[w@] && i < VOCABULARY_SIZE && words@[i as int]
            == w@,
        r matches Err(e) ==> e == Error::DecodeError,
{
    match words.index_of(w) {
        Some(i) => Ok(i),
        None => Err(Error::DecodeError),
    }
}

/// Decodes a triple of words.
///
/// The text is cut at every hyphen and each token is looked up in the
/// vocabulary. Anything but three known words is a [`Error::DecodeError`].
pub fn decode(words: &Words, w: &str) -> (r: Result<u32, Error>)
    ensures
        r == decode_spec(words@, w@),
{
    let tokens = split_str(w, SEPARATOR);
    let mut indices: Vec<u32> = Vec::new();
    let mut i: usize = 0;
    while i < tokens.len()
        invariant
            i <= tokens.len(),
            indices.len() == i,
            tokens.deep_view() == split(w@, SEPARATOR),
            forall|j: int|
                0 <= j < i ==> words@.contains(#[trigger] tokens.deep_view()[j]) && indices[j]
                    == reverse_index(words@)[tokens.deep_view()[j]],
        decreases tokens.len() - i,
    {
        match find_index(words, tokens[i].as_str()) {
            Ok(index) => indices.push(index),
            Err(e) => {
                assert(!words@.contains(tokens.deep_view()[i as int]));
                return Err(e);
            },
        }
        i += 1;
    }
    if indices.len() != 3 {
        return Err(Error::DecodeError);
    }
    Ok(assemble(indices[0], indices[1], indices[2]))
}

} // verus!
