//! The vocabulary index: the ordered word list, and the lookup from a word
//! back to its place in the list.

use crate::bits::VOCABULARY_SIZE;
use crate::text::{split, split_str};
use vstd::hash_map::StringHashMap;
use vstd::prelude::*;

verus! {

/// The reverse lookup that belongs to the word list `v`: every word of the
/// list, mapped to the last index at which it stands.
///
/// In a list without repeated words this is the inverse of indexing. Where a
/// word is repeated, the later place wins.
pub open spec fn reverse_index(v: Seq<Seq<char>>) -> Map<Seq<char>, u32> {
    Map::new(|w: Seq<char>| v.contains(w), |w: Seq<char>| v.index_of_last(w).unwrap() as u32)
}

/// A vocabulary as it is meant to be: 4096 words, no two of them alike.
pub open spec fn valid_vocabulary(v: Seq<Seq<char>>) -> bool {
    v.len() == VOCABULARY_SIZE && v.no_duplicates()
}

/// The vocabulary that a text asset holds: its first 4096 lines.
pub open spec fn vocabulary_of(text: Seq<char>) -> Seq<Seq<char>> {
    split(text, '\n').take(VOCABULARY_SIZE as int)
}

/// A place that holds `w` and has no `w` behind it is the last place of `w`.
pub proof fn lemma_last_index(v: Seq<Seq<char>>, w: Seq<char>, i: int)
    requires
        0 <= i < v.len(),
        v[i] == w,
        forall|j: int| i < j < v.len() ==> v[j] != w,
    ensures
        v.contains(w),
        v.index_of_last(w) == Some(i),
{
    v.index_of_last_ensures(w);
}

/// In a list without repeated words each word is found at its own place.
pub proof fn lemma_distinct_index(v: Seq<Seq<char>>, i: int)
    requires
        v.no_duplicates(),
        0 <= i < v.len() <= u32::MAX,
    ensures
        reverse_index(v).contains_key(v[i]),
        reverse_index(v)[v[i]] == i,
{
    lemma_last_index(v, v[i], i);
}

/// The reverse lookup has one entry for each different word of the list: as
/// many entries as the list has words exactly when no word is repeated.
pub proof fn lemma_reverse_index_len(v: Seq<Seq<char>>)
    ensures
        reverse_index(v).dom().finite(),
        reverse_index(v).len() == v.to_set().len(),
        reverse_index(v).len() <= v.len(),
        reverse_index(v).len() == v.len() <==> v.no_duplicates(),
{
    broadcast use vstd::seq_lib::seq_to_set_is_finite;

    assert(reverse_index(v).dom() =~= v.to_set());
    v.lemma_cardinality_of_set();
    if v.no_duplicates() {
        v.unique_seq_to_set();
    }
    if v.to_set().len() == v.len() {
        v.lemma_no_dup_set_cardinality();
    }
}

/// Appending a word to the list enters it in the reverse lookup under the
/// new index, in place of any earlier entry for the same word.
proof fn lemma_reverse_index_push(v: Seq<Seq<char>>, w: Seq<char>)
    requires
        v.len() < u32::MAX,
    ensures
        reverse_index(v.push(w)) == reverse_index(v).insert(w, v.len() as u32),
{
    let longer = v.push(w);
    let left = reverse_index(longer);
    let right = reverse_index(v).insert(w, v.len() as u32);
    assert forall|x: Seq<char>| left.contains_key(x) <==> right.contains_key(x) by {
        if longer.contains(x) {
            let i = choose|i: int| 0 <= i < longer.len() && longer[i] == x;
            if i < v.len() {
                assert(v[i] == x);
            }
        }
        if v.contains(x) {
            let i = choose|i: int| 0 <= i < v.len() && v[i] == x;
            assert(longer[i] == x);
        }
        if x == w {
            assert(longer[v.len() as int] == x);
        }
    }
    assert forall|x: Seq<char>| left.contains_key(x) implies left[x] == right[x] by {
        if x == w {
            lemma_last_index(longer, x, v.len() as int);
        } else {
            v.index_of_last_ensures(x);
            let i = v.index_of_last(x).unwrap();
            assert(longer[i] == x);
            assert forall|j: int| i < j < longer.len() implies longer[j] != x by {
                if j < v.len() {
                    assert(longer[j] == v[j]);
                }
            }
            lemma_last_index(longer, x, i);
        }
    }
    assert(left =~= right);
}

/// A vocabulary of exactly 4096 words with both of its lookups.
///
/// The view of an index is its word list, in order. The reverse lookup is
/// kept consistent with the list at all times: it is [`reverse_index`] of the
/// view.
pub struct Words {
    forward: Vec<String>,
    reverse: StringHashMap<u32>,
}

impl View for Words {
    type V = Seq<Seq<char>>;

    closed spec fn view(&self) -> Seq<Seq<char>> {
        self.forward.deep_view()
    }
}

impl Words {
    #[verifier::type_invariant]
    spec fn well_formed(self) -> bool {
        &&& self.forward.len() == VOCABULARY_SIZE
        &&& self.reverse@ == reverse_index(self.forward.deep_view())
    }

    /// Builds the index from a text asset of one word per line.
    ///
    /// The first 4096 lines become the vocabulary; lines beyond them are
    /// left out. A text with fewer lines yields no index.
    pub fn new(text: &str) -> (r: Option<Words>)
        ensures
            r is Some <==> split(text@, '\n').len() >= VOCABULARY_SIZE,
            r matches Some(words) ==> words@ == vocabulary_of(text@) && words@.len()
                == VOCABULARY_SIZE,
    {
        let mut forward = split_str(text, '\n');
        if forward.len() < VOCABULARY_SIZE {
            return None;
        }
        forward.truncate(VOCABULARY_SIZE);
        assert(forward.deep_view() =~= vocabulary_of(text@));
        let mut reverse: StringHashMap<u32> = StringHashMap::new();
        let mut i: usize = 0;
        assert(reverse@ =~= reverse_index(forward.deep_view().take(0)));
        while i < VOCABULARY_SIZE
            invariant
                i <= VOCABULARY_SIZE,
                forward.len() == VOCABULARY_SIZE,
                reverse@ == reverse_index(forward.deep_view().take(i as int)),
            decreases VOCABULARY_SIZE - i,
        {
            let word = forward[i].clone();
            proof {
                let seen = forward.deep_view().take(i as int);
                lemma_reverse_index_push(seen, word@);
                assert(seen.push(word@) =~= forward.deep_view().take(i + 1));
            }
            reverse.insert(word, i as u32);
            i += 1;
        }
        assert(forward.deep_view().take(i as int) =~= forward.deep_view());
        Some(Words { forward, reverse })
    }

    /// Forward lookup: the word at `index`.
    pub fn word_at(&self, index: usize) -> (word: &str)
        requires
            index < VOCABULARY_SIZE,
        ensures
            self@.len() == VOCABULARY_SIZE,
            word@ == self@[index as int],
    {
        proof {
            use_type_invariant(self);
        }
        self.forward[index].as_str()
    }

    /// Reverse lookup: the index of `word`, if the vocabulary holds it.
    pub fn index_of(&self, word: &str) -> (r: Option<u32>)
        ensures
            r == reverse_index(self@).get(word@),
            r is Some <==> self@.contains(word@),
            r matches Some(i) ==> i < VOCABULARY_SIZE && self@[i as int] == word@,
    {
        proof {
            use_type_invariant(self);
            self@.index_of_last_ensures(word@);
        }
        match self.reverse.get(word) {
            Some(i) => Some(*i),
            None => None,
        }
    }

    /// Number of words in the forward list: always 4096.
    pub fn forward_len(&self) -> (n: usize)
        ensures
            n == self@.len(),
            n == VOCABULARY_SIZE,
    {
        proof {
            use_type_invariant(self);
        }
        self.forward.len()
    }

    /// Number of entries in the reverse lookup: the number of different
    /// words, which is 4096 exactly when no word is repeated.
    pub fn reverse_len(&self) -> (n: usize)
        ensures
            n == reverse_index(self@).len(),
            n == self@.to_set().len(),
            n <= VOCABULARY_SIZE,
            n == VOCABULARY_SIZE <==> self@.no_duplicates(),
    {
        proof {
            use_type_invariant(self);
            lemma_reverse_index_len(self@);
        }
        self.reverse.len()
    }
}

} // verus!
