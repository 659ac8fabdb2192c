//! Splitting and joining text at a separator character.
//!
//! [`split`] cuts a text at every occurrence of a separator and [`join`]
//! glues pieces back together with the separator between them. The lemmas
//! below show that the two are inverse to each other: `split` yields the one
//! list of separator-free pieces whose `join` is the text.

use vstd::prelude::*;

verus! {

/// The pieces of `s` between the occurrences of `sep`, in order.
///
/// There is always at least one piece; a text with `k` separators has
/// `k + 1` pieces, some of which may be empty.
pub open spec fn split(s: Seq<char>, sep: char) -> Seq<Seq<char>>
    decreases s.len(),
{
    if s.len() == 0 {
        seq![Seq::<char>::empty()]
    } else {
        let before = split(s.drop_last(), sep);
        if s.last() == sep {
            before.push(Seq::<char>::empty())
        } else {
            before.drop_last().push(before.last().push(s.last()))
        }
    }
}

/// The pieces glued together, with `sep` between neighbours.
pub open spec fn join(parts: Seq<Seq<char>>, sep: char) -> Seq<char>
    decreases parts.len(),
{
    if parts.len() == 0 {
        Seq::<char>::empty()
    } else if parts.len() == 1 {
        parts[0]
    } else {
        join(parts.drop_last(), sep).push(sep) + parts.last()
    }
}

/// True when `sep` occurs in none of the pieces.
pub open spec fn free_of(parts: Seq<Seq<char>>, sep: char) -> bool {
    forall|i: int| 0 <= i < parts.len() ==> !(#[trigger] parts[i]).contains(sep)
}

/// A split never comes out empty.
pub proof fn lemma_split_len(s: Seq<char>, sep: char)
    ensures
        split(s, sep).len() >= 1,
    decreases s.len(),
{
    if s.len() > 0 {
        lemma_split_len(s.drop_last(), sep);
    }
}

/// Text without a separator, appended to `s`, only lengthens the last piece.
pub proof fn lemma_split_append(s: Seq<char>, t: Seq<char>, sep: char)
    requires
        !t.contains(sep),
    ensures
        split(s + t, sep) == split(s, sep).drop_last().push(split(s, sep).last() + t),
    decreases t.len(),
{
    let pieces = split(s, sep);
    lemma_split_len(s, sep);
    if t.len() == 0 {
        assert(s + t =~= s);
        assert(pieces.last() + t =~= pieces.last());
        assert(pieces.drop_last().push(pieces.last()) =~= pieces);
    } else {
        let head = t.drop_last();
        assert(t[t.len() - 1] == t.last());
        assert(!head.contains(sep)) by {
            if head.contains(sep) {
                let i = choose|i: int| 0 <= i < head.len() && head[i] == sep;
                assert(t[i] == sep);
            }
        }
        lemma_split_append(s, head, sep);
        assert((s + t).drop_last() =~= s + head);
        assert((s + t).last() == t.last());
        let mid = pieces.drop_last().push(pieces.last() + head);
        assert(mid.drop_last() =~= pieces.drop_last());
        assert((pieces.last() + head).push(t.last()) =~= pieces.last() + t);
    }
}

/// Splitting what `join` made of separator-free pieces gives the pieces back.
pub proof fn lemma_split_join(parts: Seq<Seq<char>>, sep: char)
    requires
        parts.len() >= 1,
        free_of(parts, sep),
    ensures
        split(join(parts, sep), sep) == parts,
    decreases parts.len(),
{
    let empty = Seq::<char>::empty();
    if parts.len() == 1 {
        lemma_split_append(empty, parts[0], sep);
        assert(empty + parts[0] =~= parts[0]);
        assert(split(empty, sep) =~= seq![empty]);
        assert(seq![empty].drop_last().push(empty + parts[0]) =~= parts);
    } else {
        let init = parts.drop_last();
        assert(free_of(init, sep)) by {
            assert forall|i: int| 0 <= i < init.len() implies !(#[trigger] init[i]).contains(
                sep,
            ) by {
                assert(init[i] == parts[i]);
            }
        }
        lemma_split_join(init, sep);
        let glued = join(init, sep).push(sep);
        assert(glued.drop_last() =~= join(init, sep));
        assert(split(glued, sep) == init.push(empty));
        lemma_split_append(glued, parts.last(), sep);
        assert(init.push(empty).drop_last() =~= init);
        assert(empty + parts.last() =~= parts.last());
        assert(init.push(parts.last()) =~= parts);
    }
}

/// The split of a text is the only way to write it as separator-free pieces
/// with the separator between them.
pub proof fn lemma_split_unique(s: Seq<char>, parts: Seq<Seq<char>>, sep: char)
    requires
        parts.len() >= 1,
        free_of(parts, sep),
        join(parts, sep) == s,
    ensures
        split(s, sep) == parts,
{
    lemma_split_join(parts, sep);
}

/// A character appended to the last piece is appended to the joined text.
proof fn lemma_join_push_char(init: Seq<Seq<char>>, last: Seq<char>, c: char, sep: char)
    ensures
        join(init.push(last.push(c)), sep) == join(init.push(last), sep).push(c),
{
    let longer = init.push(last.push(c));
    let shorter = init.push(last);
    if init.len() > 0 {
        assert(longer.drop_last() =~= init);
        assert(shorter.drop_last() =~= init);
        assert(join(init, sep).push(sep) + last.push(c) =~= (join(init, sep).push(sep)
            + last).push(c));
    }
}

/// Joining the pieces of a text gives the text back.
pub proof fn lemma_join_split(s: Seq<char>, sep: char)
    ensures
        join(split(s, sep), sep) == s,
    decreases s.len(),
{
    if s.len() == 0 {
        assert(join(split(s, sep), sep) =~= s);
    } else {
        let before = split(s.drop_last(), sep);
        lemma_split_len(s.drop_last(), sep);
        lemma_join_split(s.drop_last(), sep);
        if s.last() == sep {
            let empty = Seq::<char>::empty();
            assert(before.push(empty).drop_last() =~= before);
            assert(s.drop_last().push(sep) + empty =~= s);
        } else {
            lemma_join_push_char(before.drop_last(), before.last(), s.last(), sep);
            assert(before.drop_last().push(before.last()) =~= before);
            assert(s.drop_last().push(s.last()) =~= s);
        }
    }
}

/// No piece of a split holds the separator.
pub proof fn lemma_split_free(s: Seq<char>, sep: char)
    ensures
        free_of(split(s, sep), sep),
    decreases s.len(),
{
    let pieces = split(s, sep);
    if s.len() == 0 {
        assert forall|i: int| 0 <= i < pieces.len() implies !(#[trigger] pieces[i]).contains(
            sep,
        ) by {
            assert(pieces[i] =~= Seq::<char>::empty());
        }
    } else {
        let before = split(s.drop_last(), sep);
        lemma_split_len(s.drop_last(), sep);
        lemma_split_free(s.drop_last(), sep);
        assert forall|i: int| 0 <= i < pieces.len() implies !(#[trigger] pieces[i]).contains(
            sep,
        ) by {
            if i < before.len() - 1 {
                assert(pieces[i] == before[i]);
            } else if s.last() == sep {
                if i < before.len() {
                    assert(pieces[i] == before[i]);
                }
            } else {
                let grown = before.last().push(s.last());
                assert(pieces[i] == grown);
                if grown.contains(sep) {
                    let j = choose|j: int| 0 <= j < grown.len() && grown[j] == sep;
                    assert(before.last()[j] == sep);
                    assert(before[before.len() - 1].contains(sep));
                }
            }
        }
    }
}

/// A text is a single piece exactly when it holds no separator.
pub proof fn lemma_split_single(s: Seq<char>, sep: char)
    ensures
        split(s, sep).len() == 1 <==> !s.contains(sep),
    decreases s.len(),
{
    if s.len() > 0 {
        let head = s.drop_last();
        lemma_split_single(head, sep);
        lemma_split_len(head, sep);
        if s.last() == sep {
            assert(s[s.len() - 1] == sep);
        } else if head.contains(sep) {
            let i = choose|i: int| 0 <= i < head.len() && head[i] == sep;
            assert(s[i] == sep);
        } else if s.contains(sep) {
            let i = choose|i: int| 0 <= i < s.len() && s[i] == sep;
            assert(head[i] == sep);
        }
    }
}

/// The pieces of two texts written one after the other: the last piece of
/// the first text and the first piece of the second grow together, so one
/// piece fewer than both texts have between them.
pub proof fn lemma_split_len_concat(s: Seq<char>, t: Seq<char>, sep: char)
    ensures
        split(s + t, sep).len() == split(s, sep).len() + split(t, sep).len() - 1,
    decreases t.len(),
{
    if t.len() == 0 {
        assert(s + t =~= s);
    } else {
        lemma_split_len_concat(s, t.drop_last(), sep);
        lemma_split_len(s + t.drop_last(), sep);
        lemma_split_len(t.drop_last(), sep);
        assert((s + t).drop_last() =~= s + t.drop_last());
        assert((s + t).last() == t.last());
    }
}

/// `String::push` of the standard library appends one character to the end
/// of the string and leaves the characters before it as they were.
pub assume_specification[ String::push ](s: &mut String, ch: char)
    ensures
        final(s)@ == old(s)@.push(ch),
;

/// Cuts `s` at every `sep`, as [`split`] describes.
pub fn split_str(s: &str, sep: char) -> (pieces: Vec<String>)
    ensures
        pieces.deep_view() == split(s@, sep),
{
    let mut pieces: Vec<String> = Vec::new();
    let mut current = String::new();
    let ghost mut seen: int = 0;
    for c in it: s.chars()
        invariant
            it.seq() == s@,
            seen == it.index(),
            pieces.deep_view().push(current@) == split(s@.take(seen), sep),
    {
        let ghost before = pieces.deep_view().push(current@);
        proof {
            assert(s@.take(seen + 1).drop_last() =~= s@.take(seen));
            assert(s@.take(seen + 1).last() == c);
            seen = seen + 1;
        }
        if c == sep {
            pieces.push(current);
            current = String::new();
            proof {
                assert(pieces.deep_view() =~= before);
            }
        } else {
            current.push(c);
            proof {
                assert(before.drop_last() =~= pieces.deep_view());
            }
        }
    }
    proof {
        assert(s@.take(seen) =~= s@);
    }
    let ghost before = pieces.deep_view().push(current@);
    pieces.push(current);
    proof {
        assert(pieces.deep_view() =~= before);
    }
    pieces
}

} // verus!
