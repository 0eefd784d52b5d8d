//! Splitting text at a separator character.

use vstd::prelude::*;

verus! {

/// The position of the first `sep` in `s`, or the length of `s` where it holds none.
pub open spec fn first_index(s: Seq<char>, sep: char) -> int
    decreases s.len(),
{
    if s.len() == 0 {
        0
    } else if s[0] == sep {
        0
    } else {
        1 + first_index(s.drop_first(), sep)
    }
}

/// The pieces of `s` between occurrences of `sep`, in order. There is always
/// one piece more than there are separators, so the result is never empty, and
/// a piece is empty where two separators touch or one stands at either end.
pub open spec fn split(s: Seq<char>, sep: char) -> Seq<Seq<char>>
    decreases s.len(),
{
    let i = first_index(s, sep);
    if 0 <= i < s.len() {
        seq![s.take(i)] + split(s.skip(i + 1), sep)
    } else {
        seq![s]
    }
}

/// Whether `sep` occurs nowhere in `s`.
pub open spec fn free_of(s: Seq<char>, sep: char) -> bool {
    forall|k: int| 0 <= k < s.len() ==> s[k] != sep
}

/// The views of a run of string slices.
pub open spec fn piece_views(pieces: Seq<&str>) -> Seq<Seq<char>> {
    Seq::new(pieces.len(), |k: int| pieces[k]@)
}

/// `first_index` is in range, nothing before it is the separator, and the
/// separator stands at it unless it is the length.
pub proof fn lemma_first_index(s: Seq<char>, sep: char)
    ensures
        0 <= first_index(s, sep) <= s.len(),
        free_of(s.take(first_index(s, sep)), sep),
        first_index(s, sep) < s.len() ==> s[first_index(s, sep)] == sep,
        first_index(s, sep) == s.len() <==> free_of(s, sep),
    decreases s.len(),
{
    if s.len() != 0 && s[0] != sep {
        let rest = s.drop_first();
        lemma_first_index(rest, sep);
        let i = first_index(rest, sep);
        let head = s.take(i + 1);
        assert forall|k: int| 0 <= k < head.len() implies head[k] != sep by {
            if k > 0 {
                assert(rest.take(i)[k - 1] == s[k]);
            }
        }
        if free_of(s, sep) {
            assert forall|k: int| 0 <= k < rest.len() implies rest[k] != sep by {
                assert(rest[k] == s[k + 1]);
            }
        }
        if i == rest.len() {
            assert(s.take(i + 1) =~= s);
        }
    }
}

/// No other position is as `first_index` is: in range, with no separator
/// before it, and with the separator at it unless it is the length.
pub proof fn lemma_first_index_is(s: Seq<char>, sep: char, i: int)
    requires
        0 <= i <= s.len(),
        forall|k: int| 0 <= k < i ==> s[k] != sep,
        i < s.len() ==> s[i] == sep,
    ensures
        first_index(s, sep) == i,
{
    lemma_first_index(s, sep);
    let j = first_index(s, sep);
    if j < i {
        assert(s[j] == sep);
    } else if i < j {
        assert(s.take(j)[i] == s[i]);
    }
}

/// Text without the separator is a single piece.
pub proof fn lemma_split_free(s: Seq<char>, sep: char)
    requires
        free_of(s, sep),
    ensures
        split(s, sep) == seq![s],
{
    lemma_first_index(s, sep);
}

/// A piece without the separator, then the separator, then more text: the
/// piece comes first, and the pieces of the rest follow.
pub proof fn lemma_split_joined(head: Seq<char>, sep: char, tail: Seq<char>)
    requires
        free_of(head, sep),
    ensures
        split(head + seq![sep] + tail, sep) == seq![head] + split(tail, sep),
{
    let s = head + seq![sep] + tail;
    let i = head.len() as int;
    assert(s[i] == sep);
    assert forall|k: int| 0 <= k < i implies s[k] != sep by {
        assert(s[k] == head[k]);
    }
    lemma_first_index_is(s, sep, i);
    assert(s.take(i) =~= head);
    assert(s.skip(i + 1) =~= tail);
}

/// The position of the first `sep` in `text`, counted in characters, or the
/// number of characters where there is none.
pub fn find(text: &str, sep: char) -> (at: usize)
    ensures
        at == first_index(text@, sep),
        at <= text@.len(),
{
    let n: usize = text.unicode_len();
    let mut at: usize = 0;
    for c in it: text.chars()
        invariant
            at == it.index(),
            it.seq() == text@,
            n == text@.len(),
            forall|k: int| 0 <= k < at ==> text@[k] != sep,
    {
        if c == sep {
            proof {
                lemma_first_index_is(text@, sep, at as int);
            }
            return at;
        }
        at += 1;
    }
    proof {
        lemma_first_index_is(text@, sep, at as int);
    }
    at
}

/// Cuts `text` at every `sep`.
pub fn split_text<'a>(text: &'a str, sep: char) -> (pieces: Vec<&'a str>)
    ensures
        piece_views(pieces@) == split(text@, sep),
        pieces.len() >= 1,
{
    let n: usize = text.unicode_len();
    let mut pieces: Vec<&'a str> = Vec::new();
    let mut start: usize = 0;
    let mut at: usize = 0;
    proof {
        assert(text@.skip(0) =~= text@);
        assert(piece_views(pieces@) + split(text@, sep) =~= split(text@, sep));
    }
    for c in it: text.chars()
        invariant
            at == it.index(),
            it.seq() == text@,
            n == text@.len(),
            start <= at,
            forall|k: int| start <= k < at ==> text@[k] != sep,
            split(text@, sep) == piece_views(pieces@) + split(text@.skip(start as int), sep),
    {
        if c == sep {
            let piece = text.substring_char(start, at);
            proof {
                let rest = text@.skip(start as int);
                let i = at - start;
                assert forall|k: int| 0 <= k < i implies rest[k] != sep by {
                    assert(rest[k] == text@[start + k]);
                }
                lemma_first_index_is(rest, sep, i);
                assert(rest.take(i) =~= piece@);
                assert(rest.skip(i + 1) =~= text@.skip(at + 1));
                assert(piece_views(pieces@.push(piece)) =~= piece_views(pieces@) + seq![piece@]);
            }
            pieces.push(piece);
            start = at + 1;
        }
        at += 1;
    }
    let last = text.substring_char(start, n);
    proof {
        let rest = text@.skip(start as int);
        assert(rest =~= last@);
        assert forall|k: int| 0 <= k < rest.len() implies rest[k] != sep by {
            assert(rest[k] == text@[start + k]);
        }
        lemma_split_free(rest, sep);
        assert(piece_views(pieces@.push(last)) =~= piece_views(pieces@) + seq![last@]);
    }
    pieces.push(last);
    pieces
}

} // verus!
