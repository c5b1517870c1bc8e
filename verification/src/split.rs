//! Splitting a character sequence on a separator character: the parser
//! splits `key: value` lines on colons, and the serializer's round-trip
//! law splits the emitted CSV text on newlines and commas.

use vstd::prelude::*;

verus! {

/// Whether the separator occurs in the sequence.
pub open spec fn has_sep(s: Seq<char>, sep: char) -> bool {
    exists|i: int| 0 <= i < s.len() && s[i] == sep
}

/// Whether the character occurs nowhere in the sequence.
pub open spec fn avoids(s: Seq<char>, c: char) -> bool {
    forall|i: int| 0 <= i < s.len() ==> s[i] != c
}

/// The position of the separator's first occurrence.
pub open spec fn first_of(s: Seq<char>, sep: char) -> int
    decreases s.len(),
{
    if s.len() == 0 {
        0
    } else if s.first() == sep {
        0
    } else {
        1 + first_of(s.drop_first(), sep)
    }
}

/// When the separator occurs, `first_of` names an occurrence with no
/// occurrence before it.
pub proof fn lemma_first_of(s: Seq<char>, sep: char)
    requires
        has_sep(s, sep),
    ensures
        0 <= first_of(s, sep) < s.len(),
        s[first_of(s, sep)] == sep,
        forall|k: int| 0 <= k < first_of(s, sep) ==> s[k] != sep,
    decreases s.len(),
{
    if s.first() == sep {
    } else {
        let t = s.drop_first();
        assert(has_sep(t, sep)) by {
            let w = choose|i: int| 0 <= i < s.len() && s[i] == sep;
            assert(t[w - 1] == s[w]);
        }
        lemma_first_of(t, sep);
        assert forall|k: int| 0 <= k < first_of(s, sep) implies s[k] != sep by {
            if k >= 1 {
                assert(t[k - 1] == s[k]);
                assert(t[k - 1] != sep);
            }
        }
    }
}

/// A position with the separator and none before it is the first one.
pub proof fn lemma_first_of_at(s: Seq<char>, sep: char, i: int)
    requires
        0 <= i < s.len(),
        s[i] == sep,
        forall|k: int| 0 <= k < i ==> s[k] != sep,
    ensures
        has_sep(s, sep),
        first_of(s, sep) == i,
    decreases s.len(),
{
    if i == 0 {
    } else {
        let t = s.drop_first();
        assert(t[i - 1] == s[i]);
        assert(forall|k: int| 0 <= k < i - 1 ==> t[k] == s[k + 1] && t[k] != sep);
        lemma_first_of_at(t, sep, i - 1);
        assert(s.first() != sep);
    }
}

/// The separator-delimited segments of the sequence, in order. A
/// sequence without the separator is one segment; the separators
/// themselves belong to no segment.
pub open spec fn split_on(s: Seq<char>, sep: char) -> Seq<Seq<char>>
    decreases s.len(),
{
    if !has_sep(s, sep) {
        seq![s]
    } else {
        let fc = first_of(s, sep);
        if 0 <= fc < s.len() {
            seq![s.take(fc)] + split_on(s.skip(fc + 1), sep)
        } else {
            // never reached: when the separator occurs, its first
            // occurrence lies inside the sequence
            seq![s]
        }
    }
}

/// Every split has at least one segment.
pub proof fn lemma_split_nonempty(s: Seq<char>, sep: char)
    ensures
        split_on(s, sep).len() >= 1,
{
    if has_sep(s, sep) {
        lemma_first_of(s, sep);
    }
}

/// Splitting takes off the text before the first separator as the first
/// segment and splits the rest.
pub proof fn lemma_split_cons(a: Seq<char>, t: Seq<char>, sep: char)
    requires
        avoids(a, sep),
    ensures
        split_on(a + seq![sep] + t, sep) == seq![a] + split_on(t, sep),
{
    let s = a + seq![sep] + t;
    assert(s[a.len() as int] == sep);
    assert forall|k: int| 0 <= k < a.len() implies s[k] != sep by {
        assert(s[k] == a[k]);
    }
    lemma_first_of_at(s, sep, a.len() as int);
    assert(s.take(a.len() as int) =~= a);
    assert(s.skip(a.len() as int + 1) =~= t);
}

} // verus!
