//! Character-level helpers shared by the parsing and serializing stages:
//! whitespace classification, trimming, and conversions between strings
//! and character vectors.

use vstd::prelude::*;

verus! {

/// The characters that trimming removes: the white-space characters
/// of the Unicode `White_Space` property.
pub open spec fn is_space_char(c: char) -> bool {
    let u = c as u32;
    (0x09 <= u && u <= 0x0D) || u == 0x20 || u == 0x85 || u == 0xA0 || u == 0x1680 || (0x2000
        <= u && u <= 0x200A) || u == 0x2028 || u == 0x2029 || u == 0x202F || u == 0x205F || u
        == 0x3000
}

/// Decides whitespace exactly as `is_space_char` describes it.
pub fn is_space(c: char) -> (r: bool)
    ensures
        r == is_space_char(c),
{
    let u = c as u32;
    (0x09 <= u && u <= 0x0D) || u == 0x20 || u == 0x85 || u == 0xA0 || u == 0x1680 || (0x2000
        <= u && u <= 0x200A) || u == 0x2028 || u == 0x2029 || u == 0x202F || u == 0x205F || u
        == 0x3000
}

/// A string with its leading and trailing whitespace removed.
pub open spec fn trim(s: Seq<char>) -> Seq<char>
    decreases s.len(),
{
    if s.len() == 0 {
        s
    } else if is_space_char(s.first()) {
        trim(s.drop_first())
    } else if is_space_char(s.last()) {
        trim(s.drop_last())
    } else {
        s
    }
}

/// `trim` keeps exactly the characters between the first and the last
/// non-whitespace character.
proof fn lemma_trim_subrange(s: Seq<char>, i: int, j: int)
    requires
        0 <= i <= j <= s.len(),
        forall|k: int| 0 <= k < i ==> is_space_char(s[k]),
        forall|k: int| j <= k < s.len() ==> is_space_char(s[k]),
        i < j ==> !is_space_char(s[i]) && !is_space_char(s[j - 1]),
    ensures
        trim(s) == s.subrange(i, j),
    decreases s.len(),
{
    if s.len() == 0 {
        assert(trim(s) == s.subrange(i, j));
    } else if is_space_char(s.first()) {
        let t = s.drop_first();
        assert(i > 0 || i == j) by {
            if i == 0 && i < j {
                assert(!is_space_char(s[0]));
            }
        }
        if i == j {
            // the whole string is whitespace
            assert(forall|k: int| 0 <= k < t.len() ==> is_space_char(t[k])) by {
                assert(forall|k: int| 0 <= k < t.len() ==> t[k] == s[k + 1]);
            }
            lemma_trim_subrange(t, 0, 0);
            assert(trim(s) == s.subrange(i, j));
        } else {
            assert(forall|k: int| 0 <= k < i - 1 ==> t[k] == s[k + 1] && is_space_char(t[k]));
            assert(forall|k: int| j - 1 <= k < t.len() ==> t[k] == s[k + 1] && is_space_char(
                t[k],
            ));
            assert(t[i - 1] == s[i] && t[j - 2] == s[j - 1]);
            lemma_trim_subrange(t, i - 1, j - 1);
            assert(t.subrange(i - 1, j - 1) =~= s.subrange(i, j));
        }
    } else if is_space_char(s.last()) {
        let t = s.drop_last();
        assert(j < s.len() || i == j) by {
            if j == s.len() && i < j {
                assert(!is_space_char(s[j - 1]));
                assert(is_space_char(s.last()));
            }
        }
        if i == j {
            assert(i == 0) by {
                if i > 0 {
                    assert(is_space_char(s[0]));
                    assert(!is_space_char(s.first()));
                }
            }
            assert(forall|k: int| 0 <= k < t.len() ==> t[k] == s[k] && is_space_char(t[k]));
            lemma_trim_subrange(t, 0, 0);
            assert(trim(s) == s.subrange(i, j));
        } else {
            assert(forall|k: int| 0 <= k < i ==> t[k] == s[k] && is_space_char(t[k]));
            assert(forall|k: int| j <= k < t.len() ==> t[k] == s[k] && is_space_char(t[k]));
            lemma_trim_subrange(t, i, j);
            assert(t.subrange(i, j) =~= s.subrange(i, j));
        }
    } else {
        assert(i == 0) by {
            if i > 0 {
                assert(is_space_char(s[0]));
            }
        }
        assert(j == s.len()) by {
            if j < s.len() {
                assert(is_space_char(s[s.len() - 1]));
            }
        }
        assert(trim(s) == s);
        assert(s.subrange(0, s.len() as int) =~= s);
    }
}

/// Removes leading and trailing whitespace from a character vector.
#[verifier::rlimit(80)]
#[verifier::spinoff_prover]
pub fn trim_chars(v: &Vec<char>, from: usize, to: usize) -> (r: Vec<char>)
    requires
        from <= to <= v@.len(),
    ensures
        r@ == trim(v@.subrange(from as int, to as int)),
{
    let ghost s = v@.subrange(from as int, to as int);
    let mut i: usize = from;
    while i < to && is_space(v[i])
        invariant
            from <= i <= to <= v@.len(),
            forall|k: int| from <= k < i ==> is_space_char(v@[k]),
        decreases to - i,
    {
        i = i + 1;
    }
    let mut j: usize = to;
    while j > i && is_space(v[j - 1])
        invariant
            from <= i <= j <= to <= v@.len(),
            forall|k: int| j <= k < to ==> is_space_char(v@[k]),
        decreases j,
    {
        j = j - 1;
    }
    let mut out: Vec<char> = Vec::new();
    let mut k: usize = i;
    while k < j
        invariant
            i <= k <= j <= v@.len(),
            out@ == v@.subrange(i as int, k as int),
        decreases j - k,
    {
        out.push(v[k]);
        assert(out@ =~= v@.subrange(i as int, k + 1));
        k = k + 1;
    }
    proof {
        assert(forall|k: int| 0 <= k < i - from ==> s[k] == v@[k + from] && is_space_char(s[k]));
        assert(forall|k: int| j - from <= k < s.len() ==> s[k] == v@[k + from] && is_space_char(
            s[k],
        ));
        if i < j {
            assert(s[i - from] == v@[i as int] && s[j - from - 1] == v@[j - 1]);
        }
        lemma_trim_subrange(s, i - from, j - from);
        assert(v@.subrange(i as int, j as int) =~= s.subrange(i - from, j - from));
    }
    out
}

/// The characters of a string, in order, as a vector.
pub fn to_chars(s: &str) -> (r: Vec<char>)
    ensures
        r@ == s@,
{
    let n = s.unicode_len();
    let mut v: Vec<char> = Vec::new();
    let mut i: usize = 0;
    while i < n
        invariant
            i <= n,
            n == s@.len(),
            v@ == s@.take(i as int),
        decreases n - i,
    {
        let c = s.get_char(i);
        v.push(c);
        assert(v@ =~= s@.take(i + 1));
        i = i + 1;
    }
    proof {
        assert(s@.take(n as int) =~= s@);
    }
    v
}

/// Relies on `String`'s `FromIterator` implementation: collecting an
/// iterator of characters yields the string of those characters in order.
#[verifier::external_body]
pub fn chars_to_string(v: &Vec<char>) -> (r: String)
    ensures
        r@ == v@,
{
    v.iter().collect()
}

} // verus!
