//! Line-level parsing: extracting the numeric identifier embedded in a
//! marker line, and splitting a `key: value` line into its key and value.

use vstd::prelude::*;
use vstd::arithmetic::div_mod::{lemma_add_mod_noop, lemma_mul_mod_noop_left};

use crate::chars::{is_space, to_chars, trim, trim_chars, chars_to_string};
use crate::split::{first_of, has_sep, lemma_first_of_at, lemma_split_nonempty, split_on};

verus! {

/// A decimal digit character.
pub open spec fn is_digit_char(c: char) -> bool {
    0x30 <= c as u32 <= 0x39
}

/// The numeric value of a digit character.
pub open spec fn digit_val(c: char) -> nat {
    (c as u32 - 0x30) as nat
}

/// The number obtained by concatenating, left to right, every decimal
/// digit that occurs in the line; 0 when the line has no digit.
pub open spec fn digits_value(s: Seq<char>) -> nat
    decreases s.len(),
{
    if s.len() == 0 {
        0
    } else if is_digit_char(s.last()) {
        digits_value(s.drop_last()) * 10 + digit_val(s.last())
    } else {
        digits_value(s.drop_last())
    }
}

/// Extracts the row identifier from a marker line: all digit characters
/// found anywhere in the line, concatenated left to right into a decimal
/// number, reduced modulo 2^16 to fit the identifier's width.
pub fn get_id(line: &str) -> (r: u16)
    ensures
        r == digits_value(line@) % 0x10000,
{
    let v = to_chars(line);
    let mut id: u16 = 0;
    let mut i: usize = 0;
    while i < v.len()
        invariant
            i <= v@.len(),
            v@ == line@,
            id == digits_value(line@.take(i as int)) % 0x10000,
        decreases v@.len() - i,
    {
        let c = v[i];
        let u = c as u32;
        proof {
            assert(line@.take(i + 1).drop_last() =~= line@.take(i as int));
            assert(line@.take(i + 1).last() == line@[i as int]);
        }
        if 0x30 <= u && u <= 0x39 {
            let d: u32 = u - 0x30;
            let wide: u32 = (id as u32) * 10 + d;
            proof {
                let a = digits_value(line@.take(i as int)) as int;
                let m = 0x10000int;
                lemma_mul_mod_noop_left(a, 10, m);
                lemma_add_mod_noop(a * 10, d as int, m);
                lemma_add_mod_noop((a % m) * 10, d as int, m);
                assert((a % m) * 10 % m == a * 10 % m);
                assert(((a % m) * 10 + d) % m == (a * 10 + d) % m);
            }
            id = (wide % 0x10000) as u16;
        }
        i = i + 1;
    }
    proof {
        assert(line@.take(v@.len() as int) =~= line@);
    }
    id
}

/// The colon-delimited segments of the line: the text before the first
/// colon, then the segments of what follows it.
pub open spec fn segments(s: Seq<char>) -> Seq<Seq<char>> {
    split_on(s, ':')
}

/// The value built from the segments after the first colon: each segment
/// trimmed of surrounding whitespace, then all concatenated in order.
pub open spec fn joined_trimmed(segs: Seq<Seq<char>>) -> Seq<char>
    decreases segs.len(),
{
    if segs.len() == 0 {
        Seq::empty()
    } else {
        trim(segs.first()) + joined_trimmed(segs.drop_first())
    }
}

/// What `parse_line` yields: nothing for a line without a colon; otherwise
/// the trimmed text before the first colon as the key, and the remaining
/// segments, each trimmed and then concatenated, as the value.
pub open spec fn field_of_line(s: Seq<char>) -> Option<(Seq<char>, Seq<char>)> {
    if !has_sep(s, ':') {
        None
    } else {
        Some((trim(s.take(first_of(s, ':'))), joined_trimmed(segments(s).drop_first())))
    }
}

/// Finds the first colon at or after `from` in the vector.
fn find_colon(v: &Vec<char>, from: usize) -> (r: Option<usize>)
    requires
        from <= v@.len(),
    ensures
        match r {
            Some(i) => from <= i < v@.len() && v@[i as int] == ':' && forall|k: int|
                from <= k < i ==> v@[k] != ':',
            None => forall|k: int| from <= k < v@.len() ==> v@[k] != ':',
        },
{
    let mut i: usize = from;
    while i < v.len()
        invariant
            from <= i <= v@.len(),
            forall|k: int| from <= k < i ==> v@[k] != ':',
        decreases v@.len() - i,
    {
        if v[i] == ':' {
            return Some(i);
        }
        i = i + 1;
    }
    None
}

/// Builds the value part: the colon-delimited segments of `v` from
/// `start` on, each trimmed, concatenated in order.
fn joined_value(v: &Vec<char>, start: usize) -> (r: Vec<char>)
    requires
        start <= v@.len(),
    ensures
        r@ == joined_trimmed(segments(v@.skip(start as int))),
    decreases v@.len() - start,
{
    let opt = find_colon(v, start);
    match opt {
        None => {
            let seg = trim_chars(v, start, v.len());
            proof {
                let u = v@.skip(start as int);
                assert(!has_sep(u, ':')) by {
                    assert(forall|k: int| 0 <= k < u.len() ==> u[k] == v@[k + start] && u[k]
                        != ':');
                }
                assert(segments(u) == seq![u]);
                assert(joined_trimmed(seq![u]) == trim(u) + joined_trimmed(
                    seq![u].drop_first(),
                ));
                assert(seq![u].drop_first() =~= Seq::<Seq<char>>::empty());
                assert(trim(u) + Seq::<char>::empty() =~= trim(u));
                assert(u =~= v@.subrange(start as int, v@.len() as int));
            }
            seg
        },
        Some(fc) => {
            let n = v.len();
            assert(fc < n);
            let mut seg = trim_chars(v, start, fc);
            let rest = joined_value(v, fc + 1);
            let ghost segview = seg@;
            let mut k: usize = 0;
            while k < rest.len()
                invariant
                    k <= rest@.len(),
                    seg@ == segview + rest@.take(k as int),
                decreases rest@.len() - k,
            {
                seg.push(rest[k]);
                assert(seg@ =~= segview + rest@.take(k + 1));
                k = k + 1;
            }
            proof {
                assert(rest@.take(rest@.len() as int) =~= rest@);
                let u = v@.skip(start as int);
                assert(u[fc - start] == v@[fc as int]);
                assert(forall|k: int| 0 <= k < fc - start ==> u[k] == v@[k + start] && u[k]
                    != ':');
                lemma_first_of_at(u, ':', fc - start);
                assert(u.take(fc - start) =~= v@.subrange(start as int, fc as int));
                assert(u.skip(fc - start + 1) =~= v@.skip(fc + 1));
                assert(segments(u) == seq![u.take(fc - start)] + segments(u.skip(
                    fc - start + 1,
                )));
                let tail = segments(u.skip(fc - start + 1));
                assert((seq![u.take(fc - start)] + tail).first() == u.take(fc - start));
                assert((seq![u.take(fc - start)] + tail).drop_first() =~= tail);
                assert(seg@ =~= trim(u.take(fc - start)) + joined_trimmed(tail));
            }
            seg
        },
    }
}

/// Splits a `key: value` line on its first colon: the key is the text
/// before the colon, trimmed; the value is every remaining colon-delimited
/// segment trimmed individually and concatenated. A line with no colon
/// yields nothing.
pub fn parse_line(line: &String) -> (r: Option<(String, String)>)
    ensures
        match field_of_line(line@) {
            Some(kv) => r matches Some(p) && p.0@ == kv.0 && p.1@ == kv.1,
            None => r is None,
        },
{
    let v = to_chars(line.as_str());
    let opt = find_colon(&v, 0);
    match opt {
        None => {
            proof {
                assert(!has_sep(line@, ':'));
            }
            None
        },
        Some(fc) => {
            let n = v.len();
            assert(fc < n);
            proof {
                lemma_first_of_at(line@, ':', fc as int);
            }
            let key = trim_chars(&v, 0, fc);
            let value = joined_value(&v, fc + 1);
            proof {
                assert(line@.take(fc as int) =~= line@.subrange(0, fc as int));
                lemma_split_nonempty(line@.skip(fc + 1), ':');
                assert(segments(line@) == seq![line@.take(fc as int)] + segments(line@.skip(
                    fc + 1,
                )));
                assert((seq![line@.take(fc as int)] + segments(line@.skip(fc + 1))).drop_first()
                    =~= segments(line@.skip(fc + 1)));
            }
            Some((chars_to_string(&key), chars_to_string(&value)))
        },
    }
}

} // verus!
