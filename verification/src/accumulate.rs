//! Walking the input lines in order and building the sequence of records:
//! a marker line opens a new record, a `key: value` line feeds the record
//! opened most recently, and every other line is dropped.

use vstd::prelude::*;

use crate::parse::{digits_value, get_id};
use crate::record::{spec_add_line, RecModel, Rows};

verus! {

/// A marker line: its first character is an asterisk. An empty line is
/// never a marker.
pub open spec fn is_marker_line(s: Seq<char>) -> bool {
    s.len() > 0 && s.first() == '*'
}

/// The identifier a marker line carries: its digits concatenated left to
/// right, reduced modulo 2^16.
pub open spec fn marker_id(s: Seq<char>) -> u16 {
    (digits_value(s) % 0x10000) as u16
}

/// The records an input accumulates to. A marker line appends a fresh
/// record with the marker's identifier; any other line feeds the last
/// record, if one exists, and is dropped otherwise.
pub open spec fn accumulate(lines: Seq<Seq<char>>) -> Seq<RecModel>
    decreases lines.len(),
{
    if lines.len() == 0 {
        Seq::empty()
    } else {
        let prev = accumulate(lines.drop_last());
        let line = lines.last();
        if is_marker_line(line) {
            prev.push(RecModel { id: marker_id(line), fields: Seq::empty() })
        } else if prev.len() > 0 {
            prev.update(prev.len() - 1, spec_add_line(prev.last(), line))
        } else {
            prev
        }
    }
}

/// The records of a record vector, as their models.
pub open spec fn views_of(rows: Seq<Rows>) -> Seq<RecModel> {
    rows.map_values(|r: Rows| r@)
}

/// An input without a single marker line accumulates to no records at
/// all: every line is dropped.
pub proof fn lemma_no_markers_no_records(lines: Seq<Seq<char>>)
    requires
        forall|i: int| 0 <= i < lines.len() ==> !is_marker_line(lines[i]),
    ensures
        accumulate(lines) == Seq::<RecModel>::empty(),
    decreases lines.len(),
{
    if lines.len() > 0 {
        let t = lines.drop_last();
        assert forall|i: int| 0 <= i < t.len() implies !is_marker_line(t[i]) by {
            assert(t[i] == lines[i]);
        }
        lemma_no_markers_no_records(t);
    }
}

/// Walks the input lines in order and builds the records, as
/// `accumulate` describes: markers open records, `key: value` lines fill
/// the most recent one, and lines before the first marker are dropped.
pub fn parse_file(lines: Vec<&str>) -> (r: Result<Vec<Rows>, &'static str>)
    ensures
        r matches Ok(rows) && rows.deep_view() == accumulate(lines.deep_view()) && (forall|k: int|
            0 <= k < rows@.len() ==> rows@[k].wf()),
{
    let ghost lmodel = lines.deep_view();
    let mut rows: Vec<Rows> = Vec::new();
    let mut i: usize = 0;
    while i < lines.len()
        invariant
            i <= lines@.len(),
            lmodel == lines.deep_view(),
            lmodel.len() == lines@.len(),
            rows.deep_view() == accumulate(lmodel.take(i as int)),
            forall|k: int| 0 <= k < rows@.len() ==> rows@[k].wf(),
        decreases lines@.len() - i,
    {
        let line = lines[i];
        let ghost prev = rows.deep_view();
        proof {
            assert(lmodel.take(i + 1).drop_last() =~= lmodel.take(i as int));
            assert(lmodel.take(i + 1).last() == lmodel[i as int]);
            assert(lmodel[i as int] == line@);
        }
        let n = line.unicode_len();
        if n > 0 && line.get_char(0) == '*' {
            let id = get_id(line);
            rows.push(Rows::new(id));
            proof {
                assert(is_marker_line(line@));
                assert(rows.deep_view() =~= prev.push(
                    RecModel { id: marker_id(line@), fields: Seq::empty() },
                ));
            }
        } else {
            proof {
                assert(!is_marker_line(line@));
            }
            if rows.len() > 0 {
                let mut last = rows.pop().unwrap();
                proof {
                    assert(last@ == prev.last());
                    assert(rows.deep_view() =~= prev.drop_last());
                }
                last.add_line(String::from_str(line));
                rows.push(last);
                proof {
                    assert(rows.deep_view() =~= prev.update(
                        prev.len() - 1,
                        spec_add_line(prev.last(), line@),
                    ));
                }
            }
        }
        i = i + 1;
    }
    proof {
        assert(lmodel.take(lines@.len() as int) =~= lmodel);
    }
    Ok(rows)
}

} // verus!
