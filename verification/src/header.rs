//! Deriving the CSV column set from the accumulated records: the keys of
//! the first record, in order, with the literal identifier keys left out.

use vstd::prelude::*;

use crate::record::{keys_unique, Rows};

verus! {

/// The column names derived from a field list: every key in order,
/// except the two literal identifier spellings `"id"` and `"id "`.
pub open spec fn header_of(fields: Seq<(Seq<char>, Seq<char>)>) -> Seq<Seq<char>>
    decreases fields.len(),
{
    if fields.len() == 0 {
        Seq::empty()
    } else {
        let prev = header_of(fields.drop_last());
        let k = fields.last().0;
        if k == "id"@ || k == "id "@ {
            prev
        } else {
            prev.push(k)
        }
    }
}

/// The header excludes the identifier: no derived column name is one of
/// the two literal identifier spellings.
pub proof fn lemma_header_excludes_id(fields: Seq<(Seq<char>, Seq<char>)>)
    ensures
        forall|i: int| 0 <= i < header_of(fields).len() ==> #[trigger] header_of(fields)[i]
            != "id"@ && header_of(fields)[i] != "id "@,
    decreases fields.len(),
{
    if fields.len() > 0 {
        lemma_header_excludes_id(fields.drop_last());
        let prev = header_of(fields.drop_last());
        let h = header_of(fields);
        assert forall|i: int| 0 <= i < h.len() implies h[i] != "id"@ && h[i] != "id "@ by {
            if i < prev.len() {
                assert(h[i] == prev[i]);
            } else {
                assert(h[i] == fields.last().0);
            }
        }
    }
}

/// Every derived column name is a key of the fields it was derived
/// from.
proof fn lemma_header_names_are_keys(fields: Seq<(Seq<char>, Seq<char>)>)
    ensures
        forall|i: int| 0 <= i < header_of(fields).len() ==> exists|k: int|
            0 <= k < fields.len() && fields[k].0 == #[trigger] header_of(fields)[i],
    decreases fields.len(),
{
    if fields.len() > 0 {
        let head = fields.drop_last();
        lemma_header_names_are_keys(head);
        let prev = header_of(head);
        let h = header_of(fields);
        assert forall|i: int| 0 <= i < h.len() implies exists|k: int|
            0 <= k < fields.len() && fields[k].0 == #[trigger] h[i] by {
            if i < prev.len() {
                assert(h[i] == prev[i]);
                let k = choose|k: int| 0 <= k < head.len() && head[k].0 == prev[i];
                assert(fields[k].0 == h[i]);
            } else {
                assert(h[i] == fields.last().0);
                assert(fields[fields.len() - 1].0 == h[i]);
            }
        }
    }
}

/// On a record whose keys are pairwise distinct — as every record the
/// accumulator builds is — the derived header holds no duplicate
/// column name.
pub proof fn lemma_header_no_duplicates(fields: Seq<(Seq<char>, Seq<char>)>)
    requires
        keys_unique(fields),
    ensures
        forall|i: int, j: int| 0 <= i < j < header_of(fields).len() ==> #[trigger] header_of(
            fields,
        )[i] != #[trigger] header_of(fields)[j],
    decreases fields.len(),
{
    if fields.len() > 0 {
        let head = fields.drop_last();
        assert(forall|i: int| 0 <= i < head.len() ==> head[i] == fields[i]);
        lemma_header_no_duplicates(head);
        lemma_header_names_are_keys(head);
        let prev = header_of(head);
        let h = header_of(fields);
        assert forall|i: int, j: int| 0 <= i < j < h.len() implies #[trigger] h[i]
            != #[trigger] h[j] by {
            if j < prev.len() {
                assert(h[i] == prev[i] && h[j] == prev[j]);
            } else {
                // the last key was pushed: it differs from every key of
                // the earlier fields, and every earlier name is one
                assert(h[j] == fields.last().0);
                assert(h[i] == prev[i]);
                let k = choose|k: int| 0 <= k < head.len() && head[k].0 == prev[i];
                assert(fields[k].0 == prev[i]);
                assert(fields[k].0 != fields[fields.len() - 1].0);
            }
        }
    }
}

/// Derives the header from the first record's fields, excluding the
/// identifier keys. Fails when fewer than two records were accumulated.
pub fn create_header(rows: &Vec<Rows>) -> (r: Result<Vec<String>, &'static str>)
    ensures
        rows@.len() < 2 ==> (r matches Err(e) && e@ == "Could find enough lines"@),
        rows@.len() >= 2 ==> (r matches Ok(h) && h.deep_view() == header_of(rows@[0]@.fields)),
{
    if rows.len() < 2 {
        return Err("Could find enough lines");
    }
    let first = &rows[0];
    let ghost fields = first.data.deep_view();
    let id_key = String::from_str("id");
    let id_key_sp = String::from_str("id ");
    let mut header: Vec<String> = Vec::new();
    let mut i: usize = 0;
    while i < first.data.len()
        invariant
            i <= first.data@.len(),
            fields == first.data.deep_view(),
            fields.len() == first.data@.len(),
            id_key@ == "id"@,
            id_key_sp@ == "id "@,
            header.deep_view() == header_of(fields.take(i as int)),
        decreases first.data@.len() - i,
    {
        let ghost prev = header.deep_view();
        proof {
            assert(fields.take(i + 1).drop_last() =~= fields.take(i as int));
            assert(fields.take(i + 1).last() == fields[i as int]);
            assert(fields[i as int].0 == first.data@[i as int].0@);
        }
        let entry = &first.data[i];
        if !(entry.0 == id_key) && !(entry.0 == id_key_sp) {
            header.push(entry.0.clone());
            proof {
                assert(header.deep_view() =~= prev.push(fields[i as int].0));
            }
        }
        i = i + 1;
    }
    proof {
        assert(fields.take(first.data@.len() as int) =~= fields);
    }
    Ok(header)
}

} // verus!
