//! A record of the text dump: the identifier taken from its marker line
//! and the fields gathered from the `key: value` lines that follow it.

use vstd::prelude::*;

use crate::parse::{field_of_line, parse_line};

verus! {

/// The mathematical shape of a record: its identifier and its fields
/// as a sequence of key/value pairs with pairwise distinct keys.
pub ghost struct RecModel {
    pub id: u16,
    pub fields: Seq<(Seq<char>, Seq<char>)>,
}

/// Field lists keep one entry per key.
pub open spec fn keys_unique(fields: Seq<(Seq<char>, Seq<char>)>) -> bool {
    forall|i: int, j: int| 0 <= i < j < fields.len() ==> fields[i].0 != fields[j].0
}

/// Storing a field: the entry whose key matches is replaced in place;
/// a new key is appended at the end.
pub open spec fn upsert(
    fields: Seq<(Seq<char>, Seq<char>)>,
    k: Seq<char>,
    v: Seq<char>,
) -> Seq<(Seq<char>, Seq<char>)>
    decreases fields.len(),
{
    if fields.len() == 0 {
        seq![(k, v)]
    } else if fields.first().0 == k {
        seq![(k, v)] + fields.drop_first()
    } else {
        seq![fields.first()] + upsert(fields.drop_first(), k, v)
    }
}

/// When the key first occurs at position `i`, storing it updates that
/// position and leaves the rest alone.
proof fn lemma_upsert_found(fields: Seq<(Seq<char>, Seq<char>)>, k: Seq<char>, v: Seq<char>, i: int)
    requires
        0 <= i < fields.len(),
        fields[i].0 == k,
        forall|j: int| 0 <= j < i ==> fields[j].0 != k,
    ensures
        upsert(fields, k, v) == fields.update(i, (k, v)),
    decreases fields.len(),
{
    if i == 0 {
        assert(upsert(fields, k, v) =~= fields.update(0, (k, v)));
    } else {
        let t = fields.drop_first();
        assert(t[i - 1].0 == k);
        assert forall|j: int| 0 <= j < i - 1 implies t[j].0 != k by {
            assert(t[j] == fields[j + 1]);
        }
        lemma_upsert_found(t, k, v, i - 1);
        assert(fields.first().0 != k);
        assert(seq![fields.first()] + t.update(i - 1, (k, v)) =~= fields.update(i, (k, v)));
    }
}

/// When the key occurs nowhere, storing it appends a new entry.
proof fn lemma_upsert_absent(fields: Seq<(Seq<char>, Seq<char>)>, k: Seq<char>, v: Seq<char>)
    requires
        forall|j: int| 0 <= j < fields.len() ==> fields[j].0 != k,
    ensures
        upsert(fields, k, v) == fields.push((k, v)),
    decreases fields.len(),
{
    if fields.len() == 0 {
        assert(upsert(fields, k, v) =~= fields.push((k, v)));
    } else {
        let t = fields.drop_first();
        assert forall|j: int| 0 <= j < t.len() implies t[j].0 != k by {
            assert(t[j] == fields[j + 1]);
        }
        lemma_upsert_absent(t, k, v);
        assert(seq![fields.first()] + t.push((k, v)) =~= fields.push((k, v)));
    }
}

/// The value stored under a key: the value of the first entry whose key
/// matches, if any.
pub open spec fn lookup(fields: Seq<(Seq<char>, Seq<char>)>, name: Seq<char>) -> Option<Seq<char>>
    decreases fields.len(),
{
    if fields.len() == 0 {
        None
    } else if fields.first().0 == name {
        Some(fields.first().1)
    } else {
        lookup(fields.drop_first(), name)
    }
}

/// The effect of feeding one line to a record: a `key: value` line stores
/// that field; any other line leaves the record unchanged.
pub open spec fn spec_add_line(m: RecModel, line: Seq<char>) -> RecModel {
    match field_of_line(line) {
        Some(kv) => RecModel { id: m.id, fields: upsert(m.fields, kv.0, kv.1) },
        None => m,
    }
}

/// A record under construction: its identifier and its field map, kept
/// as a vector of key/value pairs with pairwise distinct keys.
pub struct Rows {
    pub id: u16,
    pub data: Vec<(String, String)>,
}

impl View for Rows {
    type V = RecModel;

    open spec fn view(&self) -> RecModel {
        RecModel { id: self.id, fields: self.data.deep_view() }
    }
}

impl DeepView for Rows {
    type V = RecModel;

    open spec fn deep_view(&self) -> RecModel {
        self.view()
    }
}

/// Finds the position of the first entry carrying the given key.
fn find_key(data: &Vec<(String, String)>, key: &String) -> (r: Option<usize>)
    ensures
        match r {
            Some(i) => i < data@.len() && data@[i as int].0@ == key@ && forall|j: int|
                0 <= j < i ==> data@[j].0@ != key@,
            None => forall|j: int| 0 <= j < data@.len() ==> data@[j].0@ != key@,
        },
{
    let mut i: usize = 0;
    while i < data.len()
        invariant
            i <= data@.len(),
            forall|j: int| 0 <= j < i ==> data@[j].0@ != key@,
        decreases data@.len() - i,
    {
        if data[i].0.eq(key) {
            return Some(i);
        }
        i = i + 1;
    }
    None
}

impl Rows {
    /// Pairwise distinct field keys.
    pub open spec fn wf(&self) -> bool {
        keys_unique(self@.fields)
    }

    /// A fresh record with the given identifier and no fields yet.
    pub fn new(id: u16) -> (r: Rows)
        ensures
            r@ == (RecModel { id, fields: Seq::empty() }),
            r.wf(),
    {
        let r = Rows { id, data: Vec::new() };
        proof {
            assert(r.data.deep_view() =~= Seq::<(Seq<char>, Seq<char>)>::empty());
        }
        r
    }

    /// The value this record stores under the given key, if any.
    pub fn get(&self, key: &String) -> (r: Option<&String>)
        ensures
            match lookup(self@.fields, key@) {
                Some(v) => r matches Some(s) && s@ == v,
                None => r is None,
            },
    {
        let ghost fields = self@.fields;
        proof {
            assert(fields.skip(0) =~= fields);
        }
        let mut i: usize = 0;
        while i < self.data.len()
            invariant
                i <= self.data@.len(),
                fields == self@.fields,
                fields.len() == self.data@.len(),
                lookup(fields, key@) == lookup(fields.skip(i as int), key@),
            decreases self.data@.len() - i,
        {
            proof {
                assert(fields.skip(i as int).first() == fields[i as int]);
                assert(fields.skip(i as int).drop_first() =~= fields.skip(i + 1));
                assert(fields[i as int].0 == self.data@[i as int].0@);
            }
            if self.data[i].0 == *key {
                return Some(&self.data[i].1);
            }
            i = i + 1;
        }
        proof {
            assert(fields.skip(fields.len() as int) =~= Seq::<(Seq<char>, Seq<char>)>::empty());
        }
        None
    }

    /// Feeds one line to the record: a `key: value` line stores the field,
    /// overwriting an earlier value under the same key; any other line is
    /// dropped.
    pub fn add_line(&mut self, line: String)
        requires
            old(self).wf(),
        ensures
            final(self).wf(),
            final(self)@ == spec_add_line(old(self)@, line@),
    {
        match parse_line(&line) {
            None => {},
            Some(kv) => {
                let (key, value) = kv;
                let opt = find_key(&self.data, &key);
                let ghost oldfields = self.data.deep_view();
                match opt {
                    Some(i) => {
                        self.data.set(i, (key, value));
                        proof {
                            let f = field_of_line(line@)->Some_0;
                            lemma_upsert_found(oldfields, f.0, f.1, i as int);
                            assert(self.data.deep_view() =~= oldfields.update(
                                i as int,
                                (f.0, f.1),
                            ));
                        }
                    },
                    None => {
                        self.data.push((key, value));
                        proof {
                            let f = field_of_line(line@)->Some_0;
                            lemma_upsert_absent(oldfields, f.0, f.1);
                            assert(self.data.deep_view() =~= oldfields.push((f.0, f.1)));
                        }
                    },
                }
                proof {
                    let newfields = final(self)@.fields;
                    assert forall|i: int, j: int|
                        0 <= i < j < newfields.len() implies newfields[i].0 != newfields[j].0 by {
                        if opt is None && j == newfields.len() - 1 {
                            assert(newfields[i] == oldfields[i]);
                        }
                    }
                }
            },
        }
    }
}

} // verus!
