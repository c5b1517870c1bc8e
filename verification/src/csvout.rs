//! Serializing the records against the derived header into CSV text:
//! one header row, then one row per record, each header's value looked
//! up per record, commas neutralized and missing fields replaced by a
//! single-space placeholder.

use vstd::prelude::*;

use crate::accumulate::views_of;
use crate::chars::{chars_to_string, to_chars};
use crate::record::{lookup, RecModel, Rows};
use crate::split::{avoids, lemma_split_cons, split_on};

verus! {

/// A value with every comma replaced by the two characters pipe and
/// space: the serializer's comma neutralization.
pub open spec fn replace_commas(s: Seq<char>) -> Seq<char>
    decreases s.len(),
{
    if s.len() == 0 {
        Seq::empty()
    } else {
        replace_commas(s.drop_last()) + (if s.last() == ',' {
            seq!['|', ' ']
        } else {
            seq![s.last()]
        })
    }
}

/// The cell a record contributes under a header name: its value with
/// commas neutralized when the field is present, a single space when it
/// is absent.
pub open spec fn cell_of(fields: Seq<(Seq<char>, Seq<char>)>, name: Seq<char>) -> Seq<char> {
    match lookup(fields, name) {
        Some(v) => replace_commas(v),
        None => seq![' '],
    }
}

/// The cells of one record's row, one per header name, in header order.
pub open spec fn row_cells(header: Seq<Seq<char>>, fields: Seq<(Seq<char>, Seq<char>)>) -> Seq<
    Seq<char>,
>
    decreases header.len(),
{
    if header.len() == 0 {
        Seq::empty()
    } else {
        row_cells(header.drop_last(), fields).push(cell_of(fields, header.last()))
    }
}

/// All rows of the output table: the header row first, then one row of
/// cells per record, in record order.
pub open spec fn table_rows(header: Seq<Seq<char>>, recs: Seq<RecModel>) -> Seq<Seq<Seq<char>>>
    decreases recs.len(),
{
    if recs.len() == 0 {
        seq![header]
    } else {
        table_rows(header, recs.drop_last()).push(row_cells(header, recs.last().fields))
    }
}

/// A character the CSV encoding must protect by quoting the field.
pub open spec fn csv_special(c: char) -> bool {
    c == ',' || c == '"' || c == '\n' || c == '\r'
}

/// Whether the CSV encoding wraps the field in quotes.
pub open spec fn csv_needs_quotes(f: Seq<char>) -> bool {
    exists|i: int| 0 <= i < f.len() && csv_special(f[i])
}

/// The field's characters with every quote doubled.
pub open spec fn csv_doubled(f: Seq<char>) -> Seq<char>
    decreases f.len(),
{
    if f.len() == 0 {
        Seq::empty()
    } else {
        csv_doubled(f.drop_last()) + (if f.last() == '"' {
            seq!['"', '"']
        } else {
            seq![f.last()]
        })
    }
}

/// A field as the CSV encoding writes it: wrapped in quotes with inner
/// quotes doubled when it holds a special character, verbatim otherwise.
pub open spec fn csv_field(f: Seq<char>) -> Seq<char> {
    if csv_needs_quotes(f) {
        seq!['"'] + csv_doubled(f) + seq!['"']
    } else {
        f
    }
}

/// A row's encoded fields, joined by commas.
pub open spec fn csv_row_body(cells: Seq<Seq<char>>) -> Seq<char>
    decreases cells.len(),
{
    if cells.len() == 0 {
        Seq::empty()
    } else if cells.len() == 1 {
        csv_field(cells[0])
    } else {
        csv_row_body(cells.drop_last()) + seq![','] + csv_field(cells.last())
    }
}

/// A row as the CSV encoding writes it: its body and a terminating
/// newline; a body that would be empty is written as two adjacent
/// quotes, so that the row stays readable.
pub open spec fn csv_row(cells: Seq<Seq<char>>) -> Seq<char> {
    (if csv_row_body(cells).len() == 0 {
        seq!['"', '"']
    } else {
        csv_row_body(cells)
    }) + seq!['\n']
}

/// The whole CSV text: the rows' encodings, concatenated in order.
pub open spec fn csv_text(rows: Seq<Seq<Seq<char>>>) -> Seq<char>
    decreases rows.len(),
{
    if rows.len() == 0 {
        Seq::empty()
    } else {
        csv_text(rows.drop_last()) + csv_row(rows.last())
    }
}

/// A cell the CSV encoding writes verbatim: no comma, quote, carriage
/// return or line feed in it.
pub open spec fn plain_cell(f: Seq<char>) -> bool {
    forall|i: int| 0 <= i < f.len() ==> !csv_special(f[i])
}

/// Comma neutralization leaves no comma behind.
pub proof fn lemma_replace_commas_no_comma(s: Seq<char>)
    ensures
        avoids(replace_commas(s), ','),
    decreases s.len(),
{
    if s.len() > 0 {
        lemma_replace_commas_no_comma(s.drop_last());
    }
}

/// No emitted record cell carries a comma: a present field has its
/// commas neutralized and an absent one becomes a single space.
pub proof fn lemma_cell_no_comma(fields: Seq<(Seq<char>, Seq<char>)>, name: Seq<char>)
    ensures
        avoids(cell_of(fields, name), ','),
{
    match lookup(fields, name) {
        Some(v) => lemma_replace_commas_no_comma(v),
        None => {},
    }
}

/// The cells joined by a separator, nothing quoted.
pub open spec fn joined(cells: Seq<Seq<char>>, sep: char) -> Seq<char>
    decreases cells.len(),
{
    if cells.len() == 0 {
        Seq::empty()
    } else if cells.len() == 1 {
        cells[0]
    } else {
        joined(cells.drop_last(), sep) + seq![sep] + cells.last()
    }
}

/// Joining two or more cells starts with the first cell and a separator.
proof fn lemma_joined_head(cells: Seq<Seq<char>>, sep: char)
    requires
        cells.len() >= 2,
    ensures
        joined(cells, sep) == cells.first() + seq![sep] + joined(cells.drop_first(), sep),
    decreases cells.len(),
{
    if cells.len() == 2 {
        assert(cells.drop_last().len() == 1);
        assert(cells.drop_last()[0] == cells.first());
        assert(cells.drop_first().len() == 1);
        assert(cells.drop_first()[0] == cells.last());
        assert(joined(cells.drop_last(), sep) == cells.first());
        assert(joined(cells.drop_first(), sep) == cells.last());
        assert(joined(cells, sep) == joined(cells.drop_last(), sep) + seq![sep] + cells.last());
    } else {
        let head = cells.drop_last();
        lemma_joined_head(head, sep);
        assert(head.first() == cells.first());
        assert(head.drop_first() =~= cells.drop_first().drop_last());
        assert(cells.drop_first().last() == cells.last());
        assert(joined(cells, sep) == joined(head, sep) + seq![sep] + cells.last());
        assert((cells.first() + seq![sep] + joined(head.drop_first(), sep)) + seq![sep]
            + cells.last() =~= cells.first() + seq![sep] + (joined(head.drop_first(), sep)
            + seq![sep] + cells.last()));
    }
}

/// A join of cells that all avoid a character other than the separator
/// avoids that character too.
proof fn lemma_joined_avoids(cells: Seq<Seq<char>>, sep: char, c: char)
    requires
        c != sep,
        forall|i: int| 0 <= i < cells.len() ==> avoids(#[trigger] cells[i], c),
    ensures
        avoids(joined(cells, sep), c),
    decreases cells.len(),
{
    if cells.len() >= 2 {
        let head = cells.drop_last();
        assert(forall|i: int| 0 <= i < head.len() ==> head[i] == cells[i]);
        lemma_joined_avoids(head, sep, c);
    }
}

/// Splitting a join on its separator gives the cells back, when no cell
/// holds the separator.
proof fn lemma_split_joined(cells: Seq<Seq<char>>, sep: char)
    requires
        cells.len() >= 1,
        forall|i: int| 0 <= i < cells.len() ==> avoids(#[trigger] cells[i], sep),
    ensures
        split_on(joined(cells, sep), sep) == cells,
    decreases cells.len(),
{
    if cells.len() == 1 {
        assert(joined(cells, sep) == cells[0]);
        assert(split_on(cells[0], sep) =~= cells);
    } else {
        lemma_joined_head(cells, sep);
        let rest = cells.drop_first();
        assert(forall|i: int| 0 <= i < rest.len() ==> rest[i] == cells[i + 1]);
        lemma_split_cons(cells.first(), joined(rest, sep), sep);
        lemma_split_joined(rest, sep);
        assert(seq![cells.first()] + rest =~= cells);
    }
}

/// On plain cells the CSV encoding writes each field verbatim: the row
/// body is exactly the cells joined by commas.
proof fn lemma_row_body_plain(cells: Seq<Seq<char>>)
    requires
        forall|j: int| 0 <= j < cells.len() ==> plain_cell(#[trigger] cells[j]),
    ensures
        csv_row_body(cells) == joined(cells, ','),
    decreases cells.len(),
{
    if cells.len() == 0 {
    } else if cells.len() == 1 {
        assert(!csv_needs_quotes(cells[0]));
    } else {
        let head = cells.drop_last();
        assert(forall|j: int| 0 <= j < head.len() ==> head[j] == cells[j]);
        lemma_row_body_plain(head);
        assert(!csv_needs_quotes(cells.last()));
    }
}

/// The text of one or more rows is the first row's text followed by the
/// text of the rest.
proof fn lemma_csv_text_head(rows: Seq<Seq<Seq<char>>>)
    requires
        rows.len() >= 1,
    ensures
        csv_text(rows) == csv_row(rows.first()) + csv_text(rows.drop_first()),
    decreases rows.len(),
{
    if rows.len() == 1 {
        assert(csv_text(rows) == csv_text(rows.drop_last()) + csv_row(rows.last()));
        assert(rows.drop_last() =~= Seq::<Seq<Seq<char>>>::empty());
        assert(rows.drop_first() =~= Seq::<Seq<Seq<char>>>::empty());
        assert(Seq::<char>::empty() + csv_row(rows.first()) =~= csv_row(rows.first()));
        assert(csv_row(rows.first()) + Seq::<char>::empty() =~= csv_row(rows.first()));
    } else {
        let head = rows.drop_last();
        lemma_csv_text_head(head);
        assert(head.first() == rows.first());
        assert(head.drop_first() =~= rows.drop_first().drop_last());
        assert(rows.drop_first().last() == rows.last());
        assert(csv_text(rows) == csv_text(head) + csv_row(rows.last()));
        assert((csv_row(rows.first()) + csv_text(head.drop_first())) + csv_row(rows.last())
            =~= csv_row(rows.first()) + (csv_text(head.drop_first()) + csv_row(rows.last())));
    }
}

/// Round trip through the emitted text, for plain tables: when every
/// cell of a table is free of commas, quotes and line breaks — as every
/// record cell is once its commas are neutralized — the CSV text splits
/// back into exactly the rows and cells it was built from: one text line
/// per row, and each line's comma-separated fields are that row's cells.
/// The neutralized values come back as emitted; the original commas are
/// not among them.
pub proof fn lemma_csv_round_trip(t: Seq<Seq<Seq<char>>>)
    requires
        forall|i: int, j: int| 0 <= i < t.len() && 0 <= j < t[i].len() ==> plain_cell(
            #[trigger] t[i][j],
        ),
        forall|i: int| 0 <= i < t.len() ==> #[trigger] t[i].len() >= 1,
        forall|i: int| 0 <= i < t.len() ==> !(#[trigger] t[i].len() == 1 && t[i][0].len() == 0),
    ensures
        split_on(csv_text(t), '\n').len() == t.len() + 1,
        split_on(csv_text(t), '\n').last().len() == 0,
        forall|i: int| 0 <= i < t.len() ==> split_on(
            #[trigger] split_on(csv_text(t), '\n')[i],
            ',',
        ) == t[i],
    decreases t.len(),
{
    if t.len() == 0 {
        assert(csv_text(t) == Seq::<char>::empty());
        assert(split_on(csv_text(t), '\n') =~= seq![Seq::<char>::empty()]);
    } else {
        let r0 = t.first();
        let rest = t.drop_first();
        lemma_csv_text_head(t);
        assert(forall|j: int| 0 <= j < r0.len() ==> r0[j] == t[0][j]);
        lemma_row_body_plain(r0);
        let body = csv_row_body(r0);
        assert(body.len() > 0) by {
            if r0.len() == 1 {
                assert(body == joined(r0, ','));
                assert(joined(r0, ',') == r0[0]);
                assert(r0[0].len() > 0);
            } else {
                lemma_joined_head(r0, ',');
            }
        }
        assert(csv_row(r0) == body + seq!['\n']);
        assert(avoids(body, '\n')) by {
            assert(forall|j: int| 0 <= j < r0.len() ==> avoids(#[trigger] r0[j], '\n'));
            lemma_joined_avoids(r0, ',', '\n');
        }
        assert(csv_text(t) =~= body + seq!['\n'] + csv_text(rest));
        lemma_split_cons(body, csv_text(rest), '\n');
        assert(forall|i: int, j: int|
            0 <= i < rest.len() && 0 <= j < rest[i].len() ==> rest[i][j] == t[i + 1][j]);
        assert(forall|i: int| 0 <= i < rest.len() ==> rest[i] == t[i + 1]);
        lemma_csv_round_trip(rest);
        let lines = split_on(csv_text(t), '\n');
        assert(lines == seq![body] + split_on(csv_text(rest), '\n'));
        assert(lines.last() == split_on(csv_text(rest), '\n').last());
        assert forall|i: int| 0 <= i < t.len() implies split_on(#[trigger] lines[i], ',')
            == t[i] by {
            if i == 0 {
                assert(lines[0] == body);
                assert(forall|j: int| 0 <= j < r0.len() ==> avoids(#[trigger] r0[j], ','));
                lemma_split_joined(r0, ',');
            } else {
                assert(lines[i] == split_on(csv_text(rest), '\n')[i - 1]);
            }
        }
    }
}

/// The round trip is idempotent for plain tables: serializing the rows
/// and cells read back out of the emitted text reproduces that text.
pub proof fn lemma_csv_reserialize_idempotent(t: Seq<Seq<Seq<char>>>)
    requires
        forall|i: int, j: int| 0 <= i < t.len() && 0 <= j < t[i].len() ==> plain_cell(
            #[trigger] t[i][j],
        ),
        forall|i: int| 0 <= i < t.len() ==> #[trigger] t[i].len() >= 1,
        forall|i: int| 0 <= i < t.len() ==> !(#[trigger] t[i].len() == 1 && t[i][0].len() == 0),
    ensures
        csv_text(
            split_on(csv_text(t), '\n').take(t.len() as int).map_values(
                |line: Seq<char>| split_on(line, ','),
            ),
        ) == csv_text(t),
{
    lemma_csv_round_trip(t);
    let lines = split_on(csv_text(t), '\n');
    let reparsed = lines.take(t.len() as int).map_values(|line: Seq<char>| split_on(line, ','));
    assert(reparsed =~= t);
}

/// Replaces every comma in the value by a pipe and a space.
pub fn neutralize_commas(s: &String) -> (r: String)
    ensures
        r@ == replace_commas(s@),
{
    let v = to_chars(s.as_str());
    let mut out: Vec<char> = Vec::new();
    let mut i: usize = 0;
    while i < v.len()
        invariant
            i <= v@.len(),
            v@ == s@,
            out@ == replace_commas(s@.take(i as int)),
        decreases v@.len() - i,
    {
        let ghost prev = out@;
        proof {
            assert(s@.take(i + 1).drop_last() =~= s@.take(i as int));
            assert(s@.take(i + 1).last() == s@[i as int]);
        }
        let c = v[i];
        if c == ',' {
            out.push('|');
            out.push(' ');
            proof {
                assert(out@ =~= prev + seq!['|', ' ']);
            }
        } else {
            out.push(c);
            proof {
                assert(out@ =~= prev + seq![c]);
            }
        }
        i = i + 1;
    }
    proof {
        assert(s@.take(v@.len() as int) =~= s@);
    }
    chars_to_string(&out)
}

/// The cell emitted for one record under one header name.
fn render_cell(row: &Rows, name: &String) -> (r: String)
    ensures
        r@ == cell_of(row@.fields, name@),
{
    match row.get(name) {
        Some(v) => neutralize_commas(v),
        None => {
            let sp = String::from_str(" ");
            proof {
                reveal_strlit(" ");
                assert(sp@ =~= seq![' ']);
            }
            sp
        },
    }
}

/// One record's row of cells, in header order.
pub fn render_record(header: &Vec<String>, row: &Rows) -> (r: Vec<String>)
    ensures
        r.deep_view() == row_cells(header.deep_view(), row@.fields),
{
    let ghost hv = header.deep_view();
    let mut out: Vec<String> = Vec::new();
    let mut i: usize = 0;
    while i < header.len()
        invariant
            i <= header@.len(),
            hv == header.deep_view(),
            hv.len() == header@.len(),
            out.deep_view() == row_cells(hv.take(i as int), row@.fields),
        decreases header@.len() - i,
    {
        let ghost prev = out.deep_view();
        proof {
            assert(hv.take(i + 1).drop_last() =~= hv.take(i as int));
            assert(hv.take(i + 1).last() == hv[i as int]);
            assert(hv[i as int] == header@[i as int]@);
        }
        let cell = render_cell(row, &header[i]);
        out.push(cell);
        proof {
            assert(out.deep_view() =~= prev.push(cell_of(row@.fields, hv[i as int])));
        }
        i = i + 1;
    }
    proof {
        assert(hv.take(header@.len() as int) =~= hv);
    }
    out
}

/// A copy of the header row's cells.
fn clone_strings(v: &Vec<String>) -> (r: Vec<String>)
    ensures
        r.deep_view() == v.deep_view(),
{
    let mut out: Vec<String> = Vec::new();
    let mut i: usize = 0;
    while i < v.len()
        invariant
            i <= v@.len(),
            out.deep_view() == v.deep_view().take(i as int),
        decreases v@.len() - i,
    {
        let ghost prev = out.deep_view();
        let s = &v[i];
        let copy = s.clone();
        proof {
            assert(copy@ == v@[i as int]@);
        }
        out.push(copy);
        proof {
            assert(out.deep_view() =~= prev.push(v@[i as int]@));
            assert(prev.push(v@[i as int]@) =~= v.deep_view().take(i + 1));
        }
        i = i + 1;
    }
    proof {
        assert(v.deep_view().take(v@.len() as int) =~= v.deep_view());
    }
    out
}

/// Every row of the output table: the header row, then one row of cells
/// per record, in record order.
pub fn render_rows(header: &Vec<String>, rows: &Vec<Rows>) -> (r: Vec<Vec<String>>)
    ensures
        r.deep_view() == table_rows(header.deep_view(), views_of(rows@)),
{
    let ghost hv = header.deep_view();
    let ghost recs = views_of(rows@);
    let mut out: Vec<Vec<String>> = Vec::new();
    out.push(clone_strings(header));
    proof {
        assert(out.deep_view() =~= seq![hv]);
        assert(recs.take(0) =~= Seq::<RecModel>::empty());
    }
    let mut j: usize = 0;
    while j < rows.len()
        invariant
            j <= rows@.len(),
            hv == header.deep_view(),
            recs == views_of(rows@),
            recs.len() == rows@.len(),
            out.deep_view() == table_rows(hv, recs.take(j as int)),
        decreases rows@.len() - j,
    {
        let ghost prev = out.deep_view();
        proof {
            assert(recs.take(j + 1).drop_last() =~= recs.take(j as int));
            assert(recs.take(j + 1).last() == recs[j as int]);
            assert(recs[j as int] == rows@[j as int]@);
        }
        let row = render_record(header, &rows[j]);
        out.push(row);
        proof {
            assert(out.deep_view() =~= prev.push(row_cells(hv, recs[j as int].fields)));
        }
        j = j + 1;
    }
    proof {
        assert(recs.take(rows@.len() as int) =~= recs);
    }
    out
}

/// All rows hold the same number of cells.
pub open spec fn uniform_rows(t: Seq<Seq<Seq<char>>>) -> bool {
    forall|i: int| 0 <= i < t.len() ==> #[trigger] t[i].len() == t[0].len()
}

/// A row of cells has one cell per header name.
proof fn lemma_row_cells_len(header: Seq<Seq<char>>, fields: Seq<(Seq<char>, Seq<char>)>)
    ensures
        row_cells(header, fields).len() == header.len(),
    decreases header.len(),
{
    if header.len() > 0 {
        lemma_row_cells_len(header.drop_last(), fields);
    }
}

/// The table's rows, addressed by index: the header row first, then the
/// records' rows in order.
proof fn lemma_table_rows_index(header: Seq<Seq<char>>, recs: Seq<RecModel>)
    ensures
        table_rows(header, recs).len() == recs.len() + 1,
        table_rows(header, recs)[0] == header,
        forall|i: int| 1 <= i <= recs.len() ==> #[trigger] table_rows(header, recs)[i]
            == row_cells(header, recs[i - 1].fields),
    decreases recs.len(),
{
    if recs.len() > 0 {
        lemma_table_rows_index(header, recs.drop_last());
        assert(forall|i: int| 0 <= i < recs.len() - 1 ==> recs.drop_last()[i] == recs[i]);
    }
}

/// Relies on `csv::Writer` in its default configuration: each record's
/// fields are joined by commas and the record ends with a newline; a
/// field containing a comma, a quote, a carriage return or a line feed
/// is wrapped in quotes with its inner quotes doubled; a record whose
/// body would otherwise be empty is written as two adjacent quotes.
/// When every record holds the same number of fields the writer cannot
/// fail: its only error on records is the unequal-lengths check, its
/// sink is memory, and its output bytes are valid UTF-8 (the fields'
/// own encodings plus ASCII punctuation), so the text comes back.
#[verifier::external_body]
fn csv_encode(rows: &Vec<Vec<String>>) -> (r: Option<String>)
    ensures
        r matches Some(s) ==> s@ == csv_text(rows.deep_view()),
        uniform_rows(rows.deep_view()) ==> r is Some,
{
    let mut w = csv::Writer::from_writer(Vec::new());
    for row in rows.iter() {
        if w.write_record(row).is_err() {
            return None;
        }
    }
    match w.into_inner() {
        Ok(bytes) => String::from_utf8(bytes).ok(),
        Err(_) => None,
    }
}

/// The CSV text for the derived header and the accumulated records:
/// the header row, then one row per record with each header's value
/// looked up, commas neutralized and absent fields written as a single
/// space. Every row carries one cell per header name, so the encoder
/// cannot fail and the text is always produced.
pub fn render_csv(header: &Vec<String>, rows: &Vec<Rows>) -> (r: String)
    ensures
        r@ == csv_text(table_rows(header.deep_view(), views_of(rows@))),
{
    let all = render_rows(header, rows);
    proof {
        let hv = header.deep_view();
        let recs = views_of(rows@);
        let t = all.deep_view();
        lemma_table_rows_index(hv, recs);
        assert forall|i: int| 0 <= i < t.len() implies #[trigger] t[i].len() == t[0].len() by {
            if i >= 1 {
                lemma_row_cells_len(hv, recs[i - 1].fields);
            }
        }
    }
    match csv_encode(&all) {
        Some(s) => s,
        None => unreached(),
    }
}

} // verus!
