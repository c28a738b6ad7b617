//! A CSV codec for the table model, with a proved round-trip.
//!
//! The writer emits a header record followed by one record per row,
//! records terminated by a newline and fields separated by commas. A
//! present cell is always written quoted, with inner quotes doubled, so
//! that a present empty string and an absent cell stay distinct: an
//! absent cell is written as an empty field. The reader also accepts
//! unquoted non-empty fields, so tables written by other producers can
//! be read; a bare carriage return is an ordinary character.

use vstd::prelude::*;
use crate::table::ColView;
use crate::table::Column;
use crate::table::Table;
use crate::table::row_count_v;
use crate::table::table_wf_v;

verus! {

// ---------------------------------------------------------------- writing

/// A quoted field's body: the cell's characters with quotes doubled.
pub open spec fn esc(s: Seq<char>) -> Seq<char>
    decreases s.len(),
{
    if s.len() == 0 {
        Seq::empty()
    } else if s[0] == '"' {
        seq!['"', '"'] + esc(s.drop_first())
    } else {
        seq![s[0]] + esc(s.drop_first())
    }
}

/// One written field: an absent cell is empty, a present cell is quoted.
pub open spec fn enc_field(c: Option<Seq<char>>) -> Seq<char> {
    match c {
        None => Seq::empty(),
        Some(s) => seq!['"'] + esc(s) + seq!['"'],
    }
}

/// One written record: comma-separated fields, closed by a newline.
pub open spec fn enc_record(cells: Seq<Option<Seq<char>>>) -> Seq<char>
    decreases cells.len(),
{
    if cells.len() == 0 {
        seq!['\n']
    } else if cells.len() == 1 {
        enc_field(cells[0]) + seq!['\n']
    } else {
        enc_field(cells[0]) + seq![','] + enc_record(cells.drop_first())
    }
}

/// The written body: one record per row, in order.
pub open spec fn enc_rows(rows: Seq<Seq<Option<Seq<char>>>>) -> Seq<char>
    decreases rows.len(),
{
    if rows.len() == 0 {
        Seq::empty()
    } else {
        enc_record(rows[0]) + enc_rows(rows.drop_first())
    }
}

/// The header record's cells: every column name, present.
pub open spec fn header_cells(t: Seq<ColView>) -> Seq<Option<Seq<char>>> {
    t.map_values(|c: ColView| Some(c.name))
}

/// Row `i` of a table, across its columns.
pub open spec fn row_of(t: Seq<ColView>, i: int) -> Seq<Option<Seq<char>>> {
    Seq::new(t.len(), |j: int| t[j].cells[i])
}

/// All rows of a table, in order.
pub open spec fn rows_of(t: Seq<ColView>) -> Seq<Seq<Option<Seq<char>>>> {
    Seq::new(row_count_v(t), |i: int| row_of(t, i))
}

/// The whole written file: the header record, then every row.
pub open spec fn enc_table(t: Seq<ColView>) -> Seq<char> {
    enc_record(header_cells(t)) + enc_rows(rows_of(t))
}

// ---------------------------------------------------------------- reading

/// A field ends at a comma, a newline, or the end of the input.
pub open spec fn is_sep(c: char) -> bool {
    c == ',' || c == '\n'
}

/// Reads a quoted field's body after its opening quote: a doubled quote
/// stands for one quote, a single quote closes the field, and input that
/// ends before the closing quote is malformed. Yields the field's value
/// and the input after the closing quote.
pub open spec fn parse_quoted(s: Seq<char>) -> Option<(Seq<char>, Seq<char>)>
    decreases s.len(),
{
    if s.len() == 0 {
        None
    } else if s[0] == '"' {
        if s.len() >= 2 && s[1] == '"' {
            match parse_quoted(s.skip(2)) {
                Some(p) => Some((seq!['"'] + p.0, p.1)),
                None => None,
            }
        } else {
            Some((Seq::empty(), s.skip(1)))
        }
    } else {
        match parse_quoted(s.skip(1)) {
            Some(p) => Some((seq![s[0]] + p.0, p.1)),
            None => None,
        }
    }
}

/// Reads an unquoted field: everything up to the next separator.
pub open spec fn scan_plain(s: Seq<char>) -> (Seq<char>, Seq<char>)
    decreases s.len(),
{
    if s.len() == 0 || is_sep(s[0]) {
        (Seq::empty(), s)
    } else {
        let p = scan_plain(s.drop_first());
        (seq![s[0]] + p.0, p.1)
    }
}

/// Reads one field. An empty field is an absent cell; a field opening
/// with a quote is a quoted present cell, and anything between its
/// closing quote and the next separator is malformed; any other field
/// is an unquoted present cell.
pub open spec fn parse_field(s: Seq<char>) -> Option<(Option<Seq<char>>, Seq<char>)> {
    if s.len() == 0 || is_sep(s[0]) {
        Some((None, s))
    } else if s[0] == '"' {
        match parse_quoted(s.skip(1)) {
            Some(p) => if p.1.len() == 0 || is_sep(p.1[0]) {
                Some((Some(p.0), p.1))
            } else {
                None
            },
            None => None,
        }
    } else {
        let p = scan_plain(s);
        Some((Some(p.0), p.1))
    }
}

/// After a quoted field's body, strictly less input is left.
pub proof fn lemma_parse_quoted_len(s: Seq<char>)
    ensures
        match parse_quoted(s) {
            Some(p) => p.1.len() < s.len(),
            None => true,
        },
    decreases s.len(),
{
    if s.len() == 0 {
    } else if s[0] == '"' {
        if s.len() >= 2 && s[1] == '"' {
            lemma_parse_quoted_len(s.skip(2));
        }
    } else {
        lemma_parse_quoted_len(s.skip(1));
    }
}

/// After an unquoted field, no more input is left than before, and what
/// is left opens with a separator or is empty.
pub proof fn lemma_scan_plain_len(s: Seq<char>)
    ensures
        scan_plain(s).1.len() <= s.len(),
        scan_plain(s).1.len() == 0 || is_sep(scan_plain(s).1[0]),
    decreases s.len(),
{
    if s.len() == 0 || is_sep(s[0]) {
    } else {
        lemma_scan_plain_len(s.drop_first());
    }
}

/// After one field, no more input is left than before.
pub proof fn lemma_parse_field_len(s: Seq<char>)
    ensures
        match parse_field(s) {
            Some(p) => p.1.len() <= s.len(),
            None => true,
        },
{
    if s.len() == 0 || is_sep(s[0]) {
    } else if s[0] == '"' {
        lemma_parse_quoted_len(s.skip(1));
    } else {
        lemma_scan_plain_len(s);
    }
}

/// Reads one record: fields separated by commas, closed by a newline.
/// A record without its closing newline is malformed. Yields at least
/// one cell and the input after the newline.
pub open spec fn parse_record(s: Seq<char>) -> Option<(Seq<Option<Seq<char>>>, Seq<char>)>
    decreases s.len(),
    via parse_record_dec
{
    match parse_field(s) {
        None => None,
        Some(p) => {
            if p.1.len() == 0 {
                None
            } else if p.1[0] == '\n' {
                Some((seq![p.0], p.1.skip(1)))
            } else if p.1[0] == ',' {
                match parse_record(p.1.skip(1)) {
                    None => None,
                    Some(q) => Some((seq![p.0] + q.0, q.1)),
                }
            } else {
                None
            }
        },
    }
}

#[via_fn]
proof fn parse_record_dec(s: Seq<char>) {
    lemma_parse_field_len(s);
}

/// After one record, strictly less input is left, and the record has at
/// least one cell.
pub proof fn lemma_parse_record_len(s: Seq<char>)
    ensures
        match parse_record(s) {
            Some(p) => p.1.len() < s.len() && p.0.len() >= 1,
            None => true,
        },
    decreases s.len(),
{
    lemma_parse_field_len(s);
    match parse_field(s) {
        None => {},
        Some(p) => {
            if p.1.len() == 0 {
            } else if p.1[0] == '\n' {
            } else if p.1[0] == ',' {
                lemma_parse_record_len(p.1.skip(1));
            }
        },
    }
}

/// Reads records until the input ends; any malformed record spoils the
/// whole read.
pub open spec fn parse_records(s: Seq<char>) -> Option<Seq<Seq<Option<Seq<char>>>>>
    decreases s.len(),
    via parse_records_dec
{
    if s.len() == 0 {
        Some(Seq::empty())
    } else {
        match parse_record(s) {
            None => None,
            Some(p) => match parse_records(p.1) {
                None => None,
                Some(rs) => Some(seq![p.0] + rs),
            },
        }
    }
}

#[via_fn]
proof fn parse_records_dec(s: Seq<char>) {
    lemma_parse_record_len(s);
}

/// Column names from the header record: an absent header cell names its
/// column with the empty string.
pub open spec fn names_of(hdr: Seq<Option<Seq<char>>>) -> Seq<Seq<char>> {
    hdr.map_values(
        |c: Option<Seq<char>>|
            match c {
                Some(v) => v,
                None => Seq::<char>::empty(),
            },
    )
}

/// What reading a whole file yields: a header record naming the columns,
/// then one record per row, every record of the header's width, turned
/// back into a column-oriented table. Anything else is malformed.
pub open spec fn parse_csv_spec(s: Seq<char>) -> Option<Seq<ColView>> {
    match parse_record(s) {
        None => None,
        Some(h) => {
            let names = names_of(h.0);
            match parse_records(h.1) {
                None => None,
                Some(rows) => if forall|i: int|
                    0 <= i < rows.len() ==> (#[trigger] rows[i]).len() == names.len() {
                    Some(
                        Seq::new(
                            names.len() as nat,
                            |j: int|
                                ColView {
                                    name: names[j],
                                    cells: Seq::new(rows.len() as nat, |i: int| rows[i][j]),
                                },
                        ),
                    )
                } else {
                    None
                },
            }
        },
    }
}

// ------------------------------------------------------------ round trip

/// Reading a quoted body recovers exactly what was escaped, when what
/// follows the closing quote opens with a separator.
proof fn lemma_quoted_of_esc(v: Seq<char>, rest: Seq<char>)
    requires
        rest.len() > 0,
        is_sep(rest[0]),
    ensures
        parse_quoted(esc(v) + seq!['"'] + rest) == Some((v, rest)),
    decreases v.len(),
{
    let s = esc(v) + seq!['"'] + rest;
    if v.len() == 0 {
        assert(s =~= seq!['"'] + rest);
        assert(s[0] == '"');
        assert(s[1] == rest[0]);
        assert(!(s.len() >= 2 && s[1] == '"'));
        assert(s.skip(1) =~= rest);
    } else if v[0] == '"' {
        let d = v.drop_first();
        assert(esc(v) =~= seq!['"', '"'] + esc(d));
        assert(s =~= seq!['"', '"'] + (esc(d) + seq!['"'] + rest));
        assert(s[0] == '"' && s[1] == '"');
        assert(s.len() >= 2);
        assert(s.skip(2) =~= esc(d) + seq!['"'] + rest);
        lemma_quoted_of_esc(d, rest);
        assert(parse_quoted(s.skip(2)) == Some((d, rest)));
        assert(seq!['"'] + d =~= v);
    } else {
        let d = v.drop_first();
        assert(esc(v) =~= seq![v[0]] + esc(d));
        assert(s =~= seq![v[0]] + (esc(d) + seq!['"'] + rest));
        assert(s[0] == v[0]);
        assert(s[0] != '"');
        assert(s.skip(1) =~= esc(d) + seq!['"'] + rest);
        lemma_quoted_of_esc(d, rest);
        assert(parse_quoted(s.skip(1)) == Some((d, rest)));
        assert(seq![v[0]] + d =~= v);
    }
}

/// Reading one field recovers exactly what was written, when what
/// follows the field opens with a separator.
proof fn lemma_field_of_enc(c: Option<Seq<char>>, rest: Seq<char>)
    requires
        rest.len() > 0,
        is_sep(rest[0]),
    ensures
        parse_field(enc_field(c) + rest) == Some((c, rest)),
{
    let s = enc_field(c) + rest;
    match c {
        None => {
            assert(s =~= rest);
        },
        Some(v) => {
            assert(s =~= seq!['"'] + (esc(v) + seq!['"'] + rest));
            assert(s[0] == '"');
            assert(!is_sep(s[0]));
            assert(s.skip(1) =~= esc(v) + seq!['"'] + rest);
            lemma_quoted_of_esc(v, rest);
            assert(parse_quoted(s.skip(1)) == Some((v, rest)));
        },
    }
}

/// Reading one record recovers exactly what was written, whatever
/// follows the record's newline.
proof fn lemma_record_of_enc(cells: Seq<Option<Seq<char>>>, rest: Seq<char>)
    requires
        cells.len() >= 1,
    ensures
        parse_record(enc_record(cells) + rest) == Some((cells, rest)),
    decreases cells.len(),
{
    let s = enc_record(cells) + rest;
    if cells.len() == 1 {
        let r1 = seq!['\n'] + rest;
        assert(s =~= enc_field(cells[0]) + r1);
        assert(r1[0] == '\n');
        lemma_field_of_enc(cells[0], r1);
        assert(parse_field(s) == Some((cells[0], r1)));
        assert(r1.skip(1) =~= rest);
        assert(seq![cells[0]] =~= cells);
    } else {
        let d = cells.drop_first();
        let r1 = seq![','] + (enc_record(d) + rest);
        assert(s =~= enc_field(cells[0]) + r1);
        assert(r1[0] == ',');
        lemma_field_of_enc(cells[0], r1);
        assert(parse_field(s) == Some((cells[0], r1)));
        assert(r1.skip(1) =~= enc_record(d) + rest);
        lemma_record_of_enc(d, rest);
        assert(parse_record(r1.skip(1)) == Some((d, rest)));
        assert(seq![cells[0]] + d =~= cells);
    }
}

/// A written record is never empty.
proof fn lemma_enc_record_len(cells: Seq<Option<Seq<char>>>)
    ensures
        enc_record(cells).len() >= 1,
    decreases cells.len(),
{
    if cells.len() <= 1 {
    } else {
        lemma_enc_record_len(cells.drop_first());
    }
}

/// Reading a written body recovers exactly its rows, when every row has
/// at least one cell.
proof fn lemma_records_of_enc(rows: Seq<Seq<Option<Seq<char>>>>)
    requires
        forall|i: int| 0 <= i < rows.len() ==> (#[trigger] rows[i]).len() >= 1,
    ensures
        parse_records(enc_rows(rows)) == Some(rows),
    decreases rows.len(),
{
    if rows.len() == 0 {
        assert(enc_rows(rows).len() == 0);
    } else {
        let d = rows.drop_first();
        let s = enc_rows(rows);
        assert(s == enc_record(rows[0]) + enc_rows(d));
        lemma_enc_record_len(rows[0]);
        assert(s.len() >= 1);
        lemma_record_of_enc(rows[0], enc_rows(d));
        assert(parse_record(s) == Some((rows[0], enc_rows(d))));
        assert(forall|i: int| 0 <= i < d.len() ==> d[i] == rows[i + 1]);
        lemma_records_of_enc(d);
        assert(seq![rows[0]] + d =~= rows);
    }
}

/// Law: writing a table with at least one column and reading it back
/// yields the same column names, the same row count, and the same cell
/// values, absent cells included.
pub proof fn lemma_csv_round_trip(t: Seq<ColView>)
    requires
        table_wf_v(t),
        t.len() >= 1,
    ensures
        parse_csv_spec(enc_table(t)) == Some(t),
{
    let hdr = header_cells(t);
    let rows = rows_of(t);
    let s = enc_table(t);
    assert(hdr.len() == t.len());
    lemma_record_of_enc(hdr, enc_rows(rows));
    assert(parse_record(s) == Some((hdr, enc_rows(rows))));
    assert forall|i: int| 0 <= i < rows.len() implies (#[trigger] rows[i]).len() >= 1 by {
        assert(rows[i] == row_of(t, i));
    }
    lemma_records_of_enc(rows);
    let names = names_of(hdr);
    assert(names.len() == t.len());
    assert forall|j: int| 0 <= j < t.len() implies names[j] == t[j].name by {
        assert(hdr[j] == Some(t[j].name));
    }
    assert forall|i: int| 0 <= i < rows.len() implies (#[trigger] rows[i]).len() == names.len() by {
        assert(rows[i] == row_of(t, i));
    }
    let out = Seq::new(
        names.len() as nat,
        |j: int|
            ColView { name: names[j], cells: Seq::new(rows.len() as nat, |i: int| rows[i][j]) },
    );
    assert(parse_csv_spec(s) == Some(out));
    assert forall|j: int| 0 <= j < t.len() implies out[j] =~~= t[j] by {
        assert(out[j].name == t[j].name);
        assert(out[j].cells.len() == rows.len());
        assert(t[j].cells.len() == row_count_v(t));
        assert forall|i: int| 0 <= i < rows.len() implies out[j].cells[i] == t[j].cells[i] by {
            assert(rows[i] == row_of(t, i));
            assert(row_of(t, i)[j] == t[j].cells[i]);
        }
        assert(out[j].cells =~= t[j].cells);
    }
    assert(out =~~= t);
}

// ------------------------------------------------------------ the writer

/// Relies on String::push: appends exactly one character.
#[verifier::external_body]
fn push_char(s: &mut String, c: char)
    ensures
        final(s)@ == old(s)@ + seq![c],
{
    s.push(c);
}

/// Writes the quoted body of `s` from character `i` on, quotes doubled.
fn esc_at(s: &str, i: usize) -> (r: String)
    requires
        i <= s@.len(),
    ensures
        r@ == esc(s@.skip(i as int)),
    decreases s@.len() - i,
{
    let n: usize = s.unicode_len();
    if i == n {
        proof {
            assert(s@.skip(i as int) =~= Seq::<char>::empty());
        }
        String::new()
    } else {
        let c = s.get_char(i);
        let rest = esc_at(s, i + 1);
        let mut out = String::new();
        if c == '"' {
            push_char(&mut out, '"');
            push_char(&mut out, '"');
        } else {
            push_char(&mut out, c);
        }
        out.append(rest.as_str());
        proof {
            let v = s@.skip(i as int);
            assert(v[0] == s@[i as int]);
            assert(v.drop_first() =~= s@.skip(i as int + 1));
            if c == '"' {
                assert(out@ =~= seq!['"', '"'] + esc(v.drop_first()));
            } else {
                assert(out@ =~= seq![c] + esc(v.drop_first()));
            }
        }
        out
    }
}

/// Writes one field: an absent cell as nothing, a present cell quoted.
fn enc_field_str(cell: &Option<String>) -> (r: String)
    ensures
        r@ == enc_field(cell.deep_view()),
{
    match cell {
        None => String::new(),
        Some(s) => {
            let mut out = String::new();
            push_char(&mut out, '"');
            let body = esc_at(s.as_str(), 0);
            out.append(body.as_str());
            push_char(&mut out, '"');
            proof {
                assert(s@.skip(0) =~= s@);
                assert(out@ =~= seq!['"'] + esc(s@) + seq!['"']);
            }
            out
        },
    }
}

/// Writes one record from field `j` on, closed by a newline.
fn enc_record_at(cells: &Vec<Option<String>>, j: usize) -> (r: String)
    requires
        j <= cells@.len(),
    ensures
        r@ == enc_record(cells.deep_view().skip(j as int)),
    decreases cells@.len() - j,
{
    let n: usize = cells.len();
    if j == n {
        let mut out = String::new();
        push_char(&mut out, '\n');
        proof {
            assert(cells.deep_view().skip(j as int).len() == 0);
            assert(out@ =~= seq!['\n']);
        }
        out
    } else {
        let mut out = enc_field_str(&cells[j]);
        proof {
            assert(cells.deep_view()[j as int] == cells@[j as int].deep_view());
            let v = cells.deep_view().skip(j as int);
            assert(v[0] == cells.deep_view()[j as int]);
            assert(v.drop_first() =~= cells.deep_view().skip(j as int + 1));
        }
        if j + 1 == n {
            push_char(&mut out, '\n');
        } else {
            push_char(&mut out, ',');
            let rest = enc_record_at(cells, j + 1);
            out.append(rest.as_str());
        }
        out
    }
}

/// Writes the records of all rows from row `i` on.
fn enc_rows_at(table: &Table, i: usize) -> (r: String)
    requires
        table.wf(),
        i <= row_count_v(table@),
    ensures
        r@ == enc_rows(rows_of(table@).skip(i as int)),
    decreases row_count_v(table@) - i,
{
    let nrows: usize = if table.columns.len() == 0 {
        0
    } else {
        proof {
            assert(table@[0] == table.columns@[0]@);
        }
        table.columns[0].cells.len()
    };
    proof {
        assert(nrows == row_count_v(table@));
    }
    if i == nrows {
        proof {
            assert(rows_of(table@).skip(i as int).len() == 0);
        }
        String::new()
    } else {
        let ncols: usize = table.columns.len();
        let mut rc: Vec<Option<String>> = Vec::new();
        let mut j: usize = 0;
        while j < ncols
            invariant
                ncols == table.columns@.len(),
                table.wf(),
                i < row_count_v(table@),
                0 <= j <= ncols,
                rc@.len() == j,
                forall|k: int| 0 <= k < j ==> rc.deep_view()[k] == row_of(table@, i as int)[k],
            decreases ncols - j,
        {
            proof {
                assert(table@[j as int] == table.columns@[j as int]@);
                assert(table@[j as int].cells.len() == row_count_v(table@));
            }
            let ghost prevv = rc@;
            let ghost pre = rc.deep_view();
            match &table.columns[j].cells[i] {
                Some(s) => {
                    let c = s.clone();
                    rc.push(Some(c));
                },
                None => {
                    rc.push(None);
                },
            }
            proof {
                assert forall|k: int| 0 <= k <= j implies rc.deep_view()[k] == row_of(
                    table@,
                    i as int,
                )[k] by {
                    assert(rc.deep_view()[k] == rc@[k].deep_view());
                    if k < j {
                        assert(rc@[k] == prevv[k]);
                        assert(pre[k] == prevv[k].deep_view());
                        assert(pre[k] == row_of(table@, i as int)[k]);
                    } else {
                        assert(table@[j as int].cells[i as int] == table.columns@[j as int].cells.deep_view()[i as int]);
                        assert(table.columns@[j as int].cells.deep_view()[i as int]
                            == table.columns@[j as int].cells@[i as int].deep_view());
                    }
                }
            }
            j = j + 1;
        }
        proof {
            assert(rc.deep_view() =~= row_of(table@, i as int));
        }
        let mut out = enc_record_at(&rc, 0);
        let rest = enc_rows_at(table, i + 1);
        out.append(rest.as_str());
        proof {
            let rows = rows_of(table@);
            assert(rc.deep_view().skip(0) =~= rc.deep_view());
            assert(rows.skip(i as int)[0] == rows[i as int]);
            assert(rows[i as int] == row_of(table@, i as int));
            assert(rows.skip(i as int).drop_first() =~= rows.skip(i as int + 1));
        }
        out
    }
}

/// Writes a well-formed table as CSV: a header record naming every
/// column, then one record per row, exactly as `enc_table` says.
pub fn encode_csv(table: &Table) -> (r: String)
    requires
        table.wf(),
    ensures
        r@ == enc_table(table@),
{
    let ncols: usize = table.columns.len();
    let mut hdr: Vec<Option<String>> = Vec::new();
    let mut j: usize = 0;
    while j < ncols
        invariant
            ncols == table.columns@.len(),
            0 <= j <= ncols,
            hdr@.len() == j,
            forall|k: int| 0 <= k < j ==> hdr.deep_view()[k] == header_cells(table@)[k],
        decreases ncols - j,
    {
        proof {
            assert(table@[j as int] == table.columns@[j as int]@);
        }
        let name = table.columns[j].name.clone();
        let ghost prevv = hdr@;
        let ghost pre = hdr.deep_view();
        hdr.push(Some(name));
        proof {
            assert forall|k: int| 0 <= k <= j implies hdr.deep_view()[k] == header_cells(table@)[k] by {
                assert(hdr.deep_view()[k] == hdr@[k].deep_view());
                if k < j {
                    assert(hdr@[k] == prevv[k]);
                    assert(pre[k] == prevv[k].deep_view());
                    assert(pre[k] == header_cells(table@)[k]);
                } else {
                    assert(hdr.deep_view()[j as int] == Some(table.columns@[j as int].name@));
                    assert(header_cells(table@)[j as int] == Some(table@[j as int].name));
                }
            }
        }
        j = j + 1;
    }
    proof {
        assert(hdr.deep_view() =~= header_cells(table@));
    }
    let mut out = enc_record_at(&hdr, 0);
    let body = enc_rows_at(table, 0);
    out.append(body.as_str());
    proof {
        assert(hdr.deep_view().skip(0) =~= hdr.deep_view());
        assert(rows_of(table@).skip(0) =~= rows_of(table@));
    }
    out
}

// ------------------------------------------------------------ the reader

/// Why a read failed: the input is not well-formed CSV of uniform width.
#[derive(Clone, Copy, Debug, PartialEq, Eq)]
pub struct CsvError;

/// Reads a quoted field's body from character `i` on.
fn parse_quoted_at(s: &str, i: usize) -> (r: Option<(String, usize)>)
    requires
        i <= s@.len(),
    ensures
        match r {
            Some(p) => i <= p.1 <= s@.len() && parse_quoted(s@.skip(i as int)) == Some(
                (p.0@, s@.skip(p.1 as int)),
            ),
            None => parse_quoted(s@.skip(i as int)) is None,
        },
    decreases s@.len() - i,
{
    let n: usize = s.unicode_len();
    if i == n {
        proof {
            assert(s@.skip(i as int).len() == 0);
        }
        return None;
    }
    let c = s.get_char(i);
    proof {
        assert(s@.skip(i as int)[0] == s@[i as int]);
    }
    if c == '"' {
        let two: bool = i + 1 < n && s.get_char(i + 1) == '"';
        proof {
            if i + 1 < n {
                assert(s@.skip(i as int)[1] == s@[i as int + 1]);
            }
        }
        if two {
            proof {
                assert(s@.skip(i as int).len() >= 2);
                assert(s@.skip(i as int).skip(2) =~= s@.skip(i as int + 2));
            }
            match parse_quoted_at(s, i + 2) {
                Some((v, jj)) => {
                    let mut out = String::new();
                    push_char(&mut out, '"');
                    out.append(v.as_str());
                    proof {
                        assert(out@ =~= seq!['"'] + v@);
                    }
                    Some((out, jj))
                },
                None => None,
            }
        } else {
            proof {
                assert(!(s@.skip(i as int).len() >= 2 && s@.skip(i as int)[1] == '"'));
                assert(s@.skip(i as int).skip(1) =~= s@.skip(i as int + 1));
            }
            Some((String::new(), i + 1))
        }
    } else {
        proof {
            assert(s@.skip(i as int).skip(1) =~= s@.skip(i as int + 1));
        }
        match parse_quoted_at(s, i + 1) {
            Some((v, jj)) => {
                let mut out = String::new();
                push_char(&mut out, c);
                out.append(v.as_str());
                proof {
                    assert(out@ =~= seq![c] + v@);
                }
                Some((out, jj))
            },
            None => None,
        }
    }
}

/// Reads an unquoted field from character `i` on, up to a separator.
fn scan_plain_at(s: &str, i: usize) -> (r: (String, usize))
    requires
        i <= s@.len(),
    ensures
        i <= r.1 <= s@.len(),
        scan_plain(s@.skip(i as int)) == (r.0@, s@.skip(r.1 as int)),
    decreases s@.len() - i,
{
    let n: usize = s.unicode_len();
    if i == n {
        proof {
            assert(s@.skip(i as int).len() == 0);
        }
        return (String::new(), i);
    }
    let c = s.get_char(i);
    proof {
        assert(s@.skip(i as int)[0] == s@[i as int]);
    }
    if c == ',' || c == '\n' {
        (String::new(), i)
    } else {
        proof {
            assert(s@.skip(i as int).drop_first() =~= s@.skip(i as int + 1));
        }
        let (v, jj) = scan_plain_at(s, i + 1);
        let mut out = String::new();
        push_char(&mut out, c);
        out.append(v.as_str());
        proof {
            assert(out@ =~= seq![c] + v@);
        }
        (out, jj)
    }
}

/// Reads one field from character `i` on.
fn parse_field_at(s: &str, i: usize) -> (r: Option<(Option<String>, usize)>)
    requires
        i <= s@.len(),
    ensures
        match r {
            Some(p) => i <= p.1 <= s@.len() && parse_field(s@.skip(i as int)) == Some(
                (p.0.deep_view(), s@.skip(p.1 as int)),
            ),
            None => parse_field(s@.skip(i as int)) is None,
        },
{
    let n: usize = s.unicode_len();
    if i == n {
        proof {
            assert(s@.skip(i as int).len() == 0);
        }
        return Some((None, i));
    }
    let c = s.get_char(i);
    proof {
        assert(s@.skip(i as int)[0] == s@[i as int]);
    }
    if c == ',' || c == '\n' {
        Some((None, i))
    } else if c == '"' {
        proof {
            assert(s@.skip(i as int).skip(1) =~= s@.skip(i as int + 1));
        }
        match parse_quoted_at(s, i + 1) {
            None => None,
            Some((v, jj)) => {
                if jj == n {
                    proof {
                        assert(s@.skip(jj as int).len() == 0);
                    }
                    Some((Some(v), jj))
                } else {
                    let c2 = s.get_char(jj);
                    proof {
                        assert(s@.skip(jj as int)[0] == s@[jj as int]);
                    }
                    if c2 == ',' || c2 == '\n' {
                        Some((Some(v), jj))
                    } else {
                        None
                    }
                }
            },
        }
    } else {
        let (v, jj) = scan_plain_at(s, i);
        Some((Some(v), jj))
    }
}

/// Reads one record from character `i` on.
fn parse_record_at(s: &str, i: usize) -> (r: Option<(Vec<Option<String>>, usize)>)
    requires
        i <= s@.len(),
    ensures
        match r {
            Some(p) => i <= p.1 <= s@.len() && parse_record(s@.skip(i as int)) == Some(
                (p.0.deep_view(), s@.skip(p.1 as int)),
            ),
            None => parse_record(s@.skip(i as int)) is None,
        },
    decreases s@.len() - i,
{
    let n: usize = s.unicode_len();
    match parse_field_at(s, i) {
        None => None,
        Some((c, j)) => {
            if j == n {
                proof {
                    assert(s@.skip(j as int).len() == 0);
                }
                None
            } else {
                let c2 = s.get_char(j);
                proof {
                    assert(s@.skip(j as int)[0] == s@[j as int]);
                }
                if c2 == '\n' {
                    let ghost cv = c.deep_view();
                    let mut cs: Vec<Option<String>> = Vec::new();
                    cs.push(c);
                    proof {
                        assert(s@.skip(j as int).skip(1) =~= s@.skip(j as int + 1));
                        assert(cs.deep_view() =~= seq![cv]);
                    }
                    Some((cs, j + 1))
                } else if c2 == ',' {
                    proof {
                        assert(s@.skip(j as int).skip(1) =~= s@.skip(j as int + 1));
                    }
                    match parse_record_at(s, j + 1) {
                        None => None,
                        Some((q, k)) => {
                            let ghost cv = c.deep_view();
                            let ghost pre = q.deep_view();
                            let mut q2 = q;
                            q2.insert(0, c);
                            proof {
                                assert forall|x: int| 0 <= x < q2@.len() implies q2.deep_view()[x]
                                    == (seq![cv] + pre)[x] by {
                                    assert(q2.deep_view()[x] == q2@[x].deep_view());
                                }
                                assert(q2.deep_view() =~= seq![cv] + pre);
                            }
                            Some((q2, k))
                        },
                    }
                } else {
                    None
                }
            }
        },
    }
}

/// Reads every record from character `i` to the end of the input.
fn parse_records_at(s: &str, i: usize) -> (r: Option<Vec<Vec<Option<String>>>>)
    requires
        i <= s@.len(),
    ensures
        match r {
            Some(rows) => parse_records(s@.skip(i as int)) == Some(rows.deep_view()),
            None => parse_records(s@.skip(i as int)) is None,
        },
    decreases s@.len() - i,
{
    let n: usize = s.unicode_len();
    if i == n {
        proof {
            assert(s@.skip(i as int).len() == 0);
        }
        let rows: Vec<Vec<Option<String>>> = Vec::new();
        proof {
            assert(rows.deep_view() =~= Seq::<Seq<Option<Seq<char>>>>::empty());
        }
        return Some(rows);
    }
    match parse_record_at(s, i) {
        None => None,
        Some((cs, j)) => {
            proof {
                lemma_parse_record_len(s@.skip(i as int));
            }
            match parse_records_at(s, j) {
                None => None,
                Some(rows) => {
                    let ghost cv = cs.deep_view();
                    let ghost pre = rows.deep_view();
                    let mut rows2 = rows;
                    rows2.insert(0, cs);
                    proof {
                        assert forall|x: int| 0 <= x < rows2@.len() implies rows2.deep_view()[x]
                            == (seq![cv] + pre)[x] by {
                            assert(rows2.deep_view()[x] == rows2@[x].deep_view());
                        }
                        assert(rows2.deep_view() =~= seq![cv] + pre);
                    }
                    Some(rows2)
                },
            }
        },
    }
}

/// Reads a whole CSV file back into a table: the header record names
/// the columns, every following record is one row of the header's
/// width. Malformed input or a width mismatch fails the whole read;
/// a successful read yields a well-formed table with at least one
/// column, exactly as `parse_csv_spec` says.
#[verifier::loop_isolation(false)]
pub fn parse_csv(s: &str) -> (r: Result<Table, CsvError>)
    ensures
        match r {
            Ok(t) => parse_csv_spec(s@) == Some(t@) && t.wf() && t.columns@.len() >= 1,
            Err(_) => parse_csv_spec(s@) is None,
        },
{
    proof {
        assert(s@.skip(0) =~= s@);
    }
    let (hdr, hend): (Vec<Option<String>>, usize) = match parse_record_at(s, 0) {
        Some(p) => p,
        None => {
            return Err(CsvError);
        },
    };
    proof {
        lemma_parse_record_len(s@);
    }
    let nh: usize = hdr.len();
    let mut names: Vec<String> = Vec::new();
    let mut k: usize = 0;
    while k < nh
        invariant
            nh == hdr@.len(),
            0 <= k <= nh,
            names@.len() == k,
            forall|x: int| 0 <= x < k ==> names.deep_view()[x] == names_of(hdr.deep_view())[x],
        decreases nh - k,
    {
        let ghost prevv = names@;
        let ghost pre = names.deep_view();
        match &hdr[k] {
            Some(v) => {
                let c = v.clone();
                names.push(c);
            },
            None => {
                names.push(String::new());
            },
        }
        proof {
            assert(hdr.deep_view()[k as int] == hdr@[k as int].deep_view());
            assert forall|x: int| 0 <= x <= k implies names.deep_view()[x] == names_of(
                hdr.deep_view(),
            )[x] by {
                assert(names.deep_view()[x] == names@[x].deep_view());
                if x < k {
                    assert(names@[x] == prevv[x]);
                    assert(pre[x] == prevv[x].deep_view());
                    assert(pre[x] == names_of(hdr.deep_view())[x]);
                }
            }
        }
        k = k + 1;
    }
    proof {
        assert(names.deep_view() =~= names_of(hdr.deep_view()));
    }
    let rows: Vec<Vec<Option<String>>> = match parse_records_at(s, hend) {
        Some(r) => r,
        None => {
            return Err(CsvError);
        },
    };
    let nrows: usize = rows.len();
    let ncols: usize = names.len();
    let mut i: usize = 0;
    while i < nrows
        invariant
            nrows == rows@.len(),
            ncols == names@.len(),
            0 <= i <= nrows,
            forall|x: int| 0 <= x < i ==> (#[trigger] rows.deep_view()[x]).len() == ncols,
        decreases nrows - i,
    {
        proof {
            assert(rows.deep_view()[i as int] == rows@[i as int].deep_view());
        }
        if rows[i].len() != ncols {
            proof {
                assert(rows.deep_view()[i as int].len() != names.deep_view().len());
            }
            return Err(CsvError);
        }
        i = i + 1;
    }
    let ghost rowsv = rows.deep_view();
    let ghost namesv = names.deep_view();
    let ghost target = Seq::new(
        namesv.len() as nat,
        |j: int|
            ColView { name: namesv[j], cells: Seq::new(rowsv.len() as nat, |i: int| rowsv[i][j]) },
    );
    let mut cols: Vec<Column> = Vec::new();
    let mut j: usize = 0;
    while j < ncols
        invariant
            ncols == names@.len(),
            nrows == rows@.len(),
            rowsv == rows.deep_view(),
            namesv == names.deep_view(),
            target == Seq::new(
                namesv.len() as nat,
                |j: int|
                    ColView {
                        name: namesv[j],
                        cells: Seq::new(rowsv.len() as nat, |i: int| rowsv[i][j]),
                    },
            ),
            forall|x: int| 0 <= x < nrows ==> (#[trigger] rowsv[x]).len() == ncols,
            0 <= j <= ncols,
            cols@.len() == j,
            forall|x: int| 0 <= x < j ==> #[trigger] cols@[x]@ == target[x],
        decreases ncols - j,
    {
        let mut cells: Vec<Option<String>> = Vec::new();
        let mut i2: usize = 0;
        while i2 < nrows
            invariant
                nrows == rows@.len(),
                ncols == names@.len(),
                rowsv == rows.deep_view(),
                forall|x: int| 0 <= x < nrows ==> (#[trigger] rowsv[x]).len() == ncols,
                0 <= i2 <= nrows,
                j < ncols,
                cells@.len() == i2,
                forall|x: int| 0 <= x < i2 ==> #[trigger] cells.deep_view()[x] == rowsv[x][j as int],
            decreases nrows - i2,
        {
            proof {
                assert(rowsv[i2 as int] == rows@[i2 as int].deep_view());
                assert(rows@[i2 as int].deep_view().len() == rows@[i2 as int]@.len());
                assert(rows@[i2 as int].deep_view()[j as int] == rows@[i2 as int]@[j as int].deep_view());
            }
            let ghost prevv = cells@;
            let ghost pre = cells.deep_view();
            match &rows[i2][j] {
                Some(v) => {
                    let c = v.clone();
                    cells.push(Some(c));
                },
                None => {
                    cells.push(None);
                },
            }
            proof {
                assert forall|x: int| 0 <= x <= i2 implies cells.deep_view()[x]
                    == rowsv[x][j as int] by {
                    assert(cells.deep_view()[x] == cells@[x].deep_view());
                    if x < i2 {
                        assert(cells@[x] == prevv[x]);
                        assert(pre[x] == prevv[x].deep_view());
                        assert(pre[x] == rowsv[x][j as int]);
                    }
                }
            }
            i2 = i2 + 1;
        }
        let name = names[j].clone();
        let col = Column { name, cells };
        let ghost prevc = cols@;
        cols.push(col);
        proof {
            assert(namesv[j as int] == names@[j as int]@);
            assert(cols@[j as int]@.cells =~= target[j as int].cells);
            assert(cols@[j as int]@ =~~= target[j as int]);
            assert forall|x: int| 0 <= x <= j implies #[trigger] cols@[x]@ == target[x] by {
                if x < j {
                    assert(cols@[x] == prevc[x]);
                }
            }
        }
        j = j + 1;
    }
    let out = Table { columns: cols };
    proof {
        assert(out@ =~~= target);
        assert(parse_record(s@) == Some((hdr.deep_view(), s@.skip(hend as int))));
        assert forall|x: int| 0 <= x < rowsv.len() implies (#[trigger] rowsv[x]).len()
            == namesv.len() by {}
        assert(parse_csv_spec(s@) == Some(target));
        assert forall|x: int| 0 <= x < out@.len() implies (#[trigger] out@[x].cells).len()
            == row_count_v(out@) by {
            assert(out@[x] == target[x]);
            if out@.len() > 0 {
                assert(out@[0] == target[0]);
            }
        }
        assert(table_wf_v(out@));
    }
    Ok(out)
}

} // verus!
