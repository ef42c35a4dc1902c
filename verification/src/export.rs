//! Tables written out as text.

use crate::text;
use vstd::prelude::*;

verus! {

/// The texts of a table.
pub open spec fn cells(rows: Seq<Vec<String>>) -> Seq<Seq<Seq<char>>> {
    Seq::new(rows.len(), |i: int| text::texts(rows[i]@))
}

/// What ends a line before another one.
pub open spec fn line_break() -> Seq<char> {
    seq!['\r', '\n']
}

/// What stands between two columns of aligned text.
pub open spec fn gap() -> Seq<char> {
    seq![' ', ' ']
}

/// A text with every quotation mark doubled.
pub open spec fn doubled(value: Seq<char>) -> Seq<char>
    decreases value.len(),
{
    if value.len() == 0 {
        Seq::empty()
    } else if value.last() == '"' {
        doubled(value.drop_last()) + seq!['"', '"']
    } else {
        doubled(value.drop_last()).push(value.last())
    }
}

/// A text as a field of a CSV file: between quotation marks, with those inside it doubled.
pub open spec fn csv_field(value: Seq<char>) -> Seq<char> {
    (seq!['"'] + doubled(value)).push('"')
}

/// The fields of a row, with commas between them.
pub open spec fn csv_line(row: Seq<Seq<char>>) -> Seq<char> {
    text::joined(Seq::new(row.len(), |i: int| csv_field(row[i])), seq![','])
}

/// A table as a CSV file: a line for the headers, then one for each row.
pub open spec fn csv_text(headers: Seq<Seq<char>>, rows: Seq<Seq<Seq<char>>>) -> Seq<char> {
    let table = seq![headers] + rows;
    text::joined(Seq::new(table.len(), |i: int| csv_line(table[i])), line_break())
}

/// How wide column `i` is: as wide as its header, or as the widest cell of a row that has one.
pub open spec fn column_width(
    headers: Seq<Seq<char>>,
    rows: Seq<Seq<Seq<char>>>,
    i: int,
) -> nat
    decreases rows.len(),
{
    if rows.len() == 0 {
        headers[i].len()
    } else {
        let width = column_width(headers, rows.drop_last(), i);
        let row = rows.last();
        if i < row.len() && row[i].len() > width {
            row[i].len()
        } else {
            width
        }
    }
}

/// The widths of all columns. There are as many columns as headers.
pub open spec fn column_widths(headers: Seq<Seq<char>>, rows: Seq<Seq<Seq<char>>>) -> Seq<nat> {
    Seq::new(headers.len(), |i: int| column_width(headers, rows, i))
}

/// The cell of a row in column `i`; empty where the row is too short to have one.
pub open spec fn cell(row: Seq<Seq<char>>, i: int) -> Seq<char> {
    if i < row.len() {
        row[i]
    } else {
        Seq::empty()
    }
}

/// The cells of a row in all columns, each filled up to the width of its column.
pub open spec fn aligned_cells(row: Seq<Seq<char>>, widths: Seq<nat>) -> Seq<Seq<char>> {
    Seq::new(widths.len(), |i: int| text::padded(cell(row, i), widths[i]))
}

/// For each column a rule of dashes as wide as it.
pub open spec fn rules(widths: Seq<nat>) -> Seq<Seq<char>> {
    Seq::new(widths.len(), |i: int| text::repeated('-', widths[i]))
}

/// A row as a line of aligned text.
pub open spec fn aligned_line(row: Seq<Seq<char>>, widths: Seq<nat>) -> Seq<char> {
    text::joined(aligned_cells(row, widths), gap())
}

/// A table as aligned text: a line for the headers, a rule below it, then a line for each row.
pub open spec fn aligned_text(headers: Seq<Seq<char>>, rows: Seq<Seq<Seq<char>>>) -> Seq<char> {
    let widths = column_widths(headers, rows);
    text::joined(
        seq![aligned_line(headers, widths), text::joined(rules(widths), gap())] + Seq::new(
            rows.len(),
            |i: int| aligned_line(rows[i], widths),
        ),
        line_break(),
    )
}

/// Writes a text as a field of a CSV file.
pub fn esc_csv(value: &str) -> (field: String)
    ensures
        field@ == csv_field(value@),
{
    let mut field = String::new();
    field.push('"');
    assert(field@ =~= seq!['"'] + doubled(Seq::empty()));
    for c in rest: value.chars()
        invariant
            rest.seq() == value@,
            field@ == seq!['"'] + doubled(value@.take(rest.index())),
    {
        let ghost done = value@.take(rest.index());
        let ghost more = value@.take(rest.index() + 1);
        proof {
            assert(more.drop_last() =~= done);
            assert(more.last() == c);
        }
        if c == '"' {
            field.push('"');
        }
        field.push(c);
        assert(field@ =~= seq!['"'] + doubled(more));
    }
    assert(value@.take(value@.len() as int) =~= value@);
    field.push('"');
    field
}

/// Writes the fields of a row.
fn csv_row(row: &[String]) -> (line: String)
    ensures
        line@ == csv_line(text::texts(row@)),
{
    let mut fields: Vec<String> = Vec::new();
    let mut i: usize = 0;
    while i < row.len()
        invariant
            i <= row@.len(),
            fields@.len() == i,
            forall|j: int| 0 <= j < i ==> (#[trigger] fields@[j])@ == csv_field(row@[j]@),
        decreases row@.len() - i,
    {
        fields.push(esc_csv(row[i].as_str()));
        i = i + 1;
    }
    proof {
        let whole = text::texts(row@);
        reveal_strlit(",");
        assert(","@ =~= seq![',']);
        assert(text::texts(fields@) =~= Seq::new(whole.len(), |j: int| csv_field(whole[j])));
    }
    text::join(&fields, ",")
}

/// Writes a table as a CSV file.
pub fn build_csv(headers: &[String], rows: &[Vec<String>]) -> (csv: String)
    ensures
        csv@ == csv_text(text::texts(headers@), cells(rows@)),
{
    let mut lines: Vec<String> = Vec::new();
    lines.push(csv_row(headers));
    let mut i: usize = 0;
    while i < rows.len()
        invariant
            i <= rows@.len(),
            lines@.len() == i + 1,
            lines@[0]@ == csv_line(text::texts(headers@)),
            forall|j: int|
                1 <= j <= i ==> (#[trigger] lines@[j])@ == csv_line(text::texts(rows@[j - 1]@)),
        decreases rows@.len() - i,
    {
        lines.push(csv_row(rows[i].as_slice()));
        i = i + 1;
    }
    proof {
        let table = seq![text::texts(headers@)] + cells(rows@);
        reveal_strlit("\r\n");
        assert("\r\n"@ =~= line_break());
        assert(text::texts(lines@) =~= Seq::new(table.len(), |j: int| csv_line(table[j])));
    }
    text::join(&lines, "\r\n")
}

/// The widths of all columns, in characters.
fn measure(headers: &[String], rows: &[Vec<String>]) -> (widths: Vec<usize>)
    ensures
        widths_of(widths@) == column_widths(text::texts(headers@), cells(rows@)),
{
    let ghost heads = text::texts(headers@);
    let ghost table = cells(rows@);
    let mut widths: Vec<usize> = Vec::new();
    let mut i: usize = 0;
    while i < headers.len()
        invariant
            i <= headers@.len(),
            widths@.len() == i,
            heads == text::texts(headers@),
            forall|c: int| 0 <= c < i ==> #[trigger] widths@[c] == heads[c].len(),
        decreases headers@.len() - i,
    {
        widths.push(headers[i].as_str().unicode_len());
        i = i + 1;
    }
    let mut r: usize = 0;
    assert(table.take(0) =~= Seq::empty());
    while r < rows.len()
        invariant
            r <= rows@.len(),
            heads == text::texts(headers@),
            table == cells(rows@),
            widths@.len() == headers@.len(),
            forall|c: int|
                0 <= c < widths@.len() ==> #[trigger] widths@[c] == column_width(
                    heads,
                    table.take(r as int),
                    c,
                ),
        decreases rows@.len() - r,
    {
        let row: &Vec<String> = &rows[r];
        let ghost before = table.take(r as int);
        let ghost with = table.take(r + 1);
        proof {
            assert(with.drop_last() =~= before);
            assert(with.last() == text::texts(row@));
        }
        let mut c: usize = 0;
        while c < widths.len() && c < row.len()
            invariant
                c <= row@.len(),
                c <= widths@.len(),
                widths@.len() == headers@.len(),
                with.len() > 0,
                with.drop_last() == before,
                with.last() == text::texts(row@),
                forall|k: int|
                    0 <= k < c ==> #[trigger] widths@[k] == column_width(heads, with, k),
                forall|k: int|
                    c <= k < widths@.len() ==> #[trigger] widths@[k] == column_width(
                        heads,
                        before,
                        k,
                    ),
            decreases row@.len() - c,
        {
            let len: usize = row[c].as_str().unicode_len();
            if len > widths[c] {
                widths.set(c, len);
            }
            c = c + 1;
        }
        r = r + 1;
    }
    proof {
        assert(table.take(r as int) =~= table);
        assert(widths_of(widths@) =~= column_widths(heads, table));
    }
    widths
}

/// Column widths as natural numbers.
pub open spec fn widths_of(widths: Seq<usize>) -> Seq<nat> {
    Seq::new(widths.len(), |i: int| widths[i] as nat)
}

/// Writes a row as a line of aligned text.
fn aligned_row(row: &[String], widths: &Vec<usize>) -> (line: String)
    ensures
        line@ == aligned_line(text::texts(row@), widths_of(widths@)),
{
    let ghost whole = text::texts(row@);
    let mut columns: Vec<String> = Vec::new();
    let mut i: usize = 0;
    while i < widths.len()
        invariant
            i <= widths@.len(),
            columns@.len() == i,
            whole == text::texts(row@),
            forall|j: int|
                0 <= j < i ==> (#[trigger] columns@[j])@ == text::padded(
                    cell(whole, j),
                    widths@[j] as nat,
                ),
        decreases widths@.len() - i,
    {
        if i < row.len() {
            columns.push(text::pad(row[i].as_str(), widths[i]));
        } else {
            proof {
                reveal_strlit("");
                assert(""@ =~= Seq::<char>::empty());
            }
            columns.push(text::pad("", widths[i]));
        }
        i = i + 1;
    }
    proof {
        reveal_strlit("  ");
        assert("  "@ =~= gap());
        assert(text::texts(columns@) =~= aligned_cells(whole, widths_of(widths@)));
    }
    text::join(&columns, "  ")
}

/// Writes the rule that goes below the headers.
fn rule_row(widths: &Vec<usize>) -> (line: String)
    ensures
        line@ == text::joined(rules(widths_of(widths@)), gap()),
{
    let mut columns: Vec<String> = Vec::new();
    let mut i: usize = 0;
    while i < widths.len()
        invariant
            i <= widths@.len(),
            columns@.len() == i,
            forall|j: int|
                0 <= j < i ==> (#[trigger] columns@[j])@ == text::repeated('-', widths@[j] as nat),
        decreases widths@.len() - i,
    {
        let mut rule = String::new();
        text::push_times(&mut rule, '-', widths[i]);
        assert(rule@ =~= text::repeated('-', widths@[i as int] as nat));
        columns.push(rule);
        i = i + 1;
    }
    proof {
        reveal_strlit("  ");
        assert("  "@ =~= gap());
        assert(text::texts(columns@) =~= rules(widths_of(widths@)));
    }
    text::join(&columns, "  ")
}

/// Writes a table as aligned text. A row has as many cells there as there are headers: missing
/// ones are left blank, and those beyond are left out.
pub fn build_txt(headers: &[String], rows: &[Vec<String>]) -> (txt: String)
    ensures
        txt@ == aligned_text(text::texts(headers@), cells(rows@)),
{
    let widths = measure(headers, rows);
    let ghost w = widths_of(widths@);
    let ghost heads = text::texts(headers@);
    let ghost table = cells(rows@);
    let mut lines: Vec<String> = Vec::new();
    lines.push(aligned_row(headers, &widths));
    lines.push(rule_row(&widths));
    let mut i: usize = 0;
    while i < rows.len()
        invariant
            i <= rows@.len(),
            lines@.len() == i + 2,
            w == widths_of(widths@),
            table == cells(rows@),
            lines@[0]@ == aligned_line(heads, w),
            lines@[1]@ == text::joined(rules(w), gap()),
            forall|j: int|
                2 <= j < i + 2 ==> (#[trigger] lines@[j])@ == aligned_line(table[j - 2], w),
        decreases rows@.len() - i,
    {
        lines.push(aligned_row(rows[i].as_slice(), &widths));
        i = i + 1;
    }
    proof {
        reveal_strlit("\r\n");
        assert("\r\n"@ =~= line_break());
        assert(text::texts(lines@) =~= seq![aligned_line(heads, w), text::joined(rules(w), gap())]
            + Seq::new(table.len(), |j: int| aligned_line(table[j], w)));
    }
    text::join(&lines, "\r\n")
}

} // verus!
