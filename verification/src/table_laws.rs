//! What holds of every exported table.

use crate::export::{aligned_cells, aligned_line, aligned_text, cell, column_width, column_widths, rules};
use crate::export::{cells, csv_field, csv_line, csv_text, doubled, gap, line_break};
use crate::text::{joined, padded, repeated};
use vstd::prelude::*;

verus! {

/// Where a reader of a CSV file stands.
pub enum Spot {
    /// At the start of a line.
    Start,
    /// Within a field.
    Quoted,
    /// Behind a quotation mark within a field, which ends it or is the first of two.
    Quote,
    /// Behind a comma.
    Comma,
    /// Between the two characters of a line break.
    Return,
    /// Behind something that no such file holds.
    Lost,
}

/// How far a reader of a CSV file has come: the rows read, the fields of the current row, the
/// current field.
pub struct Reading {
    pub rows: Seq<Seq<Seq<char>>>,
    pub row: Seq<Seq<char>>,
    pub field: Seq<char>,
    pub spot: Spot,
}

impl Reading {
    /// After one more character.
    pub open spec fn read(self, c: char) -> Reading {
        match self.spot {
            Spot::Start => if c == '"' {
                Reading { field: Seq::empty(), spot: Spot::Quoted, ..self }
            } else if c == '\r' {
                Reading { spot: Spot::Return, ..self }
            } else {
                Reading { spot: Spot::Lost, ..self }
            },
            Spot::Quoted => if c == '"' {
                Reading { spot: Spot::Quote, ..self }
            } else {
                Reading { field: self.field.push(c), ..self }
            },
            Spot::Quote => if c == '"' {
                Reading { field: self.field.push(c), spot: Spot::Quoted, ..self }
            } else if c == ',' {
                Reading { row: self.row.push(self.field), spot: Spot::Comma, ..self }
            } else if c == '\r' {
                Reading { row: self.row.push(self.field), spot: Spot::Return, ..self }
            } else {
                Reading { spot: Spot::Lost, ..self }
            },
            Spot::Comma => if c == '"' {
                Reading { field: Seq::empty(), spot: Spot::Quoted, ..self }
            } else {
                Reading { spot: Spot::Lost, ..self }
            },
            Spot::Return => if c == '\n' {
                Reading {
                    rows: self.rows.push(self.row),
                    row: Seq::empty(),
                    spot: Spot::Start,
                    ..self
                }
            } else {
                Reading { spot: Spot::Lost, ..self }
            },
            Spot::Lost => self,
        }
    }

    /// After all of a text.
    pub open spec fn read_all(self, text: Seq<char>) -> Reading
        decreases text.len(),
    {
        if text.len() == 0 {
            self
        } else {
            self.read_all(text.drop_last()).read(text.last())
        }
    }

    /// The rows read, if the file may end here.
    pub open spec fn finish(self) -> Option<Seq<Seq<Seq<char>>>> {
        match self.spot {
            Spot::Start => Some(self.rows.push(self.row)),
            Spot::Quote => Some(self.rows.push(self.row.push(self.field))),
            _ => None,
        }
    }
}

/// A reader that has read nothing yet.
pub open spec fn unread() -> Reading {
    Reading { rows: Seq::empty(), row: Seq::empty(), field: Seq::empty(), spot: Spot::Start }
}

/// The rows of a CSV file, the line of the headers among them; a line without fields is a row
/// without fields.
pub open spec fn csv_table(text: Seq<char>) -> Option<Seq<Seq<Seq<char>>>> {
    unread().read_all(text).finish()
}

proof fn lemma_read_add(r: Reading, a: Seq<char>, b: Seq<char>)
    ensures
        r.read_all(a + b) == r.read_all(a).read_all(b),
    decreases b.len(),
{
    if b.len() == 0 {
        assert(a + b =~= a);
    } else {
        lemma_read_add(r, a, b.drop_last());
        assert((a + b).drop_last() =~= a + b.drop_last());
    }
}

proof fn lemma_read_push(r: Reading, a: Seq<char>, c: char)
    ensures
        r.read_all(a.push(c)) == r.read_all(a).read(c),
{
    assert(a.push(c).drop_last() =~= a);
}

proof fn lemma_read_one(r: Reading, c: char)
    ensures
        r.read_all(seq![c]) == r.read(c),
{
    lemma_read_push(r, Seq::empty(), c);
    assert(seq![c] =~= Seq::empty().push(c));
}

proof fn lemma_read_doubled(r: Reading, value: Seq<char>)
    requires
        r.spot is Quoted,
    ensures
        r.read_all(doubled(value)) == (Reading { field: r.field + value, ..r }),
    decreases value.len(),
{
    if value.len() == 0 {
        assert(r.field + value =~= r.field);
    } else {
        let front = value.drop_last();
        let c = value.last();
        lemma_read_doubled(r, front);
        assert(r.field + value =~= (r.field + front).push(c));
        if c == '"' {
            lemma_read_push(r, doubled(front), '"');
            lemma_read_push(r, doubled(front).push('"'), '"');
            assert(doubled(value) =~= doubled(front).push('"').push('"'));
        } else {
            lemma_read_push(r, doubled(front), c);
        }
    }
}

proof fn lemma_read_field(r: Reading, value: Seq<char>)
    requires
        r.spot is Start || r.spot is Comma,
    ensures
        r.read_all(csv_field(value)) == (Reading { field: value, spot: Spot::Quote, ..r }),
{
    let open = r.read('"');
    lemma_read_one(r, '"');
    lemma_read_add(r, seq!['"'], doubled(value));
    lemma_read_doubled(open, value);
    lemma_read_push(r, seq!['"'] + doubled(value), '"');
    assert(Seq::empty() + value =~= value);
}

proof fn lemma_read_line(r: Reading, row: Seq<Seq<char>>)
    requires
        r.spot is Start,
        r.row.len() == 0,
    ensures
        row.len() == 0 ==> r.read_all(csv_line(row)) == r,
        row.len() > 0 ==> r.read_all(csv_line(row)) == (Reading {
            row: row.drop_last(),
            field: row.last(),
            spot: Spot::Quote,
            ..r
        }),
    decreases row.len(),
{
    let fields = Seq::new(row.len(), |i: int| csv_field(row[i]));
    if row.len() == 1 {
        lemma_read_field(r, row[0]);
        assert(r.row =~= row.drop_last());
    } else if row.len() > 1 {
        let front = row.drop_last();
        let before = csv_line(front);
        lemma_read_line(r, front);
        assert(fields.drop_last() =~= Seq::new(front.len(), |i: int| csv_field(front[i])));
        lemma_read_add(r, before, seq![',']);
        lemma_read_one(r.read_all(before), ',');
        lemma_read_add(r, before + seq![','], csv_field(row.last()));
        let comma = r.read_all(before).read(',');
        lemma_read_field(comma, row.last());
        assert(front.drop_last().push(front.last()) =~= front);
    }
}

proof fn lemma_read_lines(table: Seq<Seq<Seq<char>>>)
    requires
        table.len() > 0,
    ensures
        csv_table(
            joined(Seq::new(table.len(), |i: int| csv_line(table[i])), line_break()),
        ) == Some(table),
    decreases table.len(),
{
    let lines = Seq::new(table.len(), |i: int| csv_line(table[i]));
    let last = table.last();
    let front = table.drop_last();
    assert(front.push(last) =~= table);
    if table.len() == 1 {
        lemma_read_line(unread(), last);
        assert(front =~= Seq::empty());
        if last.len() > 0 {
            assert(last.drop_last().push(last.last()) =~= last);
        } else {
            assert(last =~= Seq::empty());
        }
    } else {
        let before = joined(
            Seq::new(front.len(), |i: int| csv_line(front[i])),
            line_break(),
        );
        lemma_read_lines(front);
        assert(lines.drop_last() =~= Seq::new(front.len(), |i: int| csv_line(front[i])));
        let at = unread().read_all(before);
        lemma_read_push(unread(), before, '\r');
        lemma_read_push(unread(), before.push('\r'), '\n');
        assert(before + line_break() =~= before.push('\r').push('\n'));
        let next = at.read('\r').read('\n');
        assert(next.rows == front);
        lemma_read_line(next, last);
        lemma_read_add(unread(), before + line_break(), csv_line(last));
        if last.len() > 0 {
            assert(last.drop_last().push(last.last()) =~= last);
        } else {
            assert(last =~= next.row);
        }
    }
}

/// Nothing is lost in a CSV file: whatever the headers and cells hold, quotation marks, commas and
/// line breaks among it, reading the file gives back the same headers and the same rows.
pub proof fn law_csv_reads_back(headers: Seq<Seq<char>>, rows: Seq<Seq<Seq<char>>>)
    ensures
        csv_table(csv_text(headers, rows)) == Some(seq![headers] + rows),
{
    lemma_read_lines(seq![headers] + rows);
}

/// Different tables give different CSV files.
pub proof fn law_csv_tells_tables_apart(
    headers: Seq<Seq<char>>,
    rows: Seq<Seq<Seq<char>>>,
    other_headers: Seq<Seq<char>>,
    other_rows: Seq<Seq<Seq<char>>>,
)
    requires
        csv_text(headers, rows) == csv_text(other_headers, other_rows),
    ensures
        headers == other_headers,
        rows == other_rows,
{
    law_csv_reads_back(headers, rows);
    law_csv_reads_back(other_headers, other_rows);
    let one = seq![headers] + rows;
    let two = seq![other_headers] + other_rows;
    assert(one == two);
    assert(one[0] == two[0]);
    assert(one.skip(1) =~= rows);
    assert(two.skip(1) =~= other_rows);
}

/// Every character of a field stands for itself, but for quotation marks, which are written twice;
/// one more quotation mark stands at either end.
pub proof fn law_csv_fields(value: Seq<char>, c: char)
    ensures
        csv_field(Seq::empty()) == seq!['"', '"'],
        csv_field(value).len() >= 2,
        csv_field(value)[0] == '"',
        csv_field(value).last() == '"',
        c != '"' ==> csv_field(value.push(c)) == csv_field(value).drop_last() + seq![c, '"'],
        c == '"' ==> csv_field(value.push(c)) == csv_field(value).drop_last() + seq!['"', '"', '"'],
{
    assert(value.push(c).drop_last() =~= value);
    assert(csv_field(Seq::empty()) =~= seq!['"', '"']);
    if c == '"' {
        assert(csv_field(value.push(c)) =~= csv_field(value).drop_last() + seq!['"', '"', '"']);
    } else {
        assert(csv_field(value.push(c)) =~= csv_field(value).drop_last() + seq![c, '"']);
    }
}

/// A line without fields is empty, the first field stands alone, and each further one stands behind
/// a comma.
pub proof fn law_csv_lines(row: Seq<Seq<char>>, value: Seq<char>)
    ensures
        csv_line(Seq::empty()) == Seq::<char>::empty(),
        csv_line(seq![value]) == csv_field(value),
        row.len() > 0 ==> csv_line(row.push(value)) == csv_line(row) + seq![','] + csv_field(value),
{
    let more = row.push(value);
    assert(Seq::new(more.len(), |i: int| csv_field(more[i])).drop_last() =~= Seq::new(
        row.len(),
        |i: int| csv_field(row[i]),
    ));
}

/// The line of the headers comes first, and each row adds its own line behind a line break.
pub proof fn law_csv_rows(
    headers: Seq<Seq<char>>,
    rows: Seq<Seq<Seq<char>>>,
    row: Seq<Seq<char>>,
)
    ensures
        csv_text(headers, Seq::empty()) == csv_line(headers),
        csv_text(headers, rows.push(row)) == csv_text(headers, rows) + seq!['\r', '\n'] + csv_line(
            row,
        ),
{
    let table = seq![headers] + rows;
    let more = seq![headers] + rows.push(row);
    assert(Seq::new(more.len(), |i: int| csv_line(more[i])).drop_last() =~= Seq::new(
        table.len(),
        |i: int| csv_line(table[i]),
    ));
    assert(more.last() == row);
}

/// A table given as strings stands for their texts, row by row.
pub proof fn law_cells(rows: Seq<Vec<String>>)
    ensures
        cells(rows).len() == rows.len(),
        forall|r: int, i: int|
            #![trigger rows[r]@[i]]
            0 <= r < rows.len() && 0 <= i < rows[r]@.len() ==> cells(rows)[r].len()
                == rows[r]@.len() && cells(rows)[r][i] == rows[r]@[i]@,
        forall|r: int| 0 <= r < rows.len() ==> cells(rows)[r].len() == (#[trigger] rows[r])@.len(),
{
}

/// Where column `i` starts in a line of aligned text.
pub open spec fn column_start(widths: Seq<nat>, i: int) -> int
    decreases i,
{
    if i <= 0 {
        0
    } else {
        column_start(widths, i - 1) + widths[i - 1] + gap().len()
    }
}

/// Parts of these widths stand, joined by gaps, where the columns start.
proof fn lemma_joined_columns(parts: Seq<Seq<char>>, widths: Seq<nat>)
    requires
        parts.len() == widths.len(),
        forall|i: int| 0 <= i < parts.len() ==> (#[trigger] parts[i]).len() == widths[i],
    ensures
        parts.len() > 0 ==> joined(parts, gap()).len() == column_start(widths, parts.len() as int)
            - gap().len(),
        parts.len() == 0 ==> joined(parts, gap()).len() == 0,
        forall|i: int|
            0 <= i < parts.len() ==> 0 <= #[trigger] column_start(widths, i) && column_start(
                widths,
                i,
            ) + widths[i] <= joined(parts, gap()).len() && joined(parts, gap()).subrange(
                column_start(widths, i),
                column_start(widths, i) + widths[i],
            ) == parts[i],
    decreases parts.len(),
{
    let line = joined(parts, gap());
    if parts.len() == 1 {
        reveal_with_fuel(column_start, 2);
        assert(line.subrange(0, widths[0] as int) =~= parts[0]);
    } else if parts.len() > 1 {
        let n = parts.len() - 1;
        let front = parts.drop_last();
        let less = widths.drop_last();
        let before = joined(front, gap());
        lemma_joined_columns(front, less);
        lemma_column_start(widths, less, n);
        assert forall|i: int| 0 <= i < parts.len() implies 0 <= #[trigger] column_start(widths, i)
            && column_start(widths, i) + widths[i] <= line.len() && line.subrange(
            column_start(widths, i),
            column_start(widths, i) + widths[i],
        ) == parts[i] by {
            if i < n {
                lemma_column_start(widths, less, i);
                assert(column_start(less, i) >= 0);
                let from = column_start(widths, i);
                let to = from + widths[i];
                assert(line.subrange(from, to) =~= before.subrange(from, to));
                assert(front[i] == parts[i]);
            } else {
                let from = column_start(widths, n);
                assert(from == before.len() + gap().len());
                assert(line.subrange(from, from + widths[n]) =~= parts[n]);
            }
        }
    }
}

/// Where a column starts depends on the columns before it alone.
proof fn lemma_column_start(widths: Seq<nat>, less: Seq<nat>, i: int)
    requires
        less == widths.drop_last(),
        widths.len() > 0,
        i <= less.len(),
    ensures
        column_start(widths, i) == column_start(less, i),
    decreases i,
{
    if i > 0 {
        lemma_column_start(widths, less, i - 1);
    }
}

/// A column is at least as wide as its header and as each cell in it.
proof fn lemma_column_width(headers: Seq<Seq<char>>, rows: Seq<Seq<Seq<char>>>, i: int)
    requires
        0 <= i < headers.len(),
    ensures
        headers[i].len() <= column_width(headers, rows, i),
        forall|r: int|
            0 <= r < rows.len() ==> cell(#[trigger] rows[r], i).len() <= column_width(
                headers,
                rows,
                i,
            ),
    decreases rows.len(),
{
    if rows.len() > 0 {
        let front = rows.drop_last();
        lemma_column_width(headers, front, i);
        assert forall|r: int| 0 <= r < rows.len() implies cell(#[trigger] rows[r], i).len()
            <= column_width(headers, rows, i) by {
            if r < front.len() {
                assert(front[r] == rows[r]);
            }
        }
    }
}

/// A column is no wider than it has to be: its header is as wide, or a cell of it is.
proof fn lemma_column_width_taken(headers: Seq<Seq<char>>, rows: Seq<Seq<Seq<char>>>, i: int)
    requires
        0 <= i < headers.len(),
        column_width(headers, rows, i) != headers[i].len(),
    ensures
        exists|r: int|
            0 <= r < rows.len() && i < (#[trigger] rows[r]).len() && rows[r][i].len()
                == column_width(headers, rows, i),
    decreases rows.len(),
{
    let front = rows.drop_last();
    let last = rows.len() - 1;
    if column_width(headers, rows, i) == column_width(headers, front, i) {
        lemma_column_width_taken(headers, front, i);
        let r = choose|r: int|
            0 <= r < front.len() && i < (#[trigger] front[r]).len() && front[r][i].len()
                == column_width(headers, front, i);
        assert(rows[r] == front[r]);
    } else {
        assert(rows[last][i].len() == column_width(headers, rows, i));
    }
}

/// A column is as wide as the widest of its header and its cells: none is wider, and one is as
/// wide. There are as many columns as headers.
pub proof fn law_column_widths(headers: Seq<Seq<char>>, rows: Seq<Seq<Seq<char>>>)
    ensures
        column_widths(headers, rows).len() == headers.len(),
        forall|i: int|
            0 <= i < headers.len() ==> headers[i].len() <= #[trigger] column_widths(
                headers,
                rows,
            )[i],
        forall|r: int, i: int|
            #![trigger rows[r][i]]
            0 <= r < rows.len() && 0 <= i < headers.len() && i < rows[r].len() ==> rows[r][i].len()
                <= column_widths(headers, rows)[i],
        forall|i: int|
            0 <= i < headers.len() && #[trigger] column_widths(headers, rows)[i]
                != headers[i].len() ==> exists|r: int|
                0 <= r < rows.len() && i < (#[trigger] rows[r]).len() && rows[r][i].len()
                    == column_widths(headers, rows)[i],
{
    let widths = column_widths(headers, rows);
    assert forall|i: int| 0 <= i < headers.len() implies headers[i].len() <= #[trigger] widths[i] by {
        lemma_column_width(headers, rows, i);
    }
    assert forall|r: int, i: int|
        #![trigger rows[r][i]]
        0 <= r < rows.len() && 0 <= i < headers.len() && i < rows[r].len() implies rows[r][i].len()
        <= widths[i] by {
        lemma_column_width(headers, rows, i);
        assert(cell(rows[r], i).len() <= widths[i]);
    }
    assert forall|i: int|
        0 <= i < headers.len() && #[trigger] widths[i] != headers[i].len() implies exists|r: int|
        0 <= r < rows.len() && i < (#[trigger] rows[r]).len() && rows[r][i].len() == widths[i] by {
        lemma_column_width_taken(headers, rows, i);
    }
}

/// Column `i` of a line shows the cell of `row`, whole and then blank up to the width.
pub open spec fn shows_cell(
    line: Seq<char>,
    row: Seq<Seq<char>>,
    widths: Seq<nat>,
    i: int,
) -> bool {
    let from = column_start(widths, i);
    &&& cell(row, i).len() <= widths[i]
    &&& 0 <= from
    &&& from + widths[i] <= line.len()
    &&& line.subrange(from, from + widths[i]) == cell(row, i) + repeated(
        ' ',
        (widths[i] - cell(row, i).len()) as nat,
    )
}

/// In aligned text the columns stand below each other: all lines, the rule included, are equally
/// long, and in the line of the headers as in that of every row each column starts at the same
/// place, shows its cell whole and is blank up to its width.
pub proof fn law_columns_align(headers: Seq<Seq<char>>, rows: Seq<Seq<Seq<char>>>)
    ensures
        ({
            let widths = column_widths(headers, rows);
            let head = aligned_line(headers, widths);
            &&& joined(rules(widths), gap()).len() == head.len()
            &&& forall|i: int|
                0 <= i < headers.len() ==> #[trigger] shows_cell(head, headers, widths, i)
            &&& forall|r: int|
                0 <= r < rows.len() ==> aligned_line(#[trigger] rows[r], widths).len()
                    == head.len()
            &&& forall|r: int, i: int|
                0 <= r < rows.len() && 0 <= i < headers.len() ==> #[trigger] shows_cell(
                    aligned_line(rows[r], widths),
                    rows[r],
                    widths,
                    i,
                )
        }),
{
    let widths = column_widths(headers, rows);
    lemma_joined_columns(rules(widths), widths);
    assert forall|i: int| 0 <= i < headers.len() implies cell(headers, i).len()
        <= #[trigger] widths[i] by {
        lemma_column_width(headers, rows, i);
    }
    lemma_line_aligns(headers, widths);
    assert forall|r: int| 0 <= r < rows.len() implies line_aligns(#[trigger] rows[r], widths) by {
        assert forall|i: int| 0 <= i < widths.len() implies cell(rows[r], i).len()
            <= #[trigger] widths[i] by {
            lemma_column_width(headers, rows, i);
        }
        lemma_line_aligns(rows[r], widths);
    }
}

/// `part` stands in `text` from that place on.
pub open spec fn stands_at(text: Seq<char>, from: int, part: Seq<char>) -> bool {
    &&& 0 <= from
    &&& from + part.len() <= text.len()
    &&& text.subrange(from, from + part.len()) == part
}

proof fn lemma_stands_in_front(front: Seq<char>, back: Seq<char>, from: int, part: Seq<char>)
    requires
        stands_at(front, from, part),
    ensures
        stands_at(front + back, from, part),
{
    assert((front + back).subrange(from, from + part.len()) =~= front.subrange(
        from,
        from + part.len(),
    ));
}

/// Equally long parts stand, joined, at equal distances, with the separator between each two.
proof fn lemma_joined_lines(parts: Seq<Seq<char>>, separator: Seq<char>, len: int, step: int)
    requires
        parts.len() > 0,
        0 <= len,
        step == len + separator.len(),
        forall|k: int| 0 <= k < parts.len() ==> (#[trigger] parts[k]).len() == len,
    ensures
        joined(parts, separator).len() == parts.len() * step - separator.len(),
        forall|k: int|
            #![trigger parts[k]]
            0 <= k < parts.len() ==> stands_at(joined(parts, separator), k * step, parts[k]),
        forall|k: int|
            #![trigger parts[k]]
            0 <= k < parts.len() - 1 ==> parts[k].len() == len && stands_at(
                joined(parts, separator),
                k * step + len,
                separator,
            ),
    decreases parts.len(),
{
    let text = joined(parts, separator);
    let n = parts.len() - 1;
    if n == 0 {
        assert(1 * step == step && 0 * step == 0) by (nonlinear_arith);
        assert(parts.len() * step == step);
        assert(text.subrange(0, len) =~= parts[0]);
        assert(stands_at(text, 0 * step, parts[0]));
    } else {
        let front = parts.drop_last();
        let before = joined(front, separator);
        let last = parts[n];
        lemma_joined_lines(front, separator, len, step);
        assert((n + 1) * step == n * step + step) by (nonlinear_arith);
        assert((n - 1) * step + step == n * step) by (nonlinear_arith);
        assert(before.len() == n * step - separator.len());
        assert(text =~= before + (separator + last));
        assert(stands_at(text, n * step, last)) by {
            assert(text.subrange(n * step, n * step + len) =~= last);
        }
        assert(stands_at(text, (n - 1) * step + len, separator)) by {
            assert(text.subrange(before.len() as int, before.len() as int + separator.len())
                =~= separator);
        }
        assert forall|k: int| #![trigger parts[k]] 0 <= k < parts.len() implies stands_at(
            text,
            k * step,
            parts[k],
        ) by {
            if k < n {
                assert(front[k] == parts[k]);
                lemma_stands_in_front(before, separator + last, k * step, parts[k]);
            }
        }
        assert forall|k: int| #![trigger parts[k]] 0 <= k < parts.len() - 1 implies parts[k].len()
            == len && stands_at(text, k * step + len, separator) by {
            assert(front[k] == parts[k]);
            if k < n - 1 {
                lemma_stands_in_front(before, separator + last, k * step + len, separator);
            }
        }
    }
}

/// Between two columns there is a gap.
proof fn lemma_joined_gaps(parts: Seq<Seq<char>>, widths: Seq<nat>)
    requires
        parts.len() == widths.len(),
        forall|i: int| 0 <= i < parts.len() ==> (#[trigger] parts[i]).len() == widths[i],
    ensures
        forall|i: int|
            0 <= i < parts.len() - 1 ==> stands_at(
                joined(parts, gap()),
                #[trigger] column_start(widths, i) + widths[i],
                gap(),
            ),
    decreases parts.len(),
{
    let line = joined(parts, gap());
    if parts.len() > 1 {
        let n = parts.len() - 1;
        let front = parts.drop_last();
        let less = widths.drop_last();
        let before = joined(front, gap());
        lemma_joined_columns(front, less);
        lemma_joined_gaps(front, less);
        assert(line =~= before + (gap() + parts[n]));
        assert forall|i: int| 0 <= i < parts.len() - 1 implies stands_at(
            line,
            #[trigger] column_start(widths, i) + widths[i],
            gap(),
        ) by {
            lemma_column_start(widths, less, i);
            let from = column_start(less, i) + less[i];
            if i < n - 1 {
                lemma_stands_in_front(before, gap() + parts[n], from, gap());
            } else {
                assert(column_start(less, n) == from + gap().len());
                assert(before.len() == from);
                assert(line.subrange(from, from + gap().len()) =~= gap());
            }
        }
    }
}

/// The lines of aligned text.
spec fn table_lines(headers: Seq<Seq<char>>, rows: Seq<Seq<Seq<char>>>) -> Seq<Seq<char>> {
    let widths = column_widths(headers, rows);
    seq![aligned_line(headers, widths), joined(rules(widths), gap())] + Seq::new(
        rows.len(),
        |i: int| aligned_line(rows[i], widths),
    )
}

proof fn lemma_table_lines(headers: Seq<Seq<char>>, rows: Seq<Seq<Seq<char>>>)
    ensures
        aligned_text(headers, rows) == joined(table_lines(headers, rows), line_break()),
        table_lines(headers, rows).len() == rows.len() + 2,
        forall|k: int|
            0 <= k < rows.len() + 2 ==> (#[trigger] table_lines(headers, rows)[k]).len()
                == aligned_line(headers, column_widths(headers, rows)).len(),
{
    let widths = column_widths(headers, rows);
    let lines = table_lines(headers, rows);
    law_columns_align(headers, rows);
    assert forall|k: int| 0 <= k < rows.len() + 2 implies (#[trigger] lines[k]).len()
        == aligned_line(headers, widths).len() by {
        if k >= 2 {
            assert(lines[k] == aligned_line(rows[k - 2], widths));
        }
    }
}

/// The place of line `k` in aligned text, and of the line break behind it.
proof fn lemma_text_line(headers: Seq<Seq<char>>, rows: Seq<Seq<Seq<char>>>, k: int, step: int)
    requires
        0 <= k < rows.len() + 2,
        step == aligned_line(headers, column_widths(headers, rows)).len() + 2,
    ensures
        aligned_text(headers, rows).len() == (rows.len() + 2) * step - 2,
        stands_at(aligned_text(headers, rows), k * step, table_lines(headers, rows)[k]),
        table_lines(headers, rows)[k].len() == step - 2,
        k < rows.len() + 1 ==> stands_at(
            aligned_text(headers, rows),
            k * step + step - 2,
            line_break(),
        ),
{
    let lines = table_lines(headers, rows);
    lemma_table_lines(headers, rows);
    lemma_joined_lines(lines, line_break(), step - 2, step);
    assert(lines[k].len() == step - 2);
}

/// Aligned text has a line for the headers, a rule and a line for each row, in this order, no more
/// and no fewer. All are of the same length, and between each two of them is a line break.
pub proof fn law_text_lines(headers: Seq<Seq<char>>, rows: Seq<Seq<Seq<char>>>)
    ensures
        ({
            let widths = column_widths(headers, rows);
            let text = aligned_text(headers, rows);
            let len = aligned_line(headers, widths).len() as int;
            let step = len + 2;
            &&& text.len() == (rows.len() + 2) * step - 2
            &&& text.subrange(0, len) == aligned_line(headers, widths)
            &&& text.subrange(step, step + len) == joined(rules(widths), seq![' ', ' '])
            &&& text.subrange(len, step) == seq!['\r', '\n']
            &&& forall|r: int|
                #![trigger rows[r]]
                0 <= r < rows.len() ==> text.subrange((r + 2) * step, (r + 2) * step + len)
                    == aligned_line(rows[r], widths) && text.subrange(
                    (r + 1) * step + len,
                    (r + 2) * step,
                ) == seq!['\r', '\n']
        }),
{
    let widths = column_widths(headers, rows);
    let text = aligned_text(headers, rows);
    let len = aligned_line(headers, widths).len() as int;
    let step = len + 2;
    lemma_text_line(headers, rows, 0, step);
    lemma_text_line(headers, rows, 1, step);
    assert(0 * step == 0 && 1 * step == step) by (nonlinear_arith);
    assert(gap() =~= seq![' ', ' ']);
    assert forall|r: int| #![trigger rows[r]] 0 <= r < rows.len() implies text.subrange(
        (r + 2) * step,
        (r + 2) * step + len,
    ) == aligned_line(rows[r], widths) && text.subrange((r + 1) * step + len, (r + 2) * step)
        == seq!['\r', '\n'] by {
        lemma_text_line(headers, rows, r + 2, step);
        lemma_text_line(headers, rows, r + 1, step);
        assert((r + 1) * step + step == (r + 2) * step) by (nonlinear_arith);
    }
}

/// A line of aligned text shows the cells of its row one behind the other: each starts two places
/// behind the end of the column before it, stands there whole, or not at all if the row has none,
/// and is followed by blanks up to the width of its column and then by the gap. The line ends with
/// the last column.
pub proof fn law_line_layout(row: Seq<Seq<char>>, widths: Seq<nat>)
    requires
        forall|i: int|
            0 <= i < row.len() && i < widths.len() ==> (#[trigger] row[i]).len() <= widths[i],
    ensures
        ({
            let line = aligned_line(row, widths);
            let n = widths.len();
            &&& n == 0 ==> line.len() == 0
            &&& n > 0 ==> line.len() == column_start(widths, n - 1) + widths[n - 1]
            &&& column_start(widths, 0) == 0
            &&& forall|i: int|
                #![trigger widths[i]]
                0 <= i < n - 1 ==> column_start(widths, i + 1) == column_start(widths, i)
                    + widths[i] + 2
            &&& forall|i: int|
                #![trigger row[i]]
                0 <= i < n && i < row.len() ==> line.subrange(
                    column_start(widths, i),
                    column_start(widths, i) + widths[i],
                ) == row[i] + Seq::new((widths[i] - row[i].len()) as nat, |j: int| ' ')
            &&& forall|i: int|
                #![trigger widths[i]]
                row.len() <= i < n ==> line.subrange(
                    column_start(widths, i),
                    column_start(widths, i) + widths[i],
                ) == Seq::new(widths[i], |j: int| ' ')
            &&& forall|i: int|
                #![trigger widths[i]]
                0 <= i < n - 1 ==> line[column_start(widths, i) + widths[i]] == ' '
                    && line[column_start(widths, i) + widths[i] + 1] == ' '
        }),
{
    let line = aligned_line(row, widths);
    let parts = aligned_cells(row, widths);
    let n = widths.len();
    assert forall|i: int| 0 <= i < n implies cell(row, i).len() <= #[trigger] widths[i] by {
        if i < row.len() {
            assert(row[i].len() <= widths[i]);
        }
    }
    lemma_line_aligns(row, widths);
    assert forall|i: int| 0 <= i < parts.len() implies (#[trigger] parts[i]).len() == widths[i] by {
        assert(cell(row, i).len() <= widths[i]);
    }
    lemma_joined_gaps(parts, widths);
    if n > 0 {
        assert(column_start(widths, n as int) == column_start(widths, n - 1) + widths[n - 1] + 2);
    }
    assert forall|i: int| #![trigger row[i]] 0 <= i < n && i < row.len() implies line.subrange(
        column_start(widths, i),
        column_start(widths, i) + widths[i],
    ) == row[i] + Seq::new((widths[i] - row[i].len()) as nat, |j: int| ' ') by {
        assert(shows_cell(line, row, widths, i));
        assert(repeated(' ', (widths[i] - row[i].len()) as nat) =~= Seq::new(
            (widths[i] - row[i].len()) as nat,
            |j: int| ' ',
        ));
    }
    assert forall|i: int| #![trigger widths[i]] row.len() <= i < n implies line.subrange(
        column_start(widths, i),
        column_start(widths, i) + widths[i],
    ) == Seq::new(widths[i], |j: int| ' ') by {
        assert(shows_cell(line, row, widths, i));
        assert(cell(row, i) + repeated(' ', (widths[i] - cell(row, i).len()) as nat) =~= Seq::new(
            widths[i],
            |j: int| ' ',
        ));
    }
    assert forall|i: int| #![trigger widths[i]] 0 <= i < n - 1 implies line[column_start(widths, i)
        + widths[i]] == ' ' && line[column_start(widths, i) + widths[i] + 1] == ' ' by {
        let from = column_start(widths, i) + widths[i];
        assert(stands_at(line, from, gap()));
        assert(line.subrange(from, from + 2)[0] == line[from]);
        assert(line.subrange(from, from + 2)[1] == line[from + 1]);
    }
}

/// The rule below the headers is dashes over the whole width of every column, and blank between
/// them.
pub proof fn law_rule_layout(widths: Seq<nat>)
    ensures
        ({
            let rule = joined(rules(widths), seq![' ', ' ']);
            let n = widths.len();
            &&& n == 0 ==> rule.len() == 0
            &&& n > 0 ==> rule.len() == column_start(widths, n - 1) + widths[n - 1]
            &&& forall|i: int|
                #![trigger widths[i]]
                0 <= i < n ==> rule.subrange(
                    column_start(widths, i),
                    column_start(widths, i) + widths[i],
                ) == Seq::new(widths[i], |j: int| '-')
            &&& forall|i: int|
                #![trigger widths[i]]
                0 <= i < n - 1 ==> rule[column_start(widths, i) + widths[i]] == ' '
                    && rule[column_start(widths, i) + widths[i] + 1] == ' '
        }),
{
    let rule = joined(rules(widths), gap());
    let n = widths.len();
    lemma_joined_columns(rules(widths), widths);
    lemma_joined_gaps(rules(widths), widths);
    if n > 0 {
        assert(column_start(widths, n as int) == column_start(widths, n - 1) + widths[n - 1] + 2);
    }
    assert forall|i: int| #![trigger widths[i]] 0 <= i < n implies rule.subrange(
        column_start(widths, i),
        column_start(widths, i) + widths[i],
    ) == Seq::new(widths[i], |j: int| '-') by {
        assert(0 <= column_start(widths, i));
        assert(rules(widths)[i] =~= Seq::new(widths[i], |j: int| '-'));
    }
    assert forall|i: int| #![trigger widths[i]] 0 <= i < n - 1 implies rule[column_start(widths, i)
        + widths[i]] == ' ' && rule[column_start(widths, i) + widths[i] + 1] == ' ' by {
        let from = column_start(widths, i) + widths[i];
        assert(stands_at(rule, from, gap()));
        assert(rule.subrange(from, from + 2)[0] == rule[from]);
        assert(rule.subrange(from, from + 2)[1] == rule[from + 1]);
    }
}

proof fn lemma_same_width(
    headers: Seq<Seq<char>>,
    rows: Seq<Seq<Seq<char>>>,
    others: Seq<Seq<Seq<char>>>,
    i: int,
)
    requires
        rows.len() == others.len(),
        forall|r: int|
            0 <= r < rows.len() ==> cell(#[trigger] rows[r], i) == cell(others[r], i),
    ensures
        column_width(headers, rows, i) == column_width(headers, others, i),
    decreases rows.len(),
{
    if rows.len() > 0 {
        let front = rows.drop_last();
        let others_front = others.drop_last();
        assert forall|r: int| 0 <= r < front.len() implies cell(#[trigger] front[r], i) == cell(
            others_front[r],
            i,
        ) by {
            assert(front[r] == rows[r]);
        }
        lemma_same_width(headers, front, others_front, i);
        assert(cell(rows[rows.len() - 1], i) == cell(others[rows.len() - 1], i));
    }
}

/// Aligned text shows the cells below the headers and nothing else: cells beyond the last header
/// make no difference, nor does it make one whether a cell is missing or empty.
pub proof fn law_text_shows_headed_cells(
    headers: Seq<Seq<char>>,
    rows: Seq<Seq<Seq<char>>>,
    others: Seq<Seq<Seq<char>>>,
)
    requires
        rows.len() == others.len(),
        forall|r: int, i: int|
            0 <= r < rows.len() && 0 <= i < headers.len() ==> #[trigger] cell(rows[r], i) == cell(
                others[r],
                i,
            ),
    ensures
        aligned_text(headers, rows) == aligned_text(headers, others),
{
    let widths = column_widths(headers, rows);
    assert forall|i: int| 0 <= i < headers.len() implies column_width(headers, rows, i)
        == column_width(headers, others, i) by {
        lemma_same_width(headers, rows, others, i);
    }
    assert(widths =~= column_widths(headers, others));
    assert forall|r: int| 0 <= r < rows.len() implies aligned_line(rows[r], widths)
        == aligned_line(others[r], widths) by {
        assert(aligned_cells(rows[r], widths) =~= aligned_cells(others[r], widths));
    }
    assert(Seq::new(rows.len(), |i: int| aligned_line(rows[i], widths)) =~= Seq::new(
        others.len(),
        |i: int| aligned_line(others[i], widths),
    ));
}

spec fn line_aligns(row: Seq<Seq<char>>, widths: Seq<nat>) -> bool {
    let line = aligned_line(row, widths);
    &&& line.len() == if widths.len() == 0 {
        0
    } else {
        column_start(widths, widths.len() as int) - gap().len()
    }
    &&& forall|i: int| 0 <= i < widths.len() ==> #[trigger] shows_cell(line, row, widths, i)
}

proof fn lemma_line_aligns(row: Seq<Seq<char>>, widths: Seq<nat>)
    requires
        forall|i: int| 0 <= i < widths.len() ==> cell(row, i).len() <= #[trigger] widths[i],
    ensures
        line_aligns(row, widths),
{
    let parts = aligned_cells(row, widths);
    assert forall|i: int| 0 <= i < parts.len() implies (#[trigger] parts[i]).len() == widths[i] by {
        assert(cell(row, i).len() <= widths[i]);
    }
    lemma_joined_columns(parts, widths);
    let line = aligned_line(row, widths);
    assert forall|i: int| 0 <= i < widths.len() implies #[trigger] shows_cell(
        line,
        row,
        widths,
        i,
    ) by {
        let from = column_start(widths, i);
        assert(cell(row, i).len() <= widths[i]);
        assert(line.subrange(from, from + widths[i]) == parts[i]);
        assert(padded(cell(row, i), widths[i]) =~= cell(row, i) + repeated(
            ' ',
            (widths[i] - cell(row, i).len()) as nat,
        ));
    }
}

} // verus!
