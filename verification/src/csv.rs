//! Trajectories as comma-separated text: what a file holds, and why one is refused.
//!
//! What number a field stands for is said in [`crate::number`].

use crate::text::{chars_of, push_decimal, split_chars, trim_chars};
use vstd::prelude::*;

verus! {

/// The number of fields of a row: time, position, velocity, acceleration, attitude, rates.
pub const COLUMNS: usize = 17;

/// The first line of a file that is written here.
pub open spec fn header() -> Seq<char> {
    "t,pos_n,pos_e,pos_d,vel_n,vel_e,vel_d,acc_n,acc_e,acc_d,qw,qx,qy,qz,p,q,r"@
}

/// A trimmed line that holds no data: nothing at all, a comment or a header.
pub open spec fn skipped(line: Seq<char>) -> bool {
    ||| line.len() == 0
    ||| line[0] == '#'
    ||| line.len() >= 2 && line[0] == 't' && line[1] == ','
}

/// The fields of a line, trimmed.
pub open spec fn fields_of(line: Seq<char>) -> Seq<Seq<char>> {
    let raw = crate::text::split(line, ',');
    Seq::new(raw.len(), |i: int| crate::text::trim(raw[i]))
}

/// The rows that lines hold, each with the number of its line, counted from one.
pub open spec fn rows_of(lines: Seq<Seq<char>>) -> Seq<(int, Seq<Seq<char>>)>
    decreases lines.len(),
{
    if lines.len() == 0 {
        Seq::empty()
    } else {
        let before = rows_of(lines.drop_last());
        let line = crate::text::trim(lines.last());
        if skipped(line) {
            before
        } else {
            before.push((lines.len() as int, fields_of(line)))
        }
    }
}

/// A row of a file, with the number of its line.
#[derive(Clone, Debug, PartialEq, Eq)]
pub struct CsvRow {
    pub line: usize,
    pub fields: Vec<Vec<char>>,
}

impl CsvRow {
    pub open spec fn view(&self) -> (int, Seq<Seq<char>>) {
        (self.line as int, crate::text::pieces(self.fields@))
    }
}

pub open spec fn rows_view(rows: Seq<CsvRow>) -> Seq<(int, Seq<Seq<char>>)> {
    Seq::new(rows.len(), |i: int| rows[i].view())
}

fn is_skipped(line: &[char]) -> (r: bool)
    ensures
        r == skipped(line@),
{
    line.len() == 0 || line[0] == '#' || (line.len() >= 2 && line[0] == 't' && line[1] == ',')
}

fn split_fields(line: &[char]) -> (r: Vec<Vec<char>>)
    ensures
        crate::text::pieces(r@) == fields_of(line@),
{
    let raw: Vec<Vec<char>> = split_chars(line, ',');
    let mut out: Vec<Vec<char>> = Vec::new();
    let mut i: usize = 0;
    while i < raw.len()
        invariant
            i <= raw@.len(),
            out@.len() == i,
            forall|k: int| 0 <= k < i ==> (#[trigger] out@[k])@ == crate::text::trim(raw@[k]@),
        decreases raw@.len() - i,
    {
        out.push(trim_chars(raw[i].as_slice()));
        i += 1;
    }
    proof {
        let all = crate::text::split(line@, ',');
        assert(crate::text::pieces(raw@) == all);
        assert forall|k: int| 0 <= k < out@.len() implies crate::text::pieces(out@)[k]
            == fields_of(line@)[k] by {
            assert(crate::text::pieces(raw@)[k] == raw@[k]@);
        }
        assert(crate::text::pieces(out@) =~= fields_of(line@));
    }
    out
}

/// The rows of a file.
pub fn read_rows(text: &str) -> (r: Vec<CsvRow>)
    ensures
        rows_view(r@) == rows_of(crate::text::split(text@, '\n')),
{
    let chars: Vec<char> = chars_of(text);
    let lines: Vec<Vec<char>> = split_chars(chars.as_slice(), '\n');
    let ghost all = crate::text::split(text@, '\n');
    let mut out: Vec<CsvRow> = Vec::new();
    let mut i: usize = 0;
    assert(rows_view(out@) =~= rows_of(all.take(0)));
    while i < lines.len()
        invariant
            i <= lines@.len(),
            crate::text::pieces(lines@) == all,
            rows_view(out@) == rows_of(all.take(i as int)),
        decreases lines@.len() - i,
    {
        let ghost before = out@;
        proof {
            assert(all.take(i + 1).drop_last() =~= all.take(i as int));
            assert(all.take(i + 1).last() == lines@[i as int]@);
        }
        let line: Vec<char> = trim_chars(lines[i].as_slice());
        if !is_skipped(line.as_slice()) {
            let row: CsvRow = CsvRow { line: i + 1, fields: split_fields(line.as_slice()) };
            let ghost seen = row.view();
            out.push(row);
            assert(rows_view(out@) =~= rows_view(before).push(seen));
        }
        i += 1;
    }
    assert(all.take(i as int) =~= all);
    out
}

/// Why a file is refused.
#[derive(Clone, Copy, Debug, PartialEq, Eq, Structural)]
pub enum CsvError {
    /// A field of the line is no number.
    Unparsable { line: usize, field: usize },
    /// The line has fewer than [`COLUMNS`] fields.
    TooFewFields { line: usize },
    /// The file has fewer than two rows.
    TooFewSamples,
}

/// A row that cannot be taken. `bad` is the first of its fields that is no number.
pub open spec fn faulty(row: CsvRow, bad: Option<usize>) -> bool {
    bad is Some || row.fields@.len() < COLUMNS
}

/// Judges the rows of a file, from the first field of each row that is no number. The first faulty
/// row decides; in it, a field that is no number comes before a missing one.
pub fn check_rows(rows: &[CsvRow], bad: &[Option<usize>]) -> (r: Result<(), CsvError>)
    requires
        rows@.len() == bad@.len(),
    ensures
        match r {
            Ok(_) => {
                &&& rows@.len() >= 2
                &&& forall|i: int| 0 <= i < rows@.len() ==> !faulty(#[trigger] rows@[i], bad@[i])
            },
            Err(CsvError::Unparsable { line, field }) => exists|i: int|
                {
                    &&& 0 <= i < rows@.len()
                    &&& (#[trigger] rows@[i]).line == line
                    &&& bad@[i] == Some(field)
                    &&& forall|j: int| 0 <= j < i ==> !faulty(#[trigger] rows@[j], bad@[j])
                },
            Err(CsvError::TooFewFields { line }) => exists|i: int|
                {
                    &&& 0 <= i < rows@.len()
                    &&& (#[trigger] rows@[i]).line == line
                    &&& bad@[i] is None
                    &&& rows@[i].fields@.len() < COLUMNS
                    &&& forall|j: int| 0 <= j < i ==> !faulty(#[trigger] rows@[j], bad@[j])
                },
            Err(CsvError::TooFewSamples) => {
                &&& rows@.len() < 2
                &&& forall|i: int| 0 <= i < rows@.len() ==> !faulty(#[trigger] rows@[i], bad@[i])
            },
        },
{
    let mut i: usize = 0;
    while i < rows.len()
        invariant
            i <= rows@.len(),
            rows@.len() == bad@.len(),
            forall|j: int| 0 <= j < i ==> !faulty(#[trigger] rows@[j], bad@[j]),
        decreases rows@.len() - i,
    {
        match bad[i] {
            Some(field) => {
                return Err(CsvError::Unparsable { line: rows[i].line, field });
            },
            None => {},
        }
        if rows[i].fields.len() < COLUMNS {
            return Err(CsvError::TooFewFields { line: rows[i].line });
        }
        i += 1;
    }
    if rows.len() < 2 {
        return Err(CsvError::TooFewSamples);
    }
    Ok(())
}

impl CsvError {
    /// The text of the error. `cause` says why the field is no number.
    pub open spec fn text(self, cause: Seq<char>) -> Seq<char> {
        match self {
            CsvError::Unparsable { line, .. } => "第 "@ + crate::text::decimal(line as nat)
                + " 行解析失败: "@ + cause,
            CsvError::TooFewFields { line } => "第 "@ + crate::text::decimal(line as nat)
                + " 行字段不足（需 17 列）"@,
            CsvError::TooFewSamples => "CSV 至少需要 2 个采样点"@,
        }
    }

    pub fn message(&self, cause: &str) -> (r: String)
        ensures
            r@ == self.text(cause@),
    {
        let mut out: String = String::new();
        match *self {
            CsvError::Unparsable { line, .. } => {
                out.append("第 ");
                push_decimal(&mut out, line as u64);
                out.append(" 行解析失败: ");
                out.append(cause);
            },
            CsvError::TooFewFields { line } => {
                out.append("第 ");
                push_decimal(&mut out, line as u64);
                out.append(" 行字段不足（需 17 列）");
            },
            CsvError::TooFewSamples => {
                out.append("CSV 至少需要 2 个采样点");
            },
        }
        assert(out@ =~= self.text(cause@));
        out
    }
}

/// The text of a file with these rows.
pub open spec fn csv_text(rows: Seq<Seq<Seq<char>>>) -> Seq<char>
    decreases rows.len(),
{
    if rows.len() == 0 {
        header().push('\n')
    } else {
        csv_text(rows.drop_last()) + crate::text::join(rows.last(), ',').push('\n')
    }
}

pub open spec fn strings(v: Seq<String>) -> Seq<Seq<char>> {
    Seq::new(v.len(), |i: int| v[i]@)
}

pub open spec fn string_rows(v: Seq<Vec<String>>) -> Seq<Seq<Seq<char>>> {
    Seq::new(v.len(), |i: int| strings(v[i]@))
}

/// Writes a file with these rows, under the header.
pub fn write_rows(rows: &[Vec<String>]) -> (r: String)
    ensures
        r@ == csv_text(string_rows(rows@)),
{
    let mut out: String = String::new();
    out.append("t,pos_n,pos_e,pos_d,vel_n,vel_e,vel_d,acc_n,acc_e,acc_d,qw,qx,qy,qz,p,q,r");
    out.append("\n");
    let ghost all = string_rows(rows@);
    let mut i: usize = 0;
    proof {
        reveal_strlit("\n");
        assert("\n"@ =~= seq!['\n']);
        assert(all.take(0) =~= Seq::<Seq<Seq<char>>>::empty());
        assert(out@ =~= header().push('\n'));
    }
    while i < rows.len()
        invariant
            i <= rows@.len(),
            all == string_rows(rows@),
            out@ == csv_text(all.take(i as int)),
        decreases rows@.len() - i,
    {
        let ghost before = out@;
        let ghost row = all[i as int];
        proof {
            reveal_strlit("\n");
            reveal_strlit(",");
            assert("\n"@ =~= seq!['\n']);
            assert(","@ =~= seq![',']);
            assert(all.take(i + 1).drop_last() =~= all.take(i as int));
            assert(row.take(0) =~= Seq::<Seq<char>>::empty());
        }
        let mut j: usize = 0;
        while j < rows[i].len()
            invariant
                i < rows@.len(),
                all == string_rows(rows@),
                row == all[i as int],
                j <= rows@[i as int]@.len(),
                ","@ =~= seq![','],
                out@ =~= before + crate::text::join(row.take(j as int), ','),
            decreases rows@[i as int]@.len() - j,
        {
            proof {
                assert(row.len() == rows@[i as int]@.len());
                assert(row.take(j + 1).drop_last() =~= row.take(j as int));
                assert(row.take(j + 1).last() == rows@[i as int]@[j as int]@);
            }
            if j > 0 {
                out.append(",");
            }
            out.append(rows[i][j].as_str());
            j += 1;
        }
        assert(row.take(j as int) =~= row);
        out.append("\n");
        assert(out@ =~= before + crate::text::join(row, ',').push('\n'));
        i += 1;
    }
    assert(all.take(i as int) =~= all);
    out
}

/// A field that survives being written and read: not empty, without whitespace and commas.
pub open spec fn plain_field(f: Seq<char>) -> bool {
    f.len() > 0 && forall|i: int|
        0 <= i < f.len() ==> !crate::text::whitespace(#[trigger] f[i]) && f[i] != ','
}

/// A row that survives being written and read: of plain fields, and not looking like a comment or a
/// header.
pub open spec fn plain_row(row: Seq<Seq<char>>) -> bool {
    &&& row.len() > 0
    &&& forall|i: int| 0 <= i < row.len() ==> plain_field(#[trigger] row[i])
    &&& row[0][0] != '#'
    &&& row[0] != seq!['t']
}

proof fn lemma_joined_row(row: Seq<Seq<char>>)
    requires
        row.len() > 0,
        forall|i: int| 0 <= i < row.len() ==> plain_field(#[trigger] row[i]),
    ensures
        ({
            let line = crate::text::join(row, ',');
            &&& line.len() >= row[0].len()
            &&& line.take(row[0].len() as int) == row[0]
            &&& !crate::text::whitespace(line.last())
            &&& forall|k: int| 0 <= k < line.len() ==> !crate::text::whitespace(#[trigger] line[k])
        }),
    decreases row.len(),
{
    let line = crate::text::join(row, ',');
    assert(plain_field(row[0]));
    if row.len() == 1 {
        assert(line.take(row[0].len() as int) =~= row[0]);
        assert(line[line.len() - 1] == line.last());
    } else {
        let init = row.drop_last();
        assert forall|i: int| 0 <= i < init.len() implies plain_field(#[trigger] init[i]) by {
            assert(init[i] == row[i]);
        }
        lemma_joined_row(init);
        let head = crate::text::join(init, ',');
        let last = row.last();
        assert(plain_field(row[row.len() - 1]));
        assert(init[0] == row[0]);
        assert forall|k: int| 0 <= k < line.len() implies !crate::text::whitespace(
            #[trigger] line[k],
        ) by {
            if k < head.len() {
                assert(line[k] == head[k]);
            } else if k > head.len() {
                assert(line[k] == last[k - head.len() - 1]);
            }
        }
        assert(line[line.len() - 1] == line.last());
        assert(line.take(row[0].len() as int) =~= head.take(row[0].len() as int));
    }
}

/// The lines of a file with these rows, but for the empty one at its end.
pub open spec fn lines_of(rows: Seq<Seq<Seq<char>>>) -> Seq<Seq<char>> {
    seq![header()] + Seq::new(rows.len(), |i: int| crate::text::join(rows[i], ','))
}

proof fn lemma_csv_text_joined(rows: Seq<Seq<Seq<char>>>)
    ensures
        csv_text(rows) == crate::text::join(lines_of(rows), '\n').push('\n'),
    decreases rows.len(),
{
    let lines = lines_of(rows);
    if rows.len() == 0 {
        assert(lines =~= seq![header()]);
    } else {
        let init = rows.drop_last();
        lemma_csv_text_joined(init);
        let row = crate::text::join(rows.last(), ',');
        assert(lines.drop_last() =~= lines_of(init));
        assert(lines.last() == row);
        assert(crate::text::join(lines_of(init), '\n').push('\n') + row.push('\n')
            =~= (crate::text::join(lines_of(init), '\n').push('\n') + row).push('\n'));
    }
}

/// The rows of the lines of a file are those that were written.
proof fn lemma_rows_of_lines(rows: Seq<Seq<Seq<char>>>)
    requires
        forall|i: int| 0 <= i < rows.len() ==> plain_row(#[trigger] rows[i]),
    ensures
        rows_of(lines_of(rows)) == Seq::new(rows.len(), |i: int| (i + 2, rows[i])),
    decreases rows.len(),
{
    let lines = lines_of(rows);
    if rows.len() == 0 {
        reveal_strlit("t,pos_n,pos_e,pos_d,vel_n,vel_e,vel_d,acc_n,acc_e,acc_d,qw,qx,qy,qz,p,q,r");
        assert(lines =~= seq![header()]);
        assert(crate::text::trim(header()) == header());
        assert(skipped(header()));
        assert(lines.drop_last() =~= Seq::<Seq<char>>::empty());
        assert(lines.last() == header());
        assert(rows_of(lines.drop_last()) =~= Seq::<(int, Seq<Seq<char>>)>::empty());
        assert(rows_of(lines) =~= Seq::<(int, Seq<Seq<char>>)>::empty());
    } else {
        let init = rows.drop_last();
        assert forall|i: int| 0 <= i < init.len() implies plain_row(#[trigger] init[i]) by {
            assert(init[i] == rows[i]);
        }
        lemma_rows_of_lines(init);
        let row = rows.last();
        let line = crate::text::join(row, ',');
        assert(plain_row(rows[rows.len() - 1]));
        lemma_joined_row(row);
        assert(lines.drop_last() =~= lines_of(init));
        assert(lines.last() == line);
        let first = row[0];
        assert(plain_field(first));
        assert(line[0] == line.take(first.len() as int)[0]);
        assert(crate::text::trim(line) == line);
        if line.len() >= 2 && line[0] == 't' && line[1] == ',' {
            if first.len() >= 2 {
                assert(line[1] == line.take(first.len() as int)[1]);
                assert(first[1] != ',');
            }
            assert(first =~= seq!['t']);
        }
        assert(!skipped(line));
        assert forall|i: int| 0 <= i < row.len() implies !(#[trigger] row[i]).contains(',') by {
            assert(plain_field(row[i]));
        }
        crate::text::lemma_split_join(row, ',');
        assert forall|i: int| 0 <= i < row.len() implies crate::text::trim(#[trigger] row[i])
            == row[i] by {
            assert(plain_field(row[i]));
            assert(!crate::text::whitespace(row[i][0]));
            assert(!crate::text::whitespace(row[i][row[i].len() - 1]));
        }
        assert(fields_of(line) =~= row);
        assert(rows_of(lines) =~= Seq::new(rows.len(), |i: int| (i + 2, rows[i])));
    }
}

/// Reading gives back what was written: the rows of a written file are the rows that it was written
/// from, in order, below the header.
pub proof fn lemma_csv_roundtrip(rows: Seq<Seq<Seq<char>>>)
    requires
        forall|i: int| 0 <= i < rows.len() ==> plain_row(#[trigger] rows[i]),
    ensures
        rows_of(crate::text::split(csv_text(rows), '\n')) == Seq::new(
            rows.len(),
            |i: int| (i + 2, rows[i]),
        ),
{
    let lines = lines_of(rows);
    let ended = lines.push(Seq::empty());
    lemma_csv_text_joined(rows);
    assert(ended.drop_last() =~= lines);
    assert(crate::text::join(ended, '\n') =~= csv_text(rows));
    assert forall|i: int| 0 <= i < ended.len() implies !(#[trigger] ended[i]).contains('\n') by {
        if i == 0 {
            reveal_strlit(
                "t,pos_n,pos_e,pos_d,vel_n,vel_e,vel_d,acc_n,acc_e,acc_d,qw,qx,qy,qz,p,q,r",
            );
            assert(ended[0] == header());
        } else if i < lines.len() {
            let row = rows[i - 1];
            assert(plain_row(row));
            lemma_joined_row(row);
            assert(ended[i] == crate::text::join(row, ','));
            assert(crate::text::whitespace('\n'));
        }
    }
    crate::text::lemma_split_join(ended, '\n');
    lemma_rows_of_lines(rows);
    assert(crate::text::trim(Seq::<char>::empty()) == Seq::<char>::empty());
    assert(rows_of(ended) == rows_of(lines));
}

/// A line holds no data where it is empty, begins a comment, or begins with the name of the first
/// column; every other line is a row.
pub proof fn lemma_skipped(line: Seq<char>)
    ensures
        skipped(line) <==> line.len() == 0 || seq!['#'].is_prefix_of(line) || seq![
            't',
            ',',
        ].is_prefix_of(line),
{
    if line.len() >= 1 && line[0] == '#' {
        assert(seq!['#'] =~= line.subrange(0, 1));
    }
    if seq!['#'].is_prefix_of(line) {
        assert(seq!['#'][0] == line.subrange(0, 1)[0]);
    }
    if line.len() >= 2 && line[0] == 't' && line[1] == ',' {
        assert(seq!['t', ','] =~= line.subrange(0, 2));
    }
    if seq!['t', ','].is_prefix_of(line) {
        assert(seq!['t', ','][0] == line.subrange(0, 2)[0]);
        assert(seq!['t', ','][1] == line.subrange(0, 2)[1]);
    }
}

/// The fields of a line are what stands between its commas, without the blanks around it.
pub proof fn lemma_fields(parts: Seq<Seq<char>>)
    requires
        parts.len() >= 1,
        forall|i: int| 0 <= i < parts.len() ==> !(#[trigger] parts[i]).contains(','),
    ensures
        fields_of(crate::text::join(parts, ',')).len() == parts.len(),
        forall|i: int|
            0 <= i < parts.len() ==> #[trigger] fields_of(crate::text::join(parts, ','))[i]
                == crate::text::trim(parts[i]),
{
    crate::text::lemma_split_join(parts, ',');
}

/// Each line with data gives one row, under its own number; no other line gives one, and the rows
/// stand in the order of their lines.
pub proof fn lemma_rows_of(lines: Seq<Seq<char>>)
    ensures
        forall|k: int|
            0 <= k < rows_of(lines).len() ==> {
                let (line, fields) = #[trigger] rows_of(lines)[k];
                &&& 1 <= line <= lines.len()
                &&& !skipped(crate::text::trim(lines[line - 1]))
                &&& fields == fields_of(crate::text::trim(lines[line - 1]))
            },
        forall|j: int, k: int|
            0 <= j < k < rows_of(lines).len() ==> (#[trigger] rows_of(lines)[j]).0 < (
            #[trigger] rows_of(lines)[k]).0,
        forall|i: int|
            0 <= i < lines.len() && !skipped(crate::text::trim(#[trigger] lines[i])) ==> rows_of(
                lines,
            ).contains((i + 1, fields_of(crate::text::trim(lines[i])))),
    decreases lines.len(),
{
    if lines.len() > 0 {
        let t = lines.drop_last();
        lemma_rows_of(t);
        let before = rows_of(t);
        let all = rows_of(lines);
        assert(lines.last() == lines[lines.len() - 1]);
        assert forall|k: int| 0 <= k < all.len() implies {
            let (line, fields) = #[trigger] all[k];
            &&& 1 <= line <= lines.len()
            &&& !skipped(crate::text::trim(lines[line - 1]))
            &&& fields == fields_of(crate::text::trim(lines[line - 1]))
        } by {
            if k < before.len() {
                assert(all[k] == before[k]);
                assert(t[before[k].0 - 1] == lines[before[k].0 - 1]);
            }
        }
        assert forall|j: int, k: int| 0 <= j < k < all.len() implies (#[trigger] all[j]).0 < (
        #[trigger] all[k]).0 by {
            assert(all[j] == before[j]);
            if k < before.len() {
                assert(all[k] == before[k]);
            }
        }
        assert forall|i: int|
            0 <= i < lines.len() && !skipped(crate::text::trim(#[trigger] lines[i])) implies all.contains(
            (i + 1, fields_of(crate::text::trim(lines[i]))),
        ) by {
            if i < t.len() {
                assert(t[i] == lines[i]);
                let k = choose|k: int|
                    0 <= k < before.len() && before[k] == (
                        i + 1,
                        fields_of(crate::text::trim(lines[i])),
                    );
                assert(all[k] == before[k]);
            } else {
                assert(all.last() == (i + 1, fields_of(crate::text::trim(lines[i]))));
                assert(all[all.len() - 1] == all.last());
            }
        }
    }
}

/// A row can be taken where every field is a number and there are at least seventeen.
pub proof fn lemma_faulty(row: CsvRow, bad: Option<usize>)
    ensures
        !faulty(row, bad) <==> bad is None && row.fields@.len() >= 17,
{
}

/// A file is its header and its rows, a line for each, and a line is its fields with commas between
/// them.
pub proof fn lemma_csv_text(rows: Seq<Seq<Seq<char>>>, more: Seq<Seq<char>>)
    ensures
        csv_text(rows.push(more)) == csv_text(rows) + crate::text::join(more, ',').push('\n'),
        csv_text(Seq::empty())
            == "t,pos_n,pos_e,pos_d,vel_n,vel_e,vel_d,acc_n,acc_e,acc_d,qw,qx,qy,qz,p,q,r"@.push(
            '\n',
        ),
{
    assert(rows.push(more).drop_last() =~= rows);
}

} // verus!
