//! The simple, deterministic parsing path.
//!
//! `fast_stream_valid_csv` tokenizes a well-formed buffer line by line:
//! fields are separated by the delimiter byte, a quote toggles quoted mode,
//! and a doubled quote inside a quoted field stands for one literal quote.
//! `fast_stream_csv_with_unescaped_delimiters` additionally repairs rows
//! that show too many fields by merging the excess into one chosen column.

use vstd::prelude::*;
use crate::errors::CsvError;
use crate::Position;
use crate::cells_view;
use crate::table_view;

verus! {

pub const LINE_FEED: u8 = 10;
pub const CARRIAGE_RETURN: u8 = 13;

pub const NOT_ENOUGH_COLUMNS_MSG: &'static str =
    "Not enough columns. There may be an unescaped newline in a field.";

/// The fields that tokenizing the rest of a line produces, given the field
/// collected so far (`cur`) and whether the scan stands inside quotes.
pub open spec fn tok_fields(s: Seq<u8>, d: u8, q: u8, cur: Seq<u8>, inq: bool) -> Seq<Seq<u8>>
    decreases s.len(),
{
    if s.len() == 0 {
        seq![cur]
    } else if s[0] == q {
        if inq && s.len() >= 2 && s[1] == q {
            tok_fields(s.skip(2), d, q, cur.push(q), inq)
        } else {
            tok_fields(s.skip(1), d, q, cur, !inq)
        }
    } else if s[0] == d && !inq {
        seq![cur] + tok_fields(s.skip(1), d, q, Seq::empty(), false)
    } else {
        tok_fields(s.skip(1), d, q, cur.push(s[0]), inq)
    }
}

/// The fields of one line under the simple tokenizer.
pub open spec fn tokenize_line(s: Seq<u8>, d: u8, q: u8) -> Seq<Seq<u8>> {
    tok_fields(s, d, q, Seq::empty(), false)
}

/// A line with one trailing carriage return removed, as the line reader does.
pub open spec fn strip_cr(l: Seq<u8>) -> Seq<u8> {
    if l.len() > 0 && l[l.len() - 1] == CARRIAGE_RETURN {
        l.take(l.len() - 1)
    } else {
        l
    }
}

/// The lines of a buffer: split at every line feed, each line stripped of a
/// trailing carriage return; a trailing line feed produces no empty line.
pub open spec fn split_rec(s: Seq<u8>, cur: Seq<u8>) -> Seq<Seq<u8>>
    decreases s.len(),
{
    if s.len() == 0 {
        if cur.len() == 0 {
            Seq::empty()
        } else {
            seq![strip_cr(cur)]
        }
    } else if s[0] == LINE_FEED {
        seq![strip_cr(cur)] + split_rec(s.skip(1), Seq::empty())
    } else {
        split_rec(s.skip(1), cur.push(s[0]))
    }
}

pub open spec fn split_lines(s: Seq<u8>) -> Seq<Seq<u8>> {
    split_rec(s, Seq::empty())
}

/// The rows that the simple path produces from a whole buffer.
pub open spec fn valid_csv_rows(s: Seq<u8>, d: u8, q: u8) -> Seq<Seq<Seq<u8>>> {
    split_lines(s).map_values(|l: Seq<u8>| tokenize_line(l, d, q))
}

/// Tokenize one line of bytes into its fields.
pub fn parse_line(line: &Vec<u8>, delimiter: u8, quote: u8) -> (row: Vec<Vec<u8>>)
    ensures
        cells_view(row@) == tokenize_line(line@, delimiter, quote),
{
    let ghost d = delimiter;
    let ghost q = quote;
    let mut row: Vec<Vec<u8>> = Vec::new();
    let mut cur: Vec<u8> = Vec::new();
    let mut inq: bool = false;
    let mut i: usize = 0;
    proof {
        assert(line@.skip(0) == line@);
        assert(cells_view(row@) == Seq::<Seq<u8>>::empty());
    }
    while i < line.len()
        invariant
            i <= line@.len(),
            tokenize_line(line@, d, q) == cells_view(row@) + tok_fields(
                line@.skip(i as int),
                d,
                q,
                cur@,
                inq,
            ),
            d == delimiter,
            q == quote,
        decreases line@.len() - i,
    {
        let ghost rest = line@.skip(i as int);
        let ch = line[i];
        assert(rest[0] == ch);
        if ch == quote {
            if inq && i + 1 < line.len() && line[i + 1] == quote {
                assert(rest.len() >= 2 && rest[1] == q);
                cur.push(quote);
                proof {
                    assert(rest.skip(2) == line@.skip(i + 2));
                }
                i = i + 2;
            } else {
                proof {
                    assert(!(inq && rest.len() >= 2 && rest[1] == q));
                    assert(rest.skip(1) == line@.skip(i + 1));
                }
                inq = !inq;
                i = i + 1;
            }
        } else if ch == delimiter && !inq {
            let ghost old_row = row@;
            let ghost old_cur = cur@;
            row.push(cur);
            cur = Vec::new();
            proof {
                assert(cells_view(row@) =~= cells_view(old_row) + seq![old_cur]);
                assert(rest.skip(1) == line@.skip(i + 1));
                assert(cells_view(old_row) + (seq![old_cur] + tok_fields(
                    line@.skip(i + 1),
                    d,
                    q,
                    Seq::empty(),
                    false,
                )) =~= cells_view(row@) + tok_fields(line@.skip(i + 1), d, q, Seq::empty(), false));
            }
            i = i + 1;
        } else {
            cur.push(ch);
            proof {
                assert(rest.skip(1) == line@.skip(i + 1));
            }
            i = i + 1;
        }
    }
    proof {
        assert(line@.skip(i as int).len() == 0);
    }
    let ghost old_row = row@;
    let ghost old_cur = cur@;
    row.push(cur);
    proof {
        assert(cells_view(row@) =~= cells_view(old_row) + seq![old_cur]);
    }
    row
}

/// Split a buffer into lines: at every line feed, stripping one trailing
/// carriage return per line; a trailing line feed yields no empty line.
pub fn split_into_lines(raw: &Vec<u8>) -> (lines: Vec<Vec<u8>>)
    ensures
        cells_view(lines@) == split_lines(raw@),
{
    let mut lines: Vec<Vec<u8>> = Vec::new();
    let mut cur: Vec<u8> = Vec::new();
    let mut i: usize = 0;
    proof {
        assert(raw@.skip(0) == raw@);
        assert(cells_view(lines@) == Seq::<Seq<u8>>::empty());
    }
    while i < raw.len()
        invariant
            i <= raw@.len(),
            split_lines(raw@) == cells_view(lines@) + split_rec(raw@.skip(i as int), cur@),
        decreases raw@.len() - i,
    {
        let ghost rest = raw@.skip(i as int);
        let ch = raw[i];
        assert(rest[0] == ch);
        if ch == LINE_FEED {
            let ghost old_lines = lines@;
            let ghost old_cur = cur@;
            let stripped = finish_line(cur);
            lines.push(stripped);
            cur = Vec::new();
            proof {
                assert(cells_view(lines@) =~= cells_view(old_lines) + seq![strip_cr(old_cur)]);
                assert(rest.skip(1) == raw@.skip(i + 1));
                assert(cells_view(old_lines) + (seq![strip_cr(old_cur)] + split_rec(
                    raw@.skip(i + 1),
                    Seq::empty(),
                )) =~= cells_view(lines@) + split_rec(raw@.skip(i + 1), Seq::empty()));
            }
        } else {
            cur.push(ch);
            proof {
                assert(rest.skip(1) == raw@.skip(i + 1));
            }
        }
        i = i + 1;
    }
    proof {
        assert(raw@.skip(i as int).len() == 0);
    }
    if cur.len() > 0 {
        let ghost old_lines = lines@;
        let ghost old_cur = cur@;
        let stripped = finish_line(cur);
        lines.push(stripped);
        proof {
            assert(cells_view(lines@) =~= cells_view(old_lines) + seq![strip_cr(old_cur)]);
        }
    } else {
        proof {
            assert(cells_view(lines@) + Seq::<Seq<u8>>::empty() =~= cells_view(lines@));
        }
    }
    lines
}

/// Remove one trailing carriage return from a collected line.
fn finish_line(line: Vec<u8>) -> (r: Vec<u8>)
    ensures
        r@ == strip_cr(line@),
{
    let mut line = line;
    if line.len() > 0 && line[line.len() - 1] == CARRIAGE_RETURN {
        let ghost before = line@;
        line.pop();
        proof {
            assert(line@ =~= strip_cr(before));
        }
    }
    line
}

/// The delimiter-joined concatenation of a run of fields.
pub open spec fn joined(fields: Seq<Seq<u8>>, d: u8) -> Seq<u8>
    decreases fields.len(),
{
    if fields.len() == 0 {
        Seq::empty()
    } else if fields.len() == 1 {
        fields[0]
    } else {
        fields[0].push(d) + joined(fields.skip(1), d)
    }
}

/// What repairing one row yields: too few fields is invalid; excess fields
/// are merged, joined with the delimiter, into the chosen column.
pub open spec fn repair_row_spec(
    row: Seq<Seq<u8>>,
    d: u8,
    invalid_column_index: int,
    expected: int,
    line: int,
) -> Result<Seq<Seq<u8>>, CsvError> {
    if row.len() < expected {
        Err(
            CsvError::Invalid(
                Position { line: line as usize, column: expected as usize },
                NOT_ENOUGH_COLUMNS_MSG,
            ),
        )
    } else if row.len() > expected {
        let excess = row.len() - expected;
        Ok(
            row.take(invalid_column_index) + seq![
                joined(row.subrange(invalid_column_index, invalid_column_index + excess + 1), d),
            ] + row.skip(invalid_column_index + excess + 1),
        )
    } else {
        Ok(row)
    }
}

/// A parsed-or-failed row, as the byte sequences it holds.
pub open spec fn row_result_view(r: Result<Vec<Vec<u8>>, CsvError>) -> Result<
    Seq<Seq<u8>>,
    CsvError,
> {
    match r {
        Ok(v) => Ok(cells_view(v@)),
        Err(e) => Err(e),
    }
}

/// Join a run of fields with the delimiter byte.
fn join_fields(fields: &Vec<Vec<u8>>, from: usize, to: usize, d: u8) -> (r: Vec<u8>)
    requires
        from <= to <= fields@.len(),
    ensures
        r@ == joined(cells_view(fields@).subrange(from as int, to as int), d),
    decreases to - from,
{
    let mut r: Vec<u8> = Vec::new();
    if from < to {
        let first = &fields[from];
        let mut j: usize = 0;
        while j < first.len()
            invariant
                j <= first@.len(),
                first@ == fields@[from as int]@,
                from < to <= fields@.len(),
                r@ == first@.take(j as int),
            decreases first@.len() - j,
        {
            r.push(first[j]);
            proof {
                assert(r@ =~= first@.take(j + 1));
            }
            j = j + 1;
        }
        proof {
            assert(first@.take(first@.len() as int) =~= first@);
        }
        if from + 1 < to {
            r.push(d);
            let tail = join_fields(fields, from + 1, to, d);
            let mut j2: usize = 0;
            let ghost base = r@;
            while j2 < tail.len()
                invariant
                    j2 <= tail@.len(),
                    r@ == base + tail@.take(j2 as int),
                decreases tail@.len() - j2,
            {
                r.push(tail[j2]);
                proof {
                    assert(base + tail@.take(j2 + 1) =~= (base + tail@.take(j2 as int)).push(
                        tail@[j2 as int],
                    ));
                }
                j2 = j2 + 1;
            }
            proof {
                assert(tail@.take(tail@.len() as int) =~= tail@);
                let run = cells_view(fields@).subrange(from as int, to as int);
                assert(run.len() >= 2);
                assert(run[0] == fields@[from as int]@);
                assert(run.skip(1) =~= cells_view(fields@).subrange(from + 1, to as int));
                assert(r@ =~= run[0].push(d) + joined(run.skip(1), d));
            }
        } else {
            proof {
                let run = cells_view(fields@).subrange(from as int, to as int);
                assert(run.len() == 1);
                assert(run[0] == fields@[from as int]@);
            }
        }
    }
    r
}

/// Repair one row against the expected column count: reject a row with too
/// few fields; merge the excess of a row with too many into the column at
/// `invalid_column_index`.
pub fn repair_row(
    row: Vec<Vec<u8>>,
    delimiter: u8,
    invalid_column_index: usize,
    expected_column_count: usize,
    line: usize,
) -> (r: Result<Vec<Vec<u8>>, CsvError>)
    requires
        invalid_column_index < expected_column_count,
    ensures
        row_result_view(r) == repair_row_spec(
            cells_view(row@),
            delimiter,
            invalid_column_index as int,
            expected_column_count as int,
            line as int,
        ),
{
    let apparent = row.len();
    if apparent < expected_column_count {
        Err(
            CsvError::Invalid(
                Position { line, column: expected_column_count },
                NOT_ENOUGH_COLUMNS_MSG,
            ),
        )
    } else if apparent > expected_column_count {
        let excess = apparent - expected_column_count;
        let merged = join_fields(
            &row,
            invalid_column_index,
            invalid_column_index + excess + 1,
            delimiter,
        );
        let mut new_row: Vec<Vec<u8>> = Vec::new();
        proof {
            assert(cells_view(new_row@) =~= cells_view(row@).take(0));
        }
        let mut k: usize = 0;
        while k < invalid_column_index
            invariant
                k <= invalid_column_index,
                invalid_column_index < row@.len(),
                cells_view(new_row@) == cells_view(row@).take(k as int),
            decreases invalid_column_index - k,
        {
            let f = row[k].clone();
            proof {
                assert(f@ == row@[k as int]@);
            }
            let ghost before = new_row@;
            new_row.push(f);
            proof {
                crate::lemma_cells_view_push(before, f);
                assert(cells_view(row@).take(k + 1) =~= cells_view(row@).take(k as int).push(
                    row@[k as int]@,
                ));
            }
            k = k + 1;
        }
        let ghost before_merge = cells_view(new_row@);
        new_row.push(merged);
        proof {
            assert(cells_view(new_row@) =~= before_merge + seq![merged@]);
        }
        let mut k2: usize = invalid_column_index + excess + 1;
        let ghost after_start = k2 as int;
        let ghost with_merge = cells_view(new_row@);
        proof {
            assert(with_merge + cells_view(row@).subrange(after_start, after_start) =~= with_merge);
        }
        while k2 < apparent
            invariant
                0 <= after_start <= k2 <= apparent,
                apparent == row@.len(),
                cells_view(new_row@) == with_merge + cells_view(row@).subrange(
                    after_start,
                    k2 as int,
                ),
            decreases apparent - k2,
        {
            let f = row[k2].clone();
            proof {
                assert(f@ == row@[k2 as int]@);
            }
            let ghost before = new_row@;
            new_row.push(f);
            proof {
                crate::lemma_cells_view_push(before, f);
                assert(cells_view(row@).len() == row@.len());
                let lhs = cells_view(row@).subrange(after_start, k2 + 1);
                let rhs = cells_view(row@).subrange(after_start, k2 as int).push(
                    row@[k2 as int]@,
                );
                assert forall|t: int| 0 <= t < lhs.len() implies lhs[t] == rhs[t] by {
                    assert(lhs[t] == cells_view(row@)[after_start + t]);
                }
                assert(lhs =~= rhs);
                assert(with_merge + cells_view(row@).subrange(after_start, k2 as int).push(
                    row@[k2 as int]@,
                ) =~= (with_merge + cells_view(row@).subrange(after_start, k2 as int)).push(
                    row@[k2 as int]@,
                ));
            }
            k2 = k2 + 1;
        }
        proof {
            let rv = cells_view(row@);
            assert(cells_view(new_row@) =~= rv.take(invalid_column_index as int) + seq![
                joined(
                    rv.subrange(
                        invalid_column_index as int,
                        invalid_column_index + (rv.len() - expected_column_count) + 1,
                    ),
                    delimiter,
                ),
            ] + rv.skip(invalid_column_index + (rv.len() - expected_column_count) + 1));
        }
        Ok(new_row)
    } else {
        Ok(row)
    }
}

/// Tokenize a well-formed buffer: each line split into fields by the simple
/// quote-aware tokenizer.
pub fn fast_stream_valid_csv(raw: &Vec<u8>, delimiter: u8, quote: u8) -> (rows: Vec<Vec<Vec<u8>>>)
    ensures
        table_view(rows@) == valid_csv_rows(raw@, delimiter, quote),
{
    let lines = split_into_lines(raw);
    let mut rows: Vec<Vec<Vec<u8>>> = Vec::new();
    let mut i: usize = 0;
    while i < lines.len()
        invariant
            i <= lines@.len(),
            cells_view(lines@) == split_lines(raw@),
            table_view(rows@) == valid_csv_rows(raw@, delimiter, quote).take(i as int),
        decreases lines@.len() - i,
    {
        let row = parse_line(&lines[i], delimiter, quote);
        let ghost before = rows@;
        rows.push(row);
        proof {
            let goal = valid_csv_rows(raw@, delimiter, quote);
            assert(cells_view(lines@)[i as int] == lines@[i as int]@);
            assert(goal[i as int] == tokenize_line(split_lines(raw@)[i as int], delimiter, quote));
            assert(cells_view(row@) == goal[i as int]);
            crate::lemma_table_view_push(before, row);
            assert(goal.take(i + 1) =~= goal.take(i as int).push(goal[i as int]));
        }
        i = i + 1;
    }
    proof {
        assert(valid_csv_rows(raw@, delimiter, quote).take(i as int) =~= valid_csv_rows(
            raw@,
            delimiter,
            quote,
        ));
    }
    rows
}

/// What the repairing path yields for each line of the buffer.
pub open spec fn repaired_csv_rows(
    s: Seq<u8>,
    d: u8,
    q: u8,
    invalid_column_index: int,
    expected: int,
) -> Seq<Result<Seq<Seq<u8>>, CsvError>> {
    Seq::new(
        split_lines(s).len(),
        |i: int|
            repair_row_spec(
                tokenize_line(split_lines(s)[i], d, q),
                d,
                invalid_column_index,
                expected,
                i,
            ),
    )
}

/// Tokenize a buffer and repair each row's shape against the expected column
/// count: a row with too many fields has the excess merged into the column
/// at `invalid_column_index`; a row with too few fields is reported invalid
/// at that line.
pub fn fast_stream_csv_with_unescaped_delimiters(
    raw: &Vec<u8>,
    delimiter: u8,
    quote: u8,
    invalid_column_index: usize,
    expected_column_count: usize,
) -> (rows: Vec<Result<Vec<Vec<u8>>, CsvError>>)
    requires
        invalid_column_index < expected_column_count,
    ensures
        rows@.map_values(|r: Result<Vec<Vec<u8>>, CsvError>| row_result_view(r))
            == repaired_csv_rows(
            raw@,
            delimiter,
            quote,
            invalid_column_index as int,
            expected_column_count as int,
        ),
{
    let parsed = fast_stream_valid_csv(raw, delimiter, quote);
    let ghost goal = repaired_csv_rows(
        raw@,
        delimiter,
        quote,
        invalid_column_index as int,
        expected_column_count as int,
    );
    let mut rows: Vec<Result<Vec<Vec<u8>>, CsvError>> = Vec::new();
    proof {
        assert(table_view(parsed@).len() == parsed@.len());
        assert(rows@.map_values(|r: Result<Vec<Vec<u8>>, CsvError>| row_result_view(r))
            =~= goal.take(0));
    }
    let mut i: usize = 0;
    while i < parsed.len()
        invariant
            i <= parsed@.len(),
            table_view(parsed@) == valid_csv_rows(raw@, delimiter, quote),
            invalid_column_index < expected_column_count,
            goal == repaired_csv_rows(
                raw@,
                delimiter,
                quote,
                invalid_column_index as int,
                expected_column_count as int,
            ),
            goal.len() == parsed@.len(),
            rows@.map_values(|r: Result<Vec<Vec<u8>>, CsvError>| row_result_view(r)) == goal.take(
                i as int,
            ),
        decreases parsed@.len() - i,
    {
        let row = parsed[i].clone();
        proof {
            assert(cells_view(row@) == table_view(parsed@)[i as int]);
        }
        let repaired = repair_row(row, delimiter, invalid_column_index, expected_column_count, i);
        let ghost before = rows@;
        rows.push(repaired);
        proof {
            assert(table_view(parsed@)[i as int] == valid_csv_rows(raw@, delimiter, quote)[
                i as int]);
            assert(valid_csv_rows(raw@, delimiter, quote)[i as int] == tokenize_line(
                split_lines(raw@)[i as int],
                delimiter,
                quote,
            ));
            assert(row_result_view(repaired) == goal[i as int]);
            assert(rows@ == before.push(repaired));
            assert(rows@.map_values(|r: Result<Vec<Vec<u8>>, CsvError>| row_result_view(r))
                =~= before.map_values(
                |r: Result<Vec<Vec<u8>>, CsvError>| row_result_view(r),
            ).push(row_result_view(repaired)));
            assert(goal.take(i + 1) =~= goal.take(i as int).push(goal[i as int]));
        }
        i = i + 1;
    }
    proof {
        assert(goal.take(i as int) =~= goal);
    }
    rows
}

/// A field body with every quote byte doubled.
pub open spec fn doubled(f: Seq<u8>, q: u8) -> Seq<u8>
    decreases f.len(),
{
    if f.len() == 0 {
        Seq::empty()
    } else if f[0] == q {
        seq![q, q] + doubled(f.skip(1), q)
    } else {
        seq![f[0]] + doubled(f.skip(1), q)
    }
}

/// A field must be quoted when it holds a delimiter or a quote byte.
pub open spec fn needs_quoting(f: Seq<u8>, d: u8, q: u8) -> bool {
    (exists|i: int| 0 <= i < f.len() && (#[trigger] f[i]) == d) || (exists|i: int|
        0 <= i < f.len() && (#[trigger] f[i]) == q)
}

/// One field under consistent quoting: quoted with internal quotes doubled
/// when it needs quoting, written bare otherwise.
pub open spec fn serialize_field(f: Seq<u8>, d: u8, q: u8) -> Seq<u8> {
    if needs_quoting(f, d, q) {
        seq![q] + doubled(f, q) + seq![q]
    } else {
        f
    }
}

/// A row under consistent quoting: the serialized fields joined by the
/// delimiter.
pub open spec fn serialize_row(fields: Seq<Seq<u8>>, d: u8, q: u8) -> Seq<u8>
    decreases fields.len(),
{
    if fields.len() == 0 {
        Seq::empty()
    } else if fields.len() == 1 {
        serialize_field(fields[0], d, q)
    } else {
        serialize_field(fields[0], d, q) + seq![d] + serialize_row(fields.skip(1), d, q)
    }
}

proof fn lemma_tok_raw_field(f: Seq<u8>, rest: Seq<u8>, d: u8, q: u8, cur: Seq<u8>)
    requires
        forall|i: int| 0 <= i < f.len() ==> (#[trigger] f[i]) != d && f[i] != q,
    ensures
        tok_fields(f + rest, d, q, cur, false) == tok_fields(rest, d, q, cur + f, false),
    decreases f.len(),
{
    if f.len() == 0 {
        assert(f + rest =~= rest);
        assert(cur + f =~= cur);
    } else {
        let s = f + rest;
        assert(s[0] == f[0]);
        assert(s[0] != q && s[0] != d);
        assert(s.skip(1) =~= f.skip(1) + rest);
        assert(forall|i: int|
            0 <= i < f.skip(1).len() ==> (#[trigger] f.skip(1)[i]) != d && f.skip(1)[i] != q);
        lemma_tok_raw_field(f.skip(1), rest, d, q, cur.push(f[0]));
        assert(cur.push(f[0]) + f.skip(1) =~= cur + f);
    }
}

proof fn lemma_tok_quoted_body(f: Seq<u8>, rest: Seq<u8>, d: u8, q: u8, cur: Seq<u8>)
    requires
        rest.len() == 0 || rest[0] != q,
    ensures
        tok_fields(doubled(f, q) + seq![q] + rest, d, q, cur, true) == tok_fields(
            rest,
            d,
            q,
            cur + f,
            false,
        ),
    decreases f.len(),
{
    if f.len() == 0 {
        let s = doubled(f, q) + seq![q] + rest;
        assert(s =~= seq![q] + rest);
        assert(s[0] == q);
        if s.len() >= 2 {
            assert(s[1] == rest[0]);
            assert(s[1] != q);
        }
        assert(s.skip(1) =~= rest);
        assert(cur + f =~= cur);
    } else if f[0] == q {
        let s = doubled(f, q) + seq![q] + rest;
        assert(doubled(f, q) == seq![q, q] + doubled(f.skip(1), q));
        assert(s[0] == q);
        assert(s.len() >= 2 && s[1] == q);
        assert(s.skip(2) =~= doubled(f.skip(1), q) + seq![q] + rest);
        lemma_tok_quoted_body(f.skip(1), rest, d, q, cur.push(q));
        assert(cur.push(q) + f.skip(1) =~= cur + f);
    } else {
        let s = doubled(f, q) + seq![q] + rest;
        assert(doubled(f, q) == seq![f[0]] + doubled(f.skip(1), q));
        assert(s[0] == f[0]);
        assert(s[0] != q);
        assert(s.skip(1) =~= doubled(f.skip(1), q) + seq![q] + rest);
        lemma_tok_quoted_body(f.skip(1), rest, d, q, cur.push(f[0]));
        assert(cur.push(f[0]) + f.skip(1) =~= cur + f);
    }
}

proof fn lemma_tok_field_then(f: Seq<u8>, rest: Seq<u8>, d: u8, q: u8)
    requires
        d != q,
        rest.len() == 0 || rest[0] == d,
    ensures
        tok_fields(serialize_field(f, d, q) + rest, d, q, Seq::empty(), false) == tok_fields(
            rest,
            d,
            q,
            f,
            false,
        ),
{
    if needs_quoting(f, d, q) {
        let s = serialize_field(f, d, q) + rest;
        assert(s =~= seq![q] + (doubled(f, q) + seq![q] + rest));
        assert(s[0] == q);
        assert(s.skip(1) =~= doubled(f, q) + seq![q] + rest);
        assert(rest.len() == 0 || rest[0] != q);
        lemma_tok_quoted_body(f, rest, d, q, Seq::empty());
        assert(Seq::empty() + f =~= f);
        assert(tok_fields(s, d, q, Seq::empty(), false) == tok_fields(
            doubled(f, q) + seq![q] + rest,
            d,
            q,
            Seq::empty(),
            true,
        ));
    } else {
        assert(forall|i: int| 0 <= i < f.len() ==> (#[trigger] f[i]) != d && f[i] != q);
        lemma_tok_raw_field(f, rest, d, q, Seq::empty());
        assert(Seq::empty() + f =~= f);
    }
}

/// Round trip of consistent quoting: tokenizing a serialized row yields the
/// row's fields back, for any row with at least one field.  In particular,
/// a field whose internal quote is doubled extracts to the single quote.
pub proof fn lemma_tokenize_serialize_roundtrip(fields: Seq<Seq<u8>>, d: u8, q: u8)
    requires
        d != q,
        fields.len() >= 1,
    ensures
        tokenize_line(serialize_row(fields, d, q), d, q) == fields,
    decreases fields.len(),
{
    if fields.len() == 1 {
        let s = serialize_row(fields, d, q);
        assert(s == serialize_field(fields[0], d, q));
        assert(s =~= serialize_field(fields[0], d, q) + Seq::<u8>::empty());
        lemma_tok_field_then(fields[0], Seq::empty(), d, q);
        assert(tok_fields(Seq::empty(), d, q, fields[0], false) == seq![fields[0]]);
        assert(seq![fields[0]] =~= fields);
    } else {
        let s = serialize_row(fields, d, q);
        let rest = seq![d] + serialize_row(fields.skip(1), d, q);
        assert(s =~= serialize_field(fields[0], d, q) + rest);
        lemma_tok_field_then(fields[0], rest, d, q);
        assert(rest[0] == d);
        assert(rest.skip(1) =~= serialize_row(fields.skip(1), d, q));
        lemma_tokenize_serialize_roundtrip(fields.skip(1), d, q);
        assert(tok_fields(rest, d, q, fields[0], false) == seq![fields[0]] + tok_fields(
            serialize_row(fields.skip(1), d, q),
            d,
            q,
            Seq::empty(),
            false,
        ));
        assert(seq![fields[0]] + fields.skip(1) =~= fields);
    }
}

/// Quote-stripping round trip for one cell: a cell holding an internal
/// quote, correctly doubled, extracts to the single unescaped quote.
pub proof fn lemma_quote_stripping_roundtrip(f: Seq<u8>, d: u8, q: u8)
    requires
        d != q,
    ensures
        tokenize_line(serialize_row(seq![f], d, q), d, q) == seq![f],
{
    lemma_tokenize_serialize_roundtrip(seq![f], d, q);
}

/// Serialize one row under consistent quoting.
pub fn serialize_row_bytes(fields: &Vec<Vec<u8>>, delimiter: u8, quote: u8) -> (r: Vec<u8>)
    ensures
        r@ == serialize_row(cells_view(fields@), delimiter, quote),
{
    let r = serialize_from(fields, 0, delimiter, quote);
    proof {
        assert(cells_view(fields@).skip(0) =~= cells_view(fields@));
    }
    r
}

/// Serialize the fields from index `i` on.
fn serialize_from(fields: &Vec<Vec<u8>>, i: usize, delimiter: u8, quote: u8) -> (r: Vec<u8>)
    requires
        i <= fields@.len(),
    ensures
        r@ == serialize_row(cells_view(fields@).skip(i as int), delimiter, quote),
    decreases fields@.len() - i,
{
    if i == fields.len() {
        proof {
            assert(cells_view(fields@).skip(i as int).len() == 0);
        }
        Vec::new()
    } else {
        let ghost run = cells_view(fields@).skip(i as int);
        let mut r = serialize_field_bytes(&fields[i], delimiter, quote);
        proof {
            assert(run[0] == fields@[i as int]@);
        }
        if i + 1 < fields.len() {
            r.push(delimiter);
            let tail = serialize_from(fields, i + 1, delimiter, quote);
            let ghost base = r@;
            let mut k: usize = 0;
            while k < tail.len()
                invariant
                    k <= tail@.len(),
                    r@ == base + tail@.take(k as int),
                decreases tail@.len() - k,
            {
                r.push(tail[k]);
                proof {
                    assert(base + tail@.take(k + 1) =~= (base + tail@.take(k as int)).push(
                        tail@[k as int],
                    ));
                }
                k = k + 1;
            }
            proof {
                assert(tail@.take(tail@.len() as int) =~= tail@);
                assert(run.skip(1) =~= cells_view(fields@).skip(i + 1));
                assert(run.len() >= 2);
                assert(r@ =~= serialize_field(run[0], delimiter, quote) + seq![delimiter]
                    + serialize_row(run.skip(1), delimiter, quote));
            }
        } else {
            proof {
                assert(run.len() == 1);
            }
        }
        r
    }
}

/// Serialize one field under consistent quoting.
fn serialize_field_bytes(f: &Vec<u8>, delimiter: u8, quote: u8) -> (r: Vec<u8>)
    ensures
        r@ == serialize_field(f@, delimiter, quote),
{
    let quoted = field_needs_quoting(f, delimiter, quote);
    let mut r: Vec<u8> = Vec::new();
    if quoted {
        r.push(quote);
        let ghost base = r@;
        let mut k: usize = 0;
        proof {
            assert(f@.skip(0) =~= f@);
            assert(base + doubled(f@, quote) =~= r@ + doubled(f@.skip(0), quote));
        }
        while k < f.len()
            invariant
                k <= f@.len(),
                base + doubled(f@, quote) =~= r@ + doubled(f@.skip(k as int), quote),
            decreases f@.len() - k,
        {
            let b = f[k];
            let ghost rem = f@.skip(k as int);
            proof {
                assert(rem[0] == b);
                assert(rem.skip(1) =~= f@.skip(k + 1));
            }
            if b == quote {
                r.push(quote);
                r.push(quote);
                proof {
                    assert(doubled(rem, quote) == seq![quote, quote] + doubled(
                        rem.skip(1),
                        quote,
                    ));
                }
            } else {
                r.push(b);
                proof {
                    assert(doubled(rem, quote) == seq![b] + doubled(rem.skip(1), quote));
                }
            }
            k = k + 1;
        }
        proof {
            assert(doubled(f@.skip(k as int), quote) =~= Seq::<u8>::empty());
            assert(base + doubled(f@, quote) =~= r@);
        }
        r.push(quote);
        proof {
            assert(r@ =~= seq![quote] + doubled(f@, quote) + seq![quote]);
        }
    } else {
        let mut k: usize = 0;
        while k < f.len()
            invariant
                k <= f@.len(),
                r@ == f@.take(k as int),
            decreases f@.len() - k,
        {
            r.push(f[k]);
            proof {
                assert(f@.take(k + 1) =~= f@.take(k as int).push(f@[k as int]));
            }
            k = k + 1;
        }
        proof {
            assert(f@.take(f@.len() as int) =~= f@);
        }
    }
    r
}

/// Whether a field holds the delimiter or the quote byte.
fn field_needs_quoting(f: &Vec<u8>, delimiter: u8, quote: u8) -> (r: bool)
    ensures
        r == needs_quoting(f@, delimiter, quote),
{
    let mut i: usize = 0;
    let mut found = false;
    while i < f.len()
        invariant
            i <= f@.len(),
            found ==> needs_quoting(f@, delimiter, quote),
            !found ==> forall|t: int|
                0 <= t < i ==> (#[trigger] f@[t]) != delimiter && f@[t] != quote,
        decreases f@.len() - i,
    {
        let b = f[i];
        if b == delimiter || b == quote {
            found = true;
        }
        i = i + 1;
    }
    found
}

proof fn lemma_serialize_row_split(fields: Seq<Seq<u8>>, i: int, d: u8, q: u8)
    requires
        0 <= i < fields.len(),
    ensures
        serialize_row(fields.skip(i), d, q) == if i == fields.len() - 1 {
            serialize_field(fields[i], d, q)
        } else {
            serialize_field(fields[i], d, q) + seq![d] + serialize_row(fields.skip(i + 1), d, q)
        },
{
    let r = fields.skip(i);
    assert(r[0] == fields[i]);
    if i == fields.len() - 1 {
        assert(r.len() == 1);
    } else {
        assert(r.skip(1) =~= fields.skip(i + 1));
    }
}

} // verus!
