//! Reading transaction records from CSV text and feeding them to the engine
//! in chunks.

use vstd::prelude::*;

use crate::decode::{decode_positional, decode_positional_spec, decode_record, decode_record_spec, field_bytes, Column, RecordError};
use crate::number::{AmountError, IntError};
use crate::domain::TransactionRecord;
use crate::transactions_processor::{process_batch, Ledger, TransactionProcessor};

verus! {

/// How many records are gathered before they are processed as one batch.
pub const CSV_RECORDS_CHUNK_SIZE: usize = 100;

/// Why reading the CSV input failed.
#[derive(Debug)]
pub enum CsvReadError {
    /// The path to the CSV input names no file.
    PathDoesNotExist,
    /// The input could not be read or holds a row that is not a transaction
    /// record; the text says what went wrong.
    IoReadError(String),
}

/// Where a record starts in the input: its index (the header row is record
/// 0), its line and its byte offset.
pub type Position = (u64, u64, u64);

/// What the `csv` crate reads from `content`, with every field trimmed: the
/// header row (none when it is not UTF-8), the fields of the data rows up to
/// the first error, the position of each data row, and the text of that
/// error, if any.
pub uninterp spec fn csv_rows(content: Seq<u8>) -> (Option<Seq<Seq<char>>>, Seq<Seq<Seq<char>>>, Seq<Option<Position>>, Option<Seq<char>>);

/// Reads `content` with `csv::ReaderBuilder` (`Trim::All`): takes the
/// header row from `headers()` (none when it fails), then collects
/// `records()` until the first error, with each record's `position()`.
/// Claimed: the header, the fields, the positions and the error's
/// `to_string()` are the named result `csv_rows(content)`, a function of the
/// bytes alone.
#[verifier::external_body]
fn read_csv_rows(content: &[u8]) -> (r: (Option<Vec<String>>, Vec<Vec<String>>, Vec<Option<Position>>, Option<String>))
    ensures
        match r.0 {
            Some(h) => csv_rows(content@).0 == Some(h.deep_view()),
            None => csv_rows(content@).0 is None,
        },
        r.1.deep_view() == csv_rows(content@).1,
        r.2@ == csv_rows(content@).2,
        match r.3 {
            Some(m) => csv_rows(content@).3 == Some(m@),
            None => csv_rows(content@).3 is None,
        },
{
    let mut reader = csv::ReaderBuilder::new().trim(csv::Trim::All).from_reader(content);
    let header = reader.headers().ok().map(|h| h.iter().map(String::from).collect());
    let mut rows = Vec::new();
    let mut positions = Vec::new();
    for result in reader.records() {
        match result {
            Ok(record) => {
                positions.push(record.position().map(|p| (p.record(), p.line(), p.byte())));
                rows.push(record.iter().map(String::from).collect());
            },
            Err(err) => return (header, rows, positions, Some(err.to_string())),
        }
    }
    (header, rows, positions, None)
}

/// The text of a decimal digit.
pub open spec fn digit_text(d: nat) -> Seq<char> {
    if d == 0 {
        "0"@
    } else if d == 1 {
        "1"@
    } else if d == 2 {
        "2"@
    } else if d == 3 {
        "3"@
    } else if d == 4 {
        "4"@
    } else if d == 5 {
        "5"@
    } else if d == 6 {
        "6"@
    } else if d == 7 {
        "7"@
    } else if d == 8 {
        "8"@
    } else {
        "9"@
    }
}

/// The decimal text of a number, most significant digit first.
pub open spec fn decimal_text(n: nat) -> Seq<char>
    decreases n,
{
    if n < 10 {
        digit_text(n)
    } else {
        decimal_text(n / 10) + digit_text(n % 10)
    }
}

fn digit_str(d: u64) -> (s: &'static str)
    requires
        d < 10,
    ensures
        s@ == digit_text(d as nat),
{
    if d == 0 {
        "0"
    } else if d == 1 {
        "1"
    } else if d == 2 {
        "2"
    } else if d == 3 {
        "3"
    } else if d == 4 {
        "4"
    } else if d == 5 {
        "5"
    } else if d == 6 {
        "6"
    } else if d == 7 {
        "7"
    } else if d == 8 {
        "8"
    } else {
        "9"
    }
}

/// Appends `n` in decimal.
fn append_decimal(m: &mut String, n: u64)
    ensures
        final(m)@ == old(m)@ + decimal_text(n as nat),
    decreases n,
{
    if n >= 10 {
        append_decimal(m, n / 10);
    }
    m.append(digit_str(n % 10));
    proof {
        if n < 10 {
            assert(n % 10 == n);
        }
    }
}

/// The name of a column, as the header writes it.
pub open spec fn column_name(c: Column) -> Seq<char> {
    match c {
        Column::Type => "type"@,
        Column::Client => "client"@,
        Column::Tx => "tx"@,
        Column::Amount => "amount"@,
        Column::Other => ""@,
    }
}

fn column_name_str(c: Column) -> (s: &'static str)
    ensures
        s@ == column_name(c),
{
    match c {
        Column::Type => "type",
        Column::Client => "client",
        Column::Tx => "tx",
        Column::Amount => "amount",
        Column::Other => "",
    }
}

/// What an integer parse reports.
pub open spec fn int_error_text(e: IntError) -> Seq<char> {
    match e {
        IntError::Empty => "cannot parse integer from empty string"@,
        IntError::InvalidDigit => "invalid digit found in string"@,
        IntError::PosOverflow => "number too large to fit in target type"@,
    }
}

fn int_error_str(e: IntError) -> (s: &'static str)
    ensures
        s@ == int_error_text(e),
{
    match e {
        IntError::Empty => "cannot parse integer from empty string",
        IntError::InvalidDigit => "invalid digit found in string",
        IntError::PosOverflow => "number too large to fit in target type",
    }
}

/// What an amount parse reports.
pub open spec fn amount_error_text(e: AmountError) -> Seq<char> {
    match e {
        AmountError::Invalid => "invalid float literal"@,
        AmountError::OutOfRange => "amount out of range"@,
    }
}

/// Why a row is not a transaction record, in words; `row` is the row's
/// fields.
pub open spec fn record_error_text(e: RecordError, row: Seq<Seq<char>>) -> Seq<char> {
    match e {
        RecordError::MissingField(c) => "missing field `"@ + column_name(c) + "`"@,
        RecordError::DuplicateField(c) => "duplicate field `"@ + column_name(c) + "`"@,
        RecordError::EndOfRow => "expected field, but got end of row"@,
        RecordError::UnknownType(k) => "unknown variant `"@ + (if k < row.len() { row[k as int] } else { Seq::<char>::empty() })
            + "`, expected one of `deposit`, `withdrawal`, `dispute`, `resolve`, `chargeback`"@,
        RecordError::InvalidClientId(k, ie) => "field "@ + decimal_text(k as nat) + ": "@ + int_error_text(ie),
        RecordError::InvalidTransactionId(k, ie) => "field "@ + decimal_text(k as nat) + ": "@ + int_error_text(ie),
        RecordError::InvalidAmount(k, ae) => "field "@ + decimal_text(k as nat) + ": "@ + amount_error_text(ae),
        RecordError::TooFewFields(k) => "invalid length "@ + decimal_text(k as nat)
            + ", expected struct TransactionRecord with 4 elements"@,
    }
}

/// The text that reports a row that is not a transaction record, with the
/// row's position when it is known.
pub open spec fn row_error_text(pos: Option<Position>, e: RecordError, row: Seq<Seq<char>>) -> Seq<char> {
    match pos {
        Some((r, l, b)) => "CSV deserialize error: record "@ + decimal_text(r as nat) + " (line: "@ + decimal_text(l as nat)
            + ", byte: "@ + decimal_text(b as nat) + "): "@ + record_error_text(e, row),
        None => "CSV deserialize error: "@ + record_error_text(e, row),
    }
}

fn append_record_error(m: &mut String, e: RecordError, row: &Vec<String>)
    ensures
        final(m)@ == old(m)@ + record_error_text(e, row.deep_view()),
{
    match e {
        RecordError::MissingField(c) => {
            m.append("missing field `");
            m.append(column_name_str(c));
            m.append("`");
        },
        RecordError::DuplicateField(c) => {
            m.append("duplicate field `");
            m.append(column_name_str(c));
            m.append("`");
        },
        RecordError::EndOfRow => {
            m.append("expected field, but got end of row");
        },
        RecordError::UnknownType(k) => {
            m.append("unknown variant `");
            if k < row.len() {
                proof {
                    assert(row.deep_view()[k as int] == row@[k as int]@);
                }
                m.append(row[k].as_str());
            }
            m.append("`, expected one of `deposit`, `withdrawal`, `dispute`, `resolve`, `chargeback`");
        },
        RecordError::InvalidClientId(k, ie) => {
            m.append("field ");
            append_decimal(m, k as u64);
            m.append(": ");
            m.append(int_error_str(ie));
        },
        RecordError::InvalidTransactionId(k, ie) => {
            m.append("field ");
            append_decimal(m, k as u64);
            m.append(": ");
            m.append(int_error_str(ie));
        },
        RecordError::InvalidAmount(k, ae) => {
            m.append("field ");
            append_decimal(m, k as u64);
            m.append(": ");
            match ae {
                AmountError::Invalid => m.append("invalid float literal"),
                AmountError::OutOfRange => m.append("amount out of range"),
            }
        },
        RecordError::TooFewFields(k) => {
            m.append("invalid length ");
            append_decimal(m, k as u64);
            m.append(", expected struct TransactionRecord with 4 elements");
        },
    }
    proof {
        let t = record_error_text(e, row.deep_view());
        assert(final(m)@ =~= old(m)@ + t);
    }
}

fn row_error_message(pos: Option<Position>, e: RecordError, row: &Vec<String>) -> (m: String)
    ensures
        m@ == row_error_text(pos, e, row.deep_view()),
{
    let mut m = match pos {
        Some(_) => "CSV deserialize error: record ".to_owned(),
        None => "CSV deserialize error: ".to_owned(),
    };
    match pos {
        Some((r, l, b)) => {
            append_decimal(&mut m, r);
            m.append(" (line: ");
            append_decimal(&mut m, l);
            m.append(", byte: ");
            append_decimal(&mut m, b);
            m.append("): ");
        },
        None => {},
    }
    append_record_error(&mut m, e, row);
    proof {
        assert(m@ =~= row_error_text(pos, e, row.deep_view()));
    }
    m
}

/// An optional text, by its characters.
pub open spec fn text_of(e: Option<String>) -> Option<Seq<char>> {
    match e {
        Some(s) => Some(s@),
        None => None,
    }
}

/// The record a data row holds: by the names of the header row, or by
/// position when there is no header row to go by.
pub open spec fn decode_row(header: Option<Seq<Seq<char>>>, row: Seq<Seq<char>>) -> Result<TransactionRecord, RecordError> {
    match header {
        Some(h) => decode_record_spec(field_bytes(h), field_bytes(row)),
        None => decode_positional_spec(field_bytes(row)),
    }
}

/// The header row the CSV reader gave, by its text.
pub open spec fn header_view(header: Option<Vec<String>>) -> Option<Seq<Seq<char>>> {
    match header {
        Some(h) => Some(h.deep_view()),
        None => None,
    }
}

fn decode_row_exec(header: &Option<Vec<String>>, row: &Vec<String>) -> (r: Result<TransactionRecord, RecordError>)
    ensures
        r == decode_row(header_view(*header), row.deep_view()),
{
    match header {
        Some(h) => decode_record(h, row),
        None => decode_positional(row),
    }
}

/// The records of the data rows, decoded in order up to the first row that
/// is not a record, and that row's error.
pub open spec fn decode_rows(header: Option<Seq<Seq<char>>>, rows: Seq<Seq<Seq<char>>>) -> (Seq<TransactionRecord>, Option<RecordError>)
    decreases rows.len(),
{
    if rows.len() == 0 {
        (Seq::empty(), None)
    } else {
        let prev = decode_rows(header, rows.drop_last());
        if prev.1 is Some {
            prev
        } else {
            match decode_row(header, rows.last()) {
                Ok(r) => (prev.0.push(r), None),
                Err(e) => (prev.0, Some(e)),
            }
        }
    }
}

/// The records taken in whole chunks.
pub open spec fn whole_chunks(rs: Seq<TransactionRecord>) -> Seq<TransactionRecord> {
    rs.take((rs.len() as int / 100) * 100)
}

/// What reading the data rows comes to: the records that get processed,
/// and the error text when reading fails.
///
/// The header row names the columns (without one, fields go by position).
/// On success every record is processed; on a failure (a row that is not a
/// record, or an error of the CSV reader) the records read before it are
/// processed only in whole chunks.
pub open spec fn rows_outcome(
    header: Option<Seq<Seq<char>>>,
    rows: Seq<Seq<Seq<char>>>,
    positions: Seq<Option<Position>>,
    csv_error: Option<Seq<char>>,
) -> (Seq<TransactionRecord>, Option<Seq<char>>) {
    let (recs, bad) = decode_rows(header, rows);
    let i = recs.len() as int;
    let pos = if i < positions.len() { positions[i] } else { None };
    match bad {
        Some(e) => (whole_chunks(recs), Some(row_error_text(pos, e, rows[i]))),
        None => match csv_error {
            Some(m) => (whole_chunks(recs), Some(m)),
            None => (recs, None),
        },
    }
}

/// What reading `content` comes to, by the rows the CSV reader gives.
pub open spec fn csv_outcome(content: Seq<u8>) -> (Seq<TransactionRecord>, Option<Seq<char>>) {
    rows_outcome(csv_rows(content).0, csv_rows(content).1, csv_rows(content).2, csv_rows(content).3)
}

/// The ledger after the records, processed as batches of up to
/// `CSV_RECORDS_CHUNK_SIZE` records in their order.
pub open spec fn process_in_chunks(l: Ledger, rs: Seq<TransactionRecord>) -> Ledger
    decreases rs.len(),
{
    if rs.len() == 0 {
        l
    } else if rs.len() <= 100 {
        process_batch(l, rs)
    } else {
        process_in_chunks(process_batch(l, rs.take(100)), rs.skip(100))
    }
}

/// Processing whole chunks and then one more chunk.
pub proof fn lemma_process_in_chunks_append(l: Ledger, a: Seq<TransactionRecord>, b: Seq<TransactionRecord>)
    requires
        a.len() % 100 == 0,
        1 <= b.len() <= 100,
    ensures
        process_in_chunks(l, a + b) == process_batch(process_in_chunks(l, a), b),
    decreases a.len(),
{
    if a.len() == 0 {
        assert(a + b =~= b);
    } else {
        assert((a + b).take(100) =~= a.take(100));
        assert((a + b).skip(100) =~= a.skip(100) + b);
        lemma_process_in_chunks_append(process_batch(l, a.take(100)), a.skip(100), b);
        if a.len() == 100 {
            assert(a.skip(100) =~= Seq::<TransactionRecord>::empty());
            assert(a.take(100) =~= a);
        }
    }
}

/// Once a row fails, the later rows are not read.
proof fn lemma_decode_rows_stops(header: Option<Seq<Seq<char>>>, rows: Seq<Seq<Seq<char>>>, m: int)
    requires
        0 <= m <= rows.len(),
        decode_rows(header, rows.take(m)).1 is Some,
    ensures
        decode_rows(header, rows) == decode_rows(header, rows.take(m)),
    decreases rows.len() - m,
{
    if m < rows.len() {
        assert(rows.drop_last().take(m) =~= rows.take(m));
        lemma_decode_rows_stops(header, rows.drop_last(), m);
    } else {
        assert(rows.take(m) =~= rows);
    }
}

/// Reads transaction records from CSV text and processes them in chunks of
/// `CSV_RECORDS_CHUNK_SIZE`, each chunk as one batch. The header row names
/// the columns; when it is not UTF-8, fields go by position. A row that is not a record, or an error of the CSV reader,
/// ends the reading with `IoReadError`; the records gathered since the last
/// whole chunk are then not processed.
pub fn read_csv(content: &[u8], processor: &mut TransactionProcessor) -> (r: Result<(), CsvReadError>)
    ensures
        final(processor)@ == process_in_chunks(old(processor)@, csv_outcome(content@).0),
        match r {
            Ok(()) => csv_outcome(content@).1 is None,
            Err(CsvReadError::IoReadError(m)) => csv_outcome(content@).1 == Some(m@),
            Err(CsvReadError::PathDoesNotExist) => false,
        },
{
    let (header, rows, positions, csv_error) = read_csv_rows(content);
    process_csv_rows(&header, &rows, &positions, csv_error, processor)
}

/// Processes the data rows the CSV reader gave under its header row (none:
/// fields go by position), then reports the reader's error, if any: the
/// records are processed in chunks of `CSV_RECORDS_CHUNK_SIZE`; a row that
/// is not a record, or the reader's error, ends with `IoReadError`, and the
/// records gathered since the last whole chunk are then not processed.
pub fn process_csv_rows(
    header: &Option<Vec<String>>,
    rows: &Vec<Vec<String>>,
    positions: &Vec<Option<Position>>,
    csv_error: Option<String>,
    processor: &mut TransactionProcessor,
) -> (r: Result<(), CsvReadError>)
    ensures
        final(processor)@ == process_in_chunks(
            old(processor)@,
            rows_outcome(header_view(*header), rows.deep_view(), positions@, text_of(csv_error)).0,
        ),
        match r {
            Ok(()) => rows_outcome(header_view(*header), rows.deep_view(), positions@, text_of(csv_error)).1 is None,
            Err(CsvReadError::IoReadError(m)) => rows_outcome(header_view(*header), rows.deep_view(), positions@, text_of(csv_error)).1
                == Some(m@),
            Err(CsvReadError::PathDoesNotExist) => false,
        },
{
    let ghost data = rows.deep_view();
    let ghost hv = header_view(*header);
    let ghost mut recs: Seq<TransactionRecord> = Seq::empty();
    let ghost mut done: int = 0;
    let mut batch: Vec<TransactionRecord> = Vec::new();
    let mut i: usize = 0;
    proof {
        assert(data.take(0) =~= Seq::<Seq<Seq<char>>>::empty());
        assert(recs.take(0) =~= recs);
    }
    while i < rows.len()
        invariant
            0 <= i <= rows.len(),
            data == rows.deep_view(),
            hv == header_view(*header),
            decode_rows(hv, data.take(i as int)) == (recs, None::<RecordError>),
            recs.len() == i,
            0 <= done <= recs.len(),
            done % 100 == 0,
            recs.len() - done < 100,
            batch@ == recs.subrange(done, recs.len() as int),
            processor@ == process_in_chunks(old(processor)@, recs.take(done)),
        decreases rows.len() - i,
    {
        proof {
            assert(data.take(i + 1).drop_last() =~= data.take(i as int));
            assert(data.take(i + 1).last() == data[i as int]);
            assert(data[i as int] == rows@[i as int].deep_view());
        }
        match decode_row_exec(header, &rows[i]) {
            Ok(record) => {
                let ghost prev = recs;
                proof {
                    recs = recs.push(record);
                    assert(recs.take(done) =~= prev.take(done));
                }
                batch.push(record);
                if batch.len() >= CSV_RECORDS_CHUNK_SIZE {
                    let full = batch;
                    batch = Vec::new();
                    proof {
                        lemma_process_in_chunks_append(old(processor)@, recs.take(done), full@);
                        assert(recs.take(done) + full@ =~= recs.take(done + 100));
                        done = done + 100;
                        assert(recs.subrange(done, recs.len() as int) =~= Seq::<TransactionRecord>::empty());
                    }
                    processor.process_records_batch(full);
                }
            },
            Err(e) => {
                proof {
                    lemma_decode_rows_stops(hv, data, i + 1);
                    assert(done == (recs.len() as int / 100) * 100);
                }
                let pos = if i < positions.len() { positions[i] } else { None };
                return Err(CsvReadError::IoReadError(row_error_message(pos, e, &rows[i])));
            },
        }
        i = i + 1;
    }
    proof {
        assert(data.take(i as int) =~= data);
        assert(done == (recs.len() as int / 100) * 100);
    }
    match csv_error {
        Some(m) => Err(CsvReadError::IoReadError(m)),
        None => {
            if batch.len() > 0 {
                proof {
                    lemma_process_in_chunks_append(old(processor)@, recs.take(done), batch@);
                    assert(recs.take(done) + batch@ =~= recs);
                }
                processor.process_records_batch(batch);
            } else {
                proof {
                    assert(recs.take(done) =~= recs);
                }
            }
            Ok(())
        },
    }
}

} // verus!
