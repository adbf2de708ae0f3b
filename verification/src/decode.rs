//! Turning the fields of a CSV row into a transaction record, by the names in
//! the header row: `type`, `client`, `tx` and `amount`. Other columns are
//! ignored; `amount` may be missing or empty. Without a header row that can
//! be read as text, the fields are taken by position in that order.

use vstd::prelude::*;

use crate::domain::{TransactionRecord, TransactionType};
use crate::number::{
    all_digits, digits_value, law_decimal_digits_parse, parse_amount, parse_amount_spec, parse_unsigned, parse_unsigned_spec,
    AmountError, IntError,
};
use vstd::utf8::encode_utf8;

verus! {

/// Why a row is not a transaction record; the numbers are column indexes.
#[derive(Debug, Clone, Copy, PartialEq, Eq, Structural)]
pub enum RecordError {
    /// The column of `type`, `client` or `tx` (the first missing one) is absent.
    MissingField(Column),
    /// A column name occurs twice.
    DuplicateField(Column),
    /// The row has fewer fields than the header.
    EndOfRow,
    /// The `type` field is not one of the transaction types.
    UnknownType(usize),
    /// The `client` field is not a `u16`.
    InvalidClientId(usize, IntError),
    /// The `tx` field is not a `u32`.
    InvalidTransactionId(usize, IntError),
    /// The `amount` field is not an amount.
    InvalidAmount(usize, AmountError),
    /// Read by position, the row has only this many fields, fewer than the
    /// four of a record.
    TooFewFields(usize),
}

/// The meaning of a column, by its header.
#[derive(Debug, Clone, Copy, PartialEq, Eq, Structural)]
pub enum Column {
    Type,
    Client,
    Tx,
    Amount,
    Other,
}

/// The fields found so far in a row; `amount` is `Some` once its column was
/// seen, holding the amount or `None` for an empty field.
#[derive(Debug, Clone, Copy, PartialEq, Eq, Structural)]
pub struct PartialRecord {
    pub transaction_type: Option<TransactionType>,
    pub client_id: Option<u16>,
    pub transaction_id: Option<u32>,
    pub amount: Option<Option<i64>>,
}

/// The bytes of `type`.
pub open spec fn type_header() -> Seq<u8> {
    seq![116u8, 121, 112, 101]
}

fn is_type_header(f: &[u8]) -> (b: bool)
    ensures
        b == (f@ == type_header()),
{
    let b = f.len() == 4 && f[0] == 116 && f[1] == 121 && f[2] == 112 && f[3] == 101;
    proof {
        if b {
            assert(f@ =~= type_header());
        }
    }
    b
}

/// The bytes of `client`.
pub open spec fn client_header() -> Seq<u8> {
    seq![99u8, 108, 105, 101, 110, 116]
}

fn is_client_header(f: &[u8]) -> (b: bool)
    ensures
        b == (f@ == client_header()),
{
    let b = f.len() == 6 && f[0] == 99 && f[1] == 108 && f[2] == 105 && f[3] == 101 && f[4] == 110 && f[5] == 116;
    proof {
        if b {
            assert(f@ =~= client_header());
        }
    }
    b
}

/// The bytes of `tx`.
pub open spec fn tx_header() -> Seq<u8> {
    seq![116u8, 120]
}

fn is_tx_header(f: &[u8]) -> (b: bool)
    ensures
        b == (f@ == tx_header()),
{
    let b = f.len() == 2 && f[0] == 116 && f[1] == 120;
    proof {
        if b {
            assert(f@ =~= tx_header());
        }
    }
    b
}

/// The bytes of `amount`.
pub open spec fn amount_header() -> Seq<u8> {
    seq![97u8, 109, 111, 117, 110, 116]
}

fn is_amount_header(f: &[u8]) -> (b: bool)
    ensures
        b == (f@ == amount_header()),
{
    let b = f.len() == 6 && f[0] == 97 && f[1] == 109 && f[2] == 111 && f[3] == 117 && f[4] == 110 && f[5] == 116;
    proof {
        if b {
            assert(f@ =~= amount_header());
        }
    }
    b
}

/// The bytes of `deposit`.
pub open spec fn deposit_name() -> Seq<u8> {
    seq![100u8, 101, 112, 111, 115, 105, 116]
}

fn is_deposit_name(f: &[u8]) -> (b: bool)
    ensures
        b == (f@ == deposit_name()),
{
    let b = f.len() == 7 && f[0] == 100 && f[1] == 101 && f[2] == 112 && f[3] == 111 && f[4] == 115 && f[5] == 105 && f[6] == 116;
    proof {
        if b {
            assert(f@ =~= deposit_name());
        }
    }
    b
}

/// The bytes of `withdrawal`.
pub open spec fn withdrawal_name() -> Seq<u8> {
    seq![119u8, 105, 116, 104, 100, 114, 97, 119, 97, 108]
}

fn is_withdrawal_name(f: &[u8]) -> (b: bool)
    ensures
        b == (f@ == withdrawal_name()),
{
    let b = f.len() == 10 && f[0] == 119 && f[1] == 105 && f[2] == 116 && f[3] == 104 && f[4] == 100 && f[5] == 114 && f[6] == 97 && f[7] == 119 && f[8] == 97 && f[9] == 108;
    proof {
        if b {
            assert(f@ =~= withdrawal_name());
        }
    }
    b
}

/// The bytes of `dispute`.
pub open spec fn dispute_name() -> Seq<u8> {
    seq![100u8, 105, 115, 112, 117, 116, 101]
}

fn is_dispute_name(f: &[u8]) -> (b: bool)
    ensures
        b == (f@ == dispute_name()),
{
    let b = f.len() == 7 && f[0] == 100 && f[1] == 105 && f[2] == 115 && f[3] == 112 && f[4] == 117 && f[5] == 116 && f[6] == 101;
    proof {
        if b {
            assert(f@ =~= dispute_name());
        }
    }
    b
}

/// The bytes of `resolve`.
pub open spec fn resolve_name() -> Seq<u8> {
    seq![114u8, 101, 115, 111, 108, 118, 101]
}

fn is_resolve_name(f: &[u8]) -> (b: bool)
    ensures
        b == (f@ == resolve_name()),
{
    let b = f.len() == 7 && f[0] == 114 && f[1] == 101 && f[2] == 115 && f[3] == 111 && f[4] == 108 && f[5] == 118 && f[6] == 101;
    proof {
        if b {
            assert(f@ =~= resolve_name());
        }
    }
    b
}

/// The bytes of `chargeback`.
pub open spec fn chargeback_name() -> Seq<u8> {
    seq![99u8, 104, 97, 114, 103, 101, 98, 97, 99, 107]
}

fn is_chargeback_name(f: &[u8]) -> (b: bool)
    ensures
        b == (f@ == chargeback_name()),
{
    let b = f.len() == 10 && f[0] == 99 && f[1] == 104 && f[2] == 97 && f[3] == 114 && f[4] == 103 && f[5] == 101 && f[6] == 98 && f[7] == 97 && f[8] == 99 && f[9] == 107;
    proof {
        if b {
            assert(f@ =~= chargeback_name());
        }
    }
    b
}

pub open spec fn column_of(name: Seq<u8>) -> Column {
    if name == type_header() {
        Column::Type
    } else if name == client_header() {
        Column::Client
    } else if name == tx_header() {
        Column::Tx
    } else if name == amount_header() {
        Column::Amount
    } else {
        Column::Other
    }
}

fn column_kind(name: &[u8]) -> (c: Column)
    ensures
        c == column_of(name@),
{
    if is_type_header(name) {
        Column::Type
    } else if is_client_header(name) {
        Column::Client
    } else if is_tx_header(name) {
        Column::Tx
    } else if is_amount_header(name) {
        Column::Amount
    } else {
        Column::Other
    }
}

/// The transaction type a `type` field names, in lower case.
pub open spec fn transaction_type_of(f: Seq<u8>) -> Option<TransactionType> {
    if f == deposit_name() {
        Some(TransactionType::Deposit)
    } else if f == withdrawal_name() {
        Some(TransactionType::Withdrawal)
    } else if f == dispute_name() {
        Some(TransactionType::Dispute)
    } else if f == resolve_name() {
        Some(TransactionType::Resolve)
    } else if f == chargeback_name() {
        Some(TransactionType::Chargeback)
    } else {
        None
    }
}

fn parse_transaction_type(f: &[u8]) -> (t: Option<TransactionType>)
    ensures
        t == transaction_type_of(f@),
{
    if is_deposit_name(f) {
        Some(TransactionType::Deposit)
    } else if is_withdrawal_name(f) {
        Some(TransactionType::Withdrawal)
    } else if is_dispute_name(f) {
        Some(TransactionType::Dispute)
    } else if is_resolve_name(f) {
        Some(TransactionType::Resolve)
    } else if is_chargeback_name(f) {
        Some(TransactionType::Chargeback)
    } else {
        None
    }
}

pub open spec fn no_fields() -> PartialRecord {
    PartialRecord { transaction_type: None, client_id: None, transaction_id: None, amount: None }
}

/// Takes in the field of column `i`, named `name`.
pub open spec fn decode_column(p: PartialRecord, name: Seq<u8>, row: Seq<Seq<u8>>, i: int) -> Result<PartialRecord, RecordError> {
    match column_of(name) {
        Column::Other => if i < row.len() {
            Ok(p)
        } else {
            Err(RecordError::EndOfRow)
        },
        Column::Type => if p.transaction_type is Some {
            Err(RecordError::DuplicateField(Column::Type))
        } else if i >= row.len() {
            Err(RecordError::EndOfRow)
        } else {
            match transaction_type_of(row[i]) {
                Some(t) => Ok(PartialRecord { transaction_type: Some(t), ..p }),
                None => Err(RecordError::UnknownType(i as usize)),
            }
        },
        Column::Client => if p.client_id is Some {
            Err(RecordError::DuplicateField(Column::Client))
        } else if i >= row.len() {
            Err(RecordError::EndOfRow)
        } else {
            match parse_unsigned_spec(row[i], u16::MAX as nat) {
                Ok(v) => Ok(PartialRecord { client_id: Some(v as u16), ..p }),
                Err(e) => Err(RecordError::InvalidClientId(i as usize, e)),
            }
        },
        Column::Tx => if p.transaction_id is Some {
            Err(RecordError::DuplicateField(Column::Tx))
        } else if i >= row.len() {
            Err(RecordError::EndOfRow)
        } else {
            match parse_unsigned_spec(row[i], u32::MAX as nat) {
                Ok(v) => Ok(PartialRecord { transaction_id: Some(v as u32), ..p }),
                Err(e) => Err(RecordError::InvalidTransactionId(i as usize, e)),
            }
        },
        Column::Amount => if p.amount is Some {
            Err(RecordError::DuplicateField(Column::Amount))
        } else if i >= row.len() || row[i].len() == 0 {
            Ok(PartialRecord { amount: Some(None), ..p })
        } else {
            match parse_amount_spec(row[i]) {
                Ok(v) => Ok(PartialRecord { amount: Some(Some(v as i64)), ..p }),
                Err(e) => Err(RecordError::InvalidAmount(i as usize, e)),
            }
        },
    }
}

/// The fields of the first `n` columns, taken left to right; the first
/// failure stops the row.
pub open spec fn decode_columns(header: Seq<Seq<u8>>, row: Seq<Seq<u8>>, n: nat) -> Result<PartialRecord, RecordError>
    decreases n,
{
    if n == 0 {
        Ok(no_fields())
    } else {
        match decode_columns(header, row, (n - 1) as nat) {
            Ok(p) => decode_column(p, header[n - 1], row, n - 1),
            Err(e) => Err(e),
        }
    }
}

/// The record a row holds under the header: every column is read left to
/// right, then `type`, `client` and `tx` must all have been found; a missing
/// `amount` column means no amount.
pub open spec fn decode_record_spec(header: Seq<Seq<u8>>, row: Seq<Seq<u8>>) -> Result<TransactionRecord, RecordError> {
    match decode_columns(header, row, header.len()) {
        Ok(p) => match (p.transaction_type, p.client_id, p.transaction_id) {
            (Some(t), Some(c), Some(x)) => Ok(TransactionRecord {
                transaction_type: t,
                client_id: c,
                transaction_id: x,
                amount: match p.amount {
                    Some(a) => a,
                    None => None,
                },
            }),
            _ => Err(RecordError::MissingField(first_missing(p))),
        },
        Err(e) => Err(e),
    }
}

/// The first of `type`, `client`, `tx` not found.
pub open spec fn first_missing(p: PartialRecord) -> Column {
    if p.transaction_type is None {
        Column::Type
    } else if p.client_id is None {
        Column::Client
    } else {
        Column::Tx
    }
}

/// The UTF-8 bytes of each text field.
pub open spec fn field_bytes(fields: Seq<Seq<char>>) -> Seq<Seq<u8>> {
    fields.map_values(|f: Seq<char>| encode_utf8(f))
}

fn decode_column_exec(p: PartialRecord, name: &[u8], row: &Vec<String>, i: usize) -> (r: Result<PartialRecord, RecordError>)
    ensures
        r == decode_column(p, name@, field_bytes(row.deep_view()), i as int),
{
    let ghost drow = field_bytes(row.deep_view());
    let kind = column_kind(name);
    if i >= row.len() {
        return match kind {
            Column::Other => Err(RecordError::EndOfRow),
            Column::Type => if p.transaction_type.is_some() {
                Err(RecordError::DuplicateField(Column::Type))
            } else {
                Err(RecordError::EndOfRow)
            },
            Column::Client => if p.client_id.is_some() {
                Err(RecordError::DuplicateField(Column::Client))
            } else {
                Err(RecordError::EndOfRow)
            },
            Column::Tx => if p.transaction_id.is_some() {
                Err(RecordError::DuplicateField(Column::Tx))
            } else {
                Err(RecordError::EndOfRow)
            },
            Column::Amount => if p.amount.is_some() {
                Err(RecordError::DuplicateField(Column::Amount))
            } else {
                Ok(PartialRecord { amount: Some(None), ..p })
            },
        };
    }
    let field = row[i].as_str().as_bytes();
    proof {
        assert(row.deep_view()[i as int] == row@[i as int]@);
        assert(drow[i as int] == encode_utf8(row@[i as int]@));
        assert(field@ == drow[i as int]);
    }
    match kind {
        Column::Other => Ok(p),
        Column::Type => if p.transaction_type.is_some() {
            Err(RecordError::DuplicateField(Column::Type))
        } else {
            match parse_transaction_type(field) {
                Some(t) => Ok(PartialRecord { transaction_type: Some(t), ..p }),
                None => Err(RecordError::UnknownType(i)),
            }
        },
        Column::Client => if p.client_id.is_some() {
            Err(RecordError::DuplicateField(Column::Client))
        } else {
            match parse_unsigned(field, 0xffff) {
                Ok(v) => Ok(PartialRecord { client_id: Some(v as u16), ..p }),
                Err(e) => Err(RecordError::InvalidClientId(i, e)),
            }
        },
        Column::Tx => if p.transaction_id.is_some() {
            Err(RecordError::DuplicateField(Column::Tx))
        } else {
            match parse_unsigned(field, 0xffff_ffff) {
                Ok(v) => Ok(PartialRecord { transaction_id: Some(v as u32), ..p }),
                Err(e) => Err(RecordError::InvalidTransactionId(i, e)),
            }
        },
        Column::Amount => if p.amount.is_some() {
            Err(RecordError::DuplicateField(Column::Amount))
        } else if field.len() == 0 {
            Ok(PartialRecord { amount: Some(None), ..p })
        } else {
            match parse_amount(field) {
                Ok(v) => Ok(PartialRecord { amount: Some(Some(v)), ..p }),
                Err(e) => Err(RecordError::InvalidAmount(i, e)),
            }
        },
    }
}

/// Decodes one data row under the header row.
pub fn decode_record(header: &Vec<String>, row: &Vec<String>) -> (r: Result<TransactionRecord, RecordError>)
    ensures
        r == decode_record_spec(field_bytes(header.deep_view()), field_bytes(row.deep_view())),
{
    let ghost dh = field_bytes(header.deep_view());
    let mut p = PartialRecord { transaction_type: None, client_id: None, transaction_id: None, amount: None };
    let mut i: usize = 0;
    while i < header.len()
        invariant
            i <= header.len(),
            dh == field_bytes(header.deep_view()),
            decode_columns(dh, field_bytes(row.deep_view()), i as nat) == Ok::<PartialRecord, RecordError>(p),
        decreases header.len() - i,
    {
        let name = header[i].as_str().as_bytes();
        proof {
            assert(header.deep_view()[i as int] == header@[i as int]@);
            assert(dh[i as int] == encode_utf8(header@[i as int]@));
        }
        match decode_column_exec(p, name, row, i) {
            Ok(next) => {
                p = next;
            },
            Err(e) => {
                proof {
                    lemma_decode_columns_stops(dh, field_bytes(row.deep_view()), (i + 1) as nat, header.len() as nat);
                }
                return Err(e);
            },
        }
        i = i + 1;
    }
    match (p.transaction_type, p.client_id, p.transaction_id) {
        (Some(t), Some(c), Some(x)) => Ok(TransactionRecord {
            transaction_type: t,
            client_id: c,
            transaction_id: x,
            amount: match p.amount {
                Some(a) => a,
                None => None,
            },
        }),
        _ => Err(RecordError::MissingField(
            if p.transaction_type.is_none() {
                Column::Type
            } else if p.client_id.is_none() {
                Column::Client
            } else {
                Column::Tx
            },
        )),
    }
}

/// Once a column fails, the row fails with that error.
proof fn lemma_decode_columns_stops(header: Seq<Seq<u8>>, row: Seq<Seq<u8>>, m: nat, n: nat)
    requires
        m <= n,
        decode_columns(header, row, m) is Err,
    ensures
        decode_columns(header, row, n) == decode_columns(header, row, m),
    decreases n - m,
{
    if m < n {
        lemma_decode_columns_stops(header, row, m, (n - 1) as nat);
    }
}

/// The record a row holds read by position: `type`, `client`, `tx` and
/// `amount` in that order (an empty amount is none); fields after them are
/// ignored.
pub open spec fn decode_positional_spec(row: Seq<Seq<u8>>) -> Result<TransactionRecord, RecordError> {
    if row.len() < 1 {
        Err(RecordError::TooFewFields(0))
    } else {
        match transaction_type_of(row[0]) {
            None => Err(RecordError::UnknownType(0)),
            Some(t) => if row.len() < 2 {
                Err(RecordError::TooFewFields(1))
            } else {
                match parse_unsigned_spec(row[1], u16::MAX as nat) {
                    Err(e) => Err(RecordError::InvalidClientId(1, e)),
                    Ok(c) => if row.len() < 3 {
                        Err(RecordError::TooFewFields(2))
                    } else {
                        match parse_unsigned_spec(row[2], u32::MAX as nat) {
                            Err(e) => Err(RecordError::InvalidTransactionId(2, e)),
                            Ok(x) => if row.len() < 4 {
                                Err(RecordError::TooFewFields(3))
                            } else if row[3].len() == 0 {
                                Ok(TransactionRecord { transaction_type: t, client_id: c as u16, transaction_id: x as u32, amount: None })
                            } else {
                                match parse_amount_spec(row[3]) {
                                    Ok(v) => Ok(TransactionRecord {
                                        transaction_type: t,
                                        client_id: c as u16,
                                        transaction_id: x as u32,
                                        amount: Some(v as i64),
                                    }),
                                    Err(e) => Err(RecordError::InvalidAmount(3, e)),
                                }
                            },
                        }
                    },
                }
            },
        }
    }
}

/// The bytes of field `i` of the row.
fn field_at(row: &Vec<String>, i: usize) -> (f: &[u8])
    requires
        i < row.len(),
    ensures
        f@ == field_bytes(row.deep_view())[i as int],
{
    proof {
        assert(row.deep_view()[i as int] == row@[i as int]@);
    }
    row[i].as_str().as_bytes()
}

/// Decodes one data row by position, when there is no header to go by.
pub fn decode_positional(row: &Vec<String>) -> (r: Result<TransactionRecord, RecordError>)
    ensures
        r == decode_positional_spec(field_bytes(row.deep_view())),
{
    if row.len() < 1 {
        return Err(RecordError::TooFewFields(0));
    }
    let t = match parse_transaction_type(field_at(row, 0)) {
        Some(t) => t,
        None => return Err(RecordError::UnknownType(0)),
    };
    if row.len() < 2 {
        return Err(RecordError::TooFewFields(1));
    }
    let c = match parse_unsigned(field_at(row, 1), 0xffff) {
        Ok(c) => c as u16,
        Err(e) => return Err(RecordError::InvalidClientId(1, e)),
    };
    if row.len() < 3 {
        return Err(RecordError::TooFewFields(2));
    }
    let x = match parse_unsigned(field_at(row, 2), 0xffff_ffff) {
        Ok(x) => x as u32,
        Err(e) => return Err(RecordError::InvalidTransactionId(2, e)),
    };
    if row.len() < 4 {
        return Err(RecordError::TooFewFields(3));
    }
    let a = field_at(row, 3);
    if a.len() == 0 {
        return Ok(TransactionRecord { transaction_type: t, client_id: c, transaction_id: x, amount: None });
    }
    match parse_amount(a) {
        Ok(v) => Ok(TransactionRecord { transaction_type: t, client_id: c, transaction_id: x, amount: Some(v) }),
        Err(e) => Err(RecordError::InvalidAmount(3, e)),
    }
}

/// The header `type,client,tx,amount`.
pub open spec fn named_header() -> Seq<Seq<u8>> {
    seq![type_header(), client_header(), tx_header(), amount_header()]
}

/// The four fields of a row are a transaction type, decimal client and tx
/// ids (digits only) and an amount or nothing.
pub open spec fn decimal_row(row: Seq<Seq<u8>>) -> bool {
    &&& row.len() == 4
    &&& transaction_type_of(row[0]) is Some
    &&& row[1].len() >= 1 && all_digits(row[1], 10)
    &&& row[2].len() >= 1 && all_digits(row[2], 10)
    &&& row[3].len() == 0 || parse_amount_spec(row[3]) is Ok
}

proof fn lemma_named_columns()
    ensures
        column_of(type_header()) == Column::Type,
        column_of(client_header()) == Column::Client,
        column_of(tx_header()) == Column::Tx,
        column_of(amount_header()) == Column::Amount,
{
    assert(client_header().len() != type_header().len());
    assert(tx_header().len() != type_header().len());
    assert(tx_header().len() != client_header().len());
    assert(amount_header().len() != type_header().len());
    assert(amount_header()[0] != client_header()[0]);
    assert(amount_header() != client_header());
    assert(amount_header().len() != tx_header().len());
}

/// Law: under the header `type,client,tx,amount`, and read by position, a
/// row whose client id is at most `u16::MAX` and whose tx id is at most
/// `u32::MAX` decodes, with exactly those ids and its transaction type.
pub proof fn law_ids_in_range_decode(row: Seq<Seq<u8>>)
    requires
        decimal_row(row),
        digits_value(row[1], 10) <= u16::MAX,
        digits_value(row[2], 10) <= u32::MAX,
    ensures
        decode_record_spec(named_header(), row) is Ok,
        decode_record_spec(named_header(), row)->Ok_0.transaction_type == transaction_type_of(row[0])->0,
        decode_record_spec(named_header(), row)->Ok_0.client_id == digits_value(row[1], 10),
        decode_record_spec(named_header(), row)->Ok_0.transaction_id == digits_value(row[2], 10),
        decode_positional_spec(row) == decode_record_spec(named_header(), row),
{
    lemma_named_columns();
    law_decimal_digits_parse(row[1], u16::MAX as nat);
    law_decimal_digits_parse(row[2], u32::MAX as nat);
    reveal_with_fuel(decode_columns, 5);
}

/// Law: under the header `type,client,tx,amount`, and read by position, a
/// client id above `u16::MAX` is refused as too large; with the client id
/// in range, a tx id above `u32::MAX` is.
pub proof fn law_ids_out_of_range_refused(row: Seq<Seq<u8>>)
    requires
        decimal_row(row),
    ensures
        digits_value(row[1], 10) > u16::MAX ==> decode_record_spec(named_header(), row)
            == Err::<TransactionRecord, RecordError>(RecordError::InvalidClientId(1, IntError::PosOverflow)),
        digits_value(row[1], 10) <= u16::MAX && digits_value(row[2], 10) > u32::MAX ==> decode_record_spec(named_header(), row)
            == Err::<TransactionRecord, RecordError>(RecordError::InvalidTransactionId(2, IntError::PosOverflow)),
        decode_positional_spec(row) == decode_record_spec(named_header(), row),
{
    lemma_named_columns();
    law_decimal_digits_parse(row[1], u16::MAX as nat);
    law_decimal_digits_parse(row[2], u32::MAX as nat);
    reveal_with_fuel(decode_columns, 5);
}

} // verus!
