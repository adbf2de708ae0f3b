use rain_stream::csv_reader::{read_csv, CsvReadError};
use rain_stream::decode::{decode_positional, decode_record, Column, RecordError};
use rain_stream::domain::{TransactionRecord, TransactionType};
use rain_stream::number::{parse_amount, parse_unsigned, AmountError, IntError};
use rain_stream::transactions_processor::{Account, TransactionProcessor};

fn units(x: f64) -> i64 {
    (x * 10_000.0).round() as i64
}

fn fields(items: &[&str]) -> Vec<String> {
    items.iter().map(|s| s.to_string()).collect()
}

fn zero_account() -> Account {
    Account { available: 0, held: 0, total: 0, locked: false }
}

fn processor_with(clients: &[u16]) -> TransactionProcessor {
    let mut p = TransactionProcessor::new();
    for c in clients {
        p.client_accounts.insert(*c, zero_account());
    }
    p
}

const SAMPLE: &str = "type, client, tx, amount
deposit, 1, 1, 1.0
deposit, 2, 2, 2.0
deposit, 1, 3, 2.0
withdrawal, 1, 4, 1.5
withdrawal, 2, 5, 3.0
";

#[test]
fn reads_and_processes_the_sample() {
    let mut p = processor_with(&[1, 2]);
    read_csv(SAMPLE.as_bytes(), &mut p).expect("sample reads");
    assert_eq!(*p.client_accounts.get(&1).unwrap(), Account { available: units(1.5), held: 0, total: units(1.5), locked: false });
    // the withdrawal of 3.0 exceeds 2.0 and is ignored
    assert_eq!(*p.client_accounts.get(&2).unwrap(), Account { available: units(2.0), held: 0, total: units(2.0), locked: false });
    assert_eq!(p.transactions_history.len(), 4);
}

#[test]
fn without_accounts_nothing_changes() {
    let mut p = TransactionProcessor::new();
    read_csv(SAMPLE.as_bytes(), &mut p).expect("sample reads");
    assert!(p.client_accounts.is_empty());
    assert!(p.transactions_history.is_empty());
}

#[test]
fn columns_are_found_by_name_and_amount_may_be_empty() {
    let text = "tx,amount,client,type,note\n1,5.25,3,deposit,x\n1,,3,dispute,y\n";
    let mut p = processor_with(&[3]);
    read_csv(text.as_bytes(), &mut p).expect("reads");
    assert_eq!(*p.client_accounts.get(&3).unwrap(), Account { available: 0, held: units(5.25), total: units(5.25), locked: false });
}

#[test]
fn unknown_type_is_an_error() {
    let text = "type,client,tx,amount\ndeposit,1,1,1.0\ntransfer,1,2,1.0\n";
    let mut p = processor_with(&[1]);
    match read_csv(text.as_bytes(), &mut p) {
        Err(CsvReadError::IoReadError(m)) => assert_eq!(
            m,
            "CSV deserialize error: record 2 (line: 3, byte: 38): unknown variant `transfer`, expected one of `deposit`, `withdrawal`, `dispute`, `resolve`, `chargeback`"
        ),
        other => panic!("unexpected {:?}", other),
    }
    // fewer than a whole chunk was read before the error: nothing processed
    assert_eq!(p.client_accounts.get(&1).unwrap().available, 0);
}

#[test]
fn invalid_utf8_in_any_field_is_a_csv_error() {
    let mut text = b"type,client,tx,amount,note\ndeposit,1,1,1.0,".to_vec();
    text.push(0xff);
    text.push(b'\n');
    let mut p = processor_with(&[1]);
    match read_csv(&text, &mut p) {
        Err(CsvReadError::IoReadError(m)) => assert!(m.starts_with("CSV parse error: record 1 (line 2, field: 4, byte: 27): "), "{}", m),
        other => panic!("unexpected {:?}", other),
    }
}

#[test]
fn unequal_row_lengths_are_a_csv_error() {
    let text = "type,client,tx,amount\ndeposit,1,1\n";
    let mut p = processor_with(&[1]);
    match read_csv(text.as_bytes(), &mut p) {
        Err(CsvReadError::IoReadError(m)) => assert_eq!(
            m,
            "CSV error: record 1 (line: 2, byte: 22): found record with 3 fields, but the previous record has 4 fields"
        ),
        other => panic!("unexpected {:?}", other),
    }
}

#[test]
fn missing_column_is_an_error() {
    let text = "type,client,amount\ndeposit,1,1.0\n";
    let mut p = processor_with(&[1]);
    match read_csv(text.as_bytes(), &mut p) {
        Err(CsvReadError::IoReadError(m)) => assert_eq!(m, "CSV deserialize error: record 1 (line: 2, byte: 19): missing field `tx`"),
        other => panic!("unexpected {:?}", other),
    }
}

#[test]
fn whole_chunks_before_an_error_are_processed() {
    let mut text = String::from("type,client,tx,amount\n");
    for tx in 1..=150u32 {
        text.push_str(&format!("deposit,1,{},1.0\n", tx));
    }
    text.push_str("deposit,1,151,abc\n");
    let mut p = processor_with(&[1]);
    match read_csv(text.as_bytes(), &mut p) {
        Err(CsvReadError::IoReadError(m)) => assert_eq!(m, "CSV deserialize error: record 151 (line: 152, byte: 2614): field 3: invalid float literal"),
        other => panic!("unexpected {:?}", other),
    }
    assert_eq!(p.client_accounts.get(&1).unwrap().available, units(100.0));
}

#[test]
fn all_records_are_processed_across_chunks() {
    let mut text = String::from("type,client,tx,amount\n");
    for tx in 1..=250u32 {
        text.push_str(&format!("deposit,1,{},0.5\n", tx));
    }
    let mut p = processor_with(&[1]);
    read_csv(text.as_bytes(), &mut p).expect("reads");
    assert_eq!(p.client_accounts.get(&1).unwrap().available, units(125.0));
}

#[test]
fn empty_input_reads_nothing() {
    let mut p = processor_with(&[1]);
    read_csv(b"", &mut p).expect("empty input reads");
    read_csv(b"type,client,tx,amount\n", &mut p).expect("header only reads");
    assert_eq!(p.client_accounts.get(&1).unwrap().available, 0);
}

#[test]
fn decodes_a_row() {
    let header = fields(&["type", "client", "tx", "amount"]);
    let row = fields(&["withdrawal", "0x10", "+7", "-1.23456"]);
    assert_eq!(
        decode_record(&header, &row),
        Ok(TransactionRecord { transaction_type: TransactionType::Withdrawal, client_id: 16, transaction_id: 7, amount: Some(-12346) })
    );
    let dup = fields(&["type", "type", "tx"]);
    assert_eq!(decode_record(&dup, &fields(&["deposit", "deposit", "1"])), Err(RecordError::DuplicateField(Column::Type)));
    assert_eq!(decode_record(&header, &fields(&["deposit", "70000", "1", "1"])), Err(RecordError::InvalidClientId(1, IntError::PosOverflow)));
    assert_eq!(decode_record(&header, &fields(&["deposit", "1", "-1", "1"])), Err(RecordError::InvalidTransactionId(2, IntError::InvalidDigit)));
    assert_eq!(decode_record(&header, &fields(&["deposit", "1"])), Err(RecordError::EndOfRow));
}

#[test]
fn decodes_a_row_by_position() {
    let deposit = |amount: Option<i64>| TransactionRecord { transaction_type: TransactionType::Deposit, client_id: 1, transaction_id: 2, amount };
    assert_eq!(decode_positional(&fields(&["deposit", "1", "2", "1.5"])), Ok(deposit(Some(15000))));
    assert_eq!(decode_positional(&fields(&["deposit", "1", "2", ""])), Ok(deposit(None)));
    assert_eq!(decode_positional(&fields(&["deposit", "1", "2", "3", "note"])), Ok(deposit(Some(30000))));
    assert_eq!(decode_positional(&fields(&["deposit", "1", "2"])), Err(RecordError::TooFewFields(3)));
    assert_eq!(decode_positional(&fields(&["deposit"])), Err(RecordError::TooFewFields(1)));
    assert_eq!(decode_positional(&fields(&["refund", "1", "2", "3"])), Err(RecordError::UnknownType(0)));
    assert_eq!(decode_positional(&fields(&["deposit", "x", "2", "3"])), Err(RecordError::InvalidClientId(1, IntError::InvalidDigit)));
    assert_eq!(decode_positional(&fields(&["deposit", "1", "", "3"])), Err(RecordError::InvalidTransactionId(2, IntError::Empty)));
    assert_eq!(decode_positional(&fields(&["deposit", "1", "2", "x"])), Err(RecordError::InvalidAmount(3, AmountError::Invalid)));
}

#[test]
fn a_header_that_is_not_utf8_means_fields_by_position() {
    let text = b"ty\xffpe,cl,tx,amount\ndeposit,1,1,2.5\n";
    let mut p = processor_with(&[1]);
    read_csv(text, &mut p).expect("reads by position");
    assert_eq!(p.client_accounts.get(&1).unwrap().available, units(2.5));
    let short = b"\xff,x,y\ndeposit,1,1\n";
    let mut q = processor_with(&[1]);
    match read_csv(short, &mut q) {
        Err(CsvReadError::IoReadError(m)) => assert_eq!(
            m,
            "CSV deserialize error: record 1 (line: 2, byte: 6): invalid length 3, expected struct TransactionRecord with 4 elements"
        ),
        other => panic!("unexpected {:?}", other),
    }
}

#[test]
fn parses_amounts() {
    assert_eq!(parse_amount(b"1.9234"), Ok(19234));
    assert_eq!(parse_amount(b"200.023"), Ok(2000230));
    assert_eq!(parse_amount(b"5"), Ok(50000));
    assert_eq!(parse_amount(b".5"), Ok(5000));
    assert_eq!(parse_amount(b"5."), Ok(50000));
    assert_eq!(parse_amount(b"+0.00005"), Ok(1));
    assert_eq!(parse_amount(b"0.00004999"), Ok(0));
    assert_eq!(parse_amount(b"-2.5"), Ok(-25000));
    assert_eq!(parse_amount(b"922337203685477.5807"), Ok(i64::MAX));
    assert_eq!(parse_amount(b"922337203685477.5808"), Err(AmountError::OutOfRange));
    assert_eq!(parse_amount(b"."), Err(AmountError::Invalid));
    assert_eq!(parse_amount(b"-"), Err(AmountError::Invalid));
    assert_eq!(parse_amount(b"1.2.3"), Err(AmountError::Invalid));
    assert_eq!(parse_amount(b"1e3"), Ok(10_000_000));
    assert_eq!(parse_amount(b"1.5E2"), Ok(1_500_000));
    assert_eq!(parse_amount(b"12345e-4"), Ok(12345));
    assert_eq!(parse_amount(b"-2.5e-1"), Ok(-2500));
    assert_eq!(parse_amount(b"1e-5"), Ok(0));
    assert_eq!(parse_amount(b"5e-5"), Ok(1));
    assert_eq!(parse_amount(b"4.9999e-4"), Ok(5));
    assert_eq!(parse_amount(b"0e99999999999999999999999"), Ok(0));
    assert_eq!(parse_amount(b"7e-99999999999999999999999"), Ok(0));
    assert_eq!(parse_amount(b"1e400"), Err(AmountError::OutOfRange));
    assert_eq!(parse_amount(b"1e"), Err(AmountError::Invalid));
    assert_eq!(parse_amount(b"1e+"), Err(AmountError::Invalid));
    assert_eq!(parse_amount(b"e5"), Err(AmountError::Invalid));
    assert_eq!(parse_amount(b"1e2.5"), Err(AmountError::Invalid));
    assert_eq!(parse_amount(b"inf"), Err(AmountError::OutOfRange));
    assert_eq!(parse_amount(b"NaN"), Err(AmountError::OutOfRange));
    assert_eq!(parse_amount(b""), Err(AmountError::Invalid));
}

#[test]
fn parses_unsigned_ids() {
    assert_eq!(parse_unsigned(b"65535", 0xffff), Ok(65535));
    assert_eq!(parse_unsigned(b"65536", 0xffff), Err(IntError::PosOverflow));
    assert_eq!(parse_unsigned(b"+12", 0xffff), Ok(12));
    assert_eq!(parse_unsigned(b"0xFf", 0xffff), Ok(255));
    assert_eq!(parse_unsigned(b"0x", 0xffff), Err(IntError::Empty));
    assert_eq!(parse_unsigned(b"ff", 0xffff), Err(IntError::InvalidDigit));
    assert_eq!(parse_unsigned(b"+", 0xffff), Err(IntError::InvalidDigit));
    assert_eq!(parse_unsigned(b"", 0xffff), Err(IntError::Empty));
    assert_eq!(parse_unsigned(b"4294967295", 0xffff_ffff), Ok(4294967295));
    assert_eq!(parse_unsigned(b"0000000000000000000042", 0xffff_ffff), Ok(42));
}

/// Rows like those of the end-to-end scenario: deposits and withdrawals of
/// clients 1 and 2, a resolved dispute of client 3, a chargeback of client 4
/// followed by a deposit that the lock refuses.
fn generated_transactions(n: u32) -> String {
    let mut text = String::from("type,client,tx,amount\n");
    let mut tx = 1u32;
    for client in 1..=2 {
        for _ in 0..n / 8 {
            text.push_str(&format!("deposit,{},{},{}\n", client, tx, 100.0f64));
            tx += 1;
        }
    }
    for client in 1..=2 {
        for _ in 0..n / 8 {
            text.push_str(&format!("withdrawal,{},{},{}\n", client, tx, 50.0f64));
            tx += 1;
        }
    }
    for _ in 0..n / 4 {
        text.push_str(&format!("deposit,3,{},{}\n", tx, 50.0f64));
        tx += 1;
    }
    text.push_str(&format!("dispute,3,{},{}\n", tx - 2, 0.0f64));
    text.push_str(&format!("resolve,3,{},{}\n", tx - 2, 0.0f64));
    for _ in 0..n / 4 {
        text.push_str(&format!("deposit,4,{},{}\n", tx, 200.0f64));
        tx += 1;
    }
    text.push_str(&format!("dispute,4,{},{}\n", tx - 2, 0.0f64));
    text.push_str(&format!("chargeback,4,{},{}\n", tx - 2, 0.0f64));
    text.push_str(&format!("deposit,4,{},{}\n", tx, 10000.0f64));
    text
}

#[test]
fn generated_transactions_end_to_end() {
    let text = generated_transactions(16);
    let mut p = processor_with(&[1, 2, 3, 4]);
    read_csv(text.as_bytes(), &mut p).expect("reads");
    let acct = |c: u16| *p.client_accounts.get(&c).unwrap();
    assert_eq!(acct(1), Account { available: units(100.0), held: 0, total: units(100.0), locked: false });
    assert_eq!(acct(2), Account { available: units(100.0), held: 0, total: units(100.0), locked: false });
    assert_eq!(acct(3), Account { available: units(200.0), held: 0, total: units(200.0), locked: false });
    assert_eq!(acct(4), Account { available: units(600.0), held: 0, total: units(600.0), locked: true });
}
