use rain_stream::csv_reader::read_csv;
use rain_stream::domain::{TransactionRecord, TransactionType};
use rain_stream::transactions_processor::{Account, TransactionProcessor};

fn rec(transaction_type: TransactionType, client_id: u16, transaction_id: u32, amount: Option<i64>) -> TransactionRecord {
    TransactionRecord { transaction_type, client_id, transaction_id, amount }
}

fn fresh(clients: &[u16]) -> TransactionProcessor {
    let mut p = TransactionProcessor::new();
    for c in clients {
        p.client_accounts.insert(*c, Account { available: 0, held: 0, total: 0, locked: false });
    }
    p
}

/// Records of three clients; each names only its own transactions.
fn mixed() -> Vec<TransactionRecord> {
    vec![
        rec(TransactionType::Deposit, 1, 1, Some(50_000)),
        rec(TransactionType::Deposit, 2, 2, Some(30_000)),
        rec(TransactionType::Withdrawal, 1, 3, Some(20_000)),
        rec(TransactionType::Dispute, 2, 2, None),
        rec(TransactionType::Deposit, 3, 4, Some(10_000)),
        rec(TransactionType::Dispute, 1, 1, None),
        rec(TransactionType::Chargeback, 2, 2, None),
        rec(TransactionType::Deposit, 2, 5, Some(1_000)),
        rec(TransactionType::Withdrawal, 3, 6, Some(90_000)),
    ]
}

#[test]
fn batch_equals_records_one_by_one() {
    let records = mixed();
    let mut batch = fresh(&[1, 2, 3]);
    batch.process_records_batch(records.clone());
    let mut single = fresh(&[1, 2, 3]);
    for r in &records {
        TransactionProcessor::process_client_records(r.client_id, vec![*r], &mut single.client_accounts, &mut single.transactions_history);
    }
    assert_eq!(batch.client_accounts, single.client_accounts);
    assert_eq!(batch.transactions_history, single.transactions_history);
    assert!(batch.client_accounts[&2].locked);
}

#[test]
fn reordering_clients_keeps_the_outcome() {
    let records = mixed();
    // client 3 first, then 2, then 1; each client's records keep their order
    let mut reordered: Vec<TransactionRecord> = Vec::new();
    for c in [3u16, 2, 1] {
        reordered.extend(records.iter().filter(|r| r.client_id == c));
    }
    let mut a = fresh(&[1, 2, 3]);
    a.process_records_batch(records);
    let mut b = fresh(&[1, 2, 3]);
    b.process_records_batch(reordered);
    assert_eq!(a.client_accounts, b.client_accounts);
    assert_eq!(a.transactions_history, b.transactions_history);
}

#[test]
fn two_batches_equal_one() {
    let records = mixed();
    let (first, second) = records.split_at(4);
    let mut a = fresh(&[1, 2, 3]);
    a.process_records_batch(first.to_vec());
    a.process_records_batch(second.to_vec());
    let mut b = fresh(&[1, 2, 3]);
    b.process_records_batch(records.clone());
    assert_eq!(a.client_accounts, b.client_accounts);
    assert_eq!(a.transactions_history, b.transactions_history);
}

#[test]
fn chunked_reading_equals_one_batch() {
    let mut text = String::from("type,client,tx,amount\n");
    let mut records: Vec<TransactionRecord> = Vec::new();
    for tx in 1..=250u32 {
        let client = (tx % 3) as u16 + 1;
        text.push_str(&format!("deposit,{},{},1.5\n", client, tx));
        records.push(rec(TransactionType::Deposit, client, tx, Some(15_000)));
        if tx % 7 == 0 {
            text.push_str(&format!("dispute,{},{},\n", client, tx));
            records.push(rec(TransactionType::Dispute, client, tx, None));
        }
    }
    let mut a = fresh(&[1, 2, 3]);
    read_csv(text.as_bytes(), &mut a).expect("reads");
    let mut b = fresh(&[1, 2, 3]);
    b.process_records_batch(records);
    assert_eq!(a.client_accounts, b.client_accounts);
    assert_eq!(a.transactions_history, b.transactions_history);
}
