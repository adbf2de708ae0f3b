use rain_stream::domain::{TransactionRecord, TransactionType};
use rain_stream::transactions_processor::{Account, TransactionProcessor};
use std::collections::HashMap;

/// An amount in ten-thousandths, from its decimal value.
fn units(x: f64) -> i64 {
    (x * 10_000.0).round() as i64
}

fn record(transaction_type: TransactionType, client_id: u16, transaction_id: u32, amount: Option<f64>) -> TransactionRecord {
    TransactionRecord { transaction_type, client_id, transaction_id, amount: amount.map(units) }
}

fn zero_account() -> Account {
    Account { available: 0, held: 0, total: 0, locked: false }
}

fn create_test_records_simple_deposit_withdraw(client_id: u16) -> Vec<TransactionRecord> {
    vec![
        record(TransactionType::Deposit, client_id, 1, Some(1.9234)),
        record(TransactionType::Deposit, client_id, 2, Some(23.3525)),
        record(TransactionType::Withdrawal, client_id, 3, Some(50.234)),
        record(TransactionType::Withdrawal, client_id, 4, Some(20.4354)),
    ]
}

fn create_test_records_with_dispute(client_id: u16) -> Vec<TransactionRecord> {
    vec![
        record(TransactionType::Deposit, client_id, 1, Some(1.9234)),
        record(TransactionType::Dispute, client_id, 1, None),
    ]
}

fn create_test_records_with_dispute_resolved(client_id: u16) -> Vec<TransactionRecord> {
    vec![
        record(TransactionType::Deposit, client_id, 1, Some(1.9234)),
        record(TransactionType::Dispute, client_id, 1, None),
        record(TransactionType::Resolve, client_id, 1, None),
    ]
}

fn create_test_records_with_dispute_chargeback(client_id: u16) -> Vec<TransactionRecord> {
    vec![
        record(TransactionType::Deposit, client_id, 1, Some(1.9234)),
        record(TransactionType::Deposit, client_id, 2, Some(200.023)),
        record(TransactionType::Dispute, client_id, 1, None),
        record(TransactionType::Chargeback, client_id, 1, None),
        // ignored: the chargeback locked the account
        record(TransactionType::Deposit, client_id, 3, Some(2300.00)),
        record(TransactionType::Deposit, client_id, 4, Some(12.12)),
    ]
}

fn create_test_records_with_mixed_clients_deposits_withdrawals() -> Vec<TransactionRecord> {
    vec![
        record(TransactionType::Deposit, 1, 1, Some(1.9234)),
        record(TransactionType::Deposit, 2, 2, Some(200.023)),
        record(TransactionType::Withdrawal, 2, 3, Some(10.00)),
        record(TransactionType::Deposit, 3, 4, Some(1.1245)),
        record(TransactionType::Deposit, 4, 5, Some(1.1245)),
    ]
}

fn run_client(client_id: u16, records: &Vec<TransactionRecord>) -> (HashMap<u16, Account>, HashMap<u32, TransactionRecord>) {
    let mut client_accounts: HashMap<u16, Account> = HashMap::new();
    let mut transactions_history: HashMap<u32, TransactionRecord> = HashMap::new();
    client_accounts.insert(client_id, zero_account());
    TransactionProcessor::process_client_records(client_id, records.clone(), &mut client_accounts, &mut transactions_history);
    (client_accounts, transactions_history)
}

// Only deposits and withdrawals that take effect are recorded in the
// history: the withdrawal of tx 3 exceeds the available funds, is refused,
// and leaves no entry.
#[test]
fn test_process_client_records() {
    let client_id = 1;
    let records = create_test_records_simple_deposit_withdraw(client_id);
    let (accounts, history) = run_client(client_id, &records);
    let account = accounts.get(&client_id).expect("Account not found");
    assert_eq!(account.available, units(4.8405));
    assert_eq!(account.held, units(0.0));
    assert_eq!(account.total, units(4.8405));
    assert!(!account.locked);
    assert_eq!(history.get(&1), Some(&records[0]));
    assert_eq!(history.get(&2), Some(&records[1]));
    // the refused withdrawal does not enter the history
    assert_eq!(history.get(&3), None);
    assert_eq!(history.get(&4), Some(&records[3]));
}

#[test]
fn test_process_client_records_dispute() {
    let client_id = 1;
    let records = create_test_records_with_dispute(client_id);
    let (accounts, history) = run_client(client_id, &records);
    let account = accounts.get(&client_id).expect("Account not found");
    assert_eq!(account.available, units(0.0));
    assert_eq!(account.held, units(1.9234));
    assert_eq!(account.total, units(1.9234));
    assert!(!account.locked);
    assert_eq!(history.get(&1), Some(&records[0]));
}

#[test]
fn test_process_client_records_resolve() {
    let client_id = 1;
    let records = create_test_records_with_dispute_resolved(client_id);
    let (accounts, history) = run_client(client_id, &records);
    let account = accounts.get(&client_id).expect("Account not found");
    assert_eq!(account.available, units(1.9234));
    assert_eq!(account.held, units(0.0));
    assert_eq!(account.total, units(1.9234));
    assert!(!account.locked);
    assert_eq!(history.get(&1), Some(&records[0]));
}

#[test]
fn test_process_client_records_chargeback() {
    let client_id = 1;
    let records = create_test_records_with_dispute_chargeback(client_id);
    let (accounts, history) = run_client(client_id, &records);
    let account = accounts.get(&client_id).expect("Account not found");
    assert_eq!(account.available, units(200.023));
    assert_eq!(account.held, units(0.0));
    assert_eq!(account.total, units(200.023));
    assert!(account.locked);
    assert_eq!(history.get(&1), Some(&records[0]));
}

#[test]
fn test_process_client_batch_records_deposit_withdrawal() {
    let records = create_test_records_with_mixed_clients_deposits_withdrawals();
    let mut processor = TransactionProcessor::new();
    for client_id in 1..=4 {
        processor.client_accounts.insert(client_id, zero_account());
    }
    processor.process_records_batch(records.clone());
    let account = processor.client_accounts.get(&1).expect("Account not found");
    assert_eq!(account.available, units(1.9234));
    assert_eq!(account.held, units(0.0));
    assert_eq!(account.total, units(1.9234));
    assert!(!account.locked);
    assert_eq!(processor.transactions_history.get(&1), Some(&records[0]));
    let account2 = processor.client_accounts.get(&2).expect("Account not found");
    assert_eq!(account2.available, units(190.023));
    assert_eq!(account2.total, units(190.023));
}

#[test]
fn records_of_a_client_without_account_are_ignored() {
    let mut accounts: HashMap<u16, Account> = HashMap::new();
    let mut history: HashMap<u32, TransactionRecord> = HashMap::new();
    let records = vec![record(TransactionType::Deposit, 7, 1, Some(5.0))];
    TransactionProcessor::process_client_records(7, records, &mut accounts, &mut history);
    assert!(accounts.is_empty());
    assert!(history.is_empty());
}

#[test]
fn insert_or_update_opens_an_account() {
    let mut processor = TransactionProcessor::new();
    processor.insert_or_update_client_account(record(TransactionType::Deposit, 9, 1, Some(2.5)));
    processor.insert_or_update_client_account(record(TransactionType::Withdrawal, 9, 2, Some(1.25)));
    let account = processor.client_accounts.get(&9).expect("Account not found");
    assert_eq!(account.available, units(1.25));
    assert_eq!(account.total, units(1.25));
    assert_eq!(TransactionProcessor::get_transaction(&processor.transactions_history, 2).map(|r| r.transaction_id), Some(2));
    assert_eq!(TransactionProcessor::get_transaction(&processor.transactions_history, 3), None);
}

#[test]
fn dispute_then_resolve_restores_balances() {
    let records = vec![
        record(TransactionType::Deposit, 1, 1, Some(10.0)),
        record(TransactionType::Deposit, 1, 2, Some(3.5)),
        record(TransactionType::Dispute, 1, 2, None),
        record(TransactionType::Resolve, 1, 2, None),
    ];
    let (accounts, _) = run_client(1, &records);
    let account = accounts.get(&1).unwrap();
    assert_eq!(*account, Account { available: units(13.5), held: 0, total: units(13.5), locked: false });
}

#[test]
fn dispute_without_enough_available_is_ignored() {
    let records = vec![
        record(TransactionType::Deposit, 1, 1, Some(10.0)),
        record(TransactionType::Withdrawal, 1, 2, Some(8.0)),
        record(TransactionType::Dispute, 1, 1, None),
        record(TransactionType::Resolve, 1, 1, None),
        record(TransactionType::Chargeback, 1, 99, None),
    ];
    let (accounts, _) = run_client(1, &records);
    let account = accounts.get(&1).unwrap();
    assert_eq!(*account, Account { available: units(2.0), held: 0, total: units(2.0), locked: false });
}

#[test]
fn overflowing_deposit_is_ignored() {
    let records = vec![
        record(TransactionType::Deposit, 1, 1, Some(1.0)),
        TransactionRecord { transaction_type: TransactionType::Deposit, client_id: 1, transaction_id: 2, amount: Some(i64::MAX) },
    ];
    let (accounts, history) = run_client(1, &records);
    assert_eq!(accounts.get(&1).unwrap().available, units(1.0));
    assert_eq!(history.get(&2), None);
}

#[test]
fn batch_takes_clients_in_order_of_first_appearance() {
    // client 2 disputes client 1's deposit; client 1 comes first in the batch
    let records = vec![
        record(TransactionType::Deposit, 1, 1, Some(4.0)),
        record(TransactionType::Deposit, 2, 2, Some(6.0)),
        record(TransactionType::Dispute, 2, 1, None),
    ];
    let mut processor = TransactionProcessor::new();
    processor.client_accounts.insert(1, zero_account());
    processor.client_accounts.insert(2, zero_account());
    processor.process_records_batch(records);
    let a2 = processor.client_accounts.get(&2).unwrap();
    assert_eq!(a2.available, units(2.0));
    assert_eq!(a2.held, units(4.0));
    assert_eq!(processor.client_accounts.get(&1).unwrap().available, units(4.0));
}

#[test]
fn total_is_recomputed_after_every_record() {
    let mut accounts: HashMap<u16, Account> = HashMap::new();
    let mut history: HashMap<u32, TransactionRecord> = HashMap::new();
    accounts.insert(1, Account { available: 10, held: 20, total: 0, locked: false });
    // a deposit without an amount changes no balance, yet the total is brought up to date
    let records = vec![record(TransactionType::Deposit, 1, 1, None)];
    TransactionProcessor::process_client_records(1, records, &mut accounts, &mut history);
    assert_eq!(*accounts.get(&1).unwrap(), Account { available: 10, held: 20, total: 30, locked: false });
    assert!(history.is_empty());
}
