use rain_stream::domain::{TransactionRecord, TransactionType};
use rain_stream::transactions_queue::TransactionsQueue;

fn deposit(client_id: u16, transaction_id: u32) -> TransactionRecord {
    TransactionRecord { transaction_type: TransactionType::Deposit, client_id, transaction_id, amount: Some(10_000) }
}

#[test]
fn enqueue_appends_in_arrival_order() {
    let mut queue = TransactionsQueue::new();
    assert_eq!(queue.get_tx_list_for_client(&1), None);
    queue.enqueue(1, deposit(1, 1));
    queue.enqueue(2, deposit(2, 2));
    queue.enqueue(1, deposit(1, 3));
    assert_eq!(queue.get_tx_list_for_client(&1), Some(vec![deposit(1, 1), deposit(1, 3)]));
    assert_eq!(queue.get_tx_list_for_client(&2), Some(vec![deposit(2, 2)]));
}

#[test]
fn removed_client_has_no_queue() {
    let mut queue = TransactionsQueue::new();
    queue.enqueue(1, deposit(1, 1));
    queue.enqueue(2, deposit(2, 2));
    queue.remove_client_from_queue(&1);
    assert_eq!(queue.get_tx_list_for_client(&1), None);
    assert_eq!(queue.get_tx_list_for_client(&2), Some(vec![deposit(2, 2)]));
}
