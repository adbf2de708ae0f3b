//! The records that flow through the engine.

use vstd::prelude::*;

verus! {

/// An amount of money in ten-thousandths of a currency unit
/// (four decimal places), so `1.5` is `15_000`.
pub type Amount = i64;

/// The kind of a transaction, as named in the `type` column of the input.
#[derive(Debug, Clone, Copy, PartialEq, Eq, Structural)]
pub enum TransactionType {
    Deposit,
    Withdrawal,
    Dispute,
    Resolve,
    Chargeback,
}

/// One row of the input: a transaction of a client.
///
/// `amount` is present for deposits and withdrawals; disputes, resolutions
/// and chargebacks refer to an earlier transaction by `transaction_id`.
#[derive(Debug, Clone, Copy, PartialEq, Eq, Structural)]
pub struct TransactionRecord {
    pub transaction_type: TransactionType,
    pub client_id: u16,
    pub transaction_id: u32,
    pub amount: Option<Amount>,
}

} // verus!
