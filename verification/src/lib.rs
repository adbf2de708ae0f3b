//! A payments engine that reads transaction records from CSV input and keeps
//! per-client account balances: deposits, withdrawals, disputes, resolutions
//! and chargebacks.
//!
//! Amounts are fixed-point numbers with four decimal places, held as `i64`
//! counts of ten-thousandths of a currency unit.

pub mod domain;
pub mod transactions_processor;
pub mod number;
pub mod decode;
pub mod csv_reader;
pub mod transactions_queue;
pub mod cli;
pub mod laws;
pub mod order_laws;
