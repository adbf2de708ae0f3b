//! Per-client queues of incoming transaction records.

use std::collections::HashMap;
use vstd::prelude::*;

use crate::domain::TransactionRecord;

verus! {

broadcast use vstd::std_specs::hash::group_hash_axioms;

/// For each client, the records received for it, in arrival order.
#[derive(Debug)]
pub struct TransactionsQueue {
    clients_incoming_tx_queue: HashMap<u16, Vec<TransactionRecord>>,
}

/// The records queued for a client; empty when it has no queue.
pub open spec fn queued(q: Map<u16, Seq<TransactionRecord>>, client_id: u16) -> Seq<TransactionRecord> {
    if q.contains_key(client_id) {
        q[client_id]
    } else {
        Seq::empty()
    }
}

/// The queues after `tx` arrives for `client_id`.
pub open spec fn enqueued(q: Map<u16, Seq<TransactionRecord>>, client_id: u16, tx: TransactionRecord) -> Map<u16, Seq<TransactionRecord>> {
    q.insert(client_id, queued(q, client_id).push(tx))
}

impl View for TransactionsQueue {
    type V = Map<u16, Seq<TransactionRecord>>;

    closed spec fn view(&self) -> Map<u16, Seq<TransactionRecord>> {
        self.clients_incoming_tx_queue@.map_values(|v: Vec<TransactionRecord>| v@)
    }
}

/// A copy of the records.
fn copy_records(v: &Vec<TransactionRecord>) -> (out: Vec<TransactionRecord>)
    ensures
        out@ == v@,
{
    let mut out: Vec<TransactionRecord> = Vec::new();
    let mut i: usize = 0;
    while i < v.len()
        invariant
            i <= v.len(),
            out@ == v@.take(i as int),
        decreases v.len() - i,
    {
        out.push(v[i]);
        proof {
            assert(v@.take(i + 1) =~= v@.take(i as int).push(v@[i as int]));
        }
        i = i + 1;
    }
    proof {
        assert(v@.take(i as int) =~= v@);
    }
    out
}

impl TransactionsQueue {
    /// No client has a queue.
    pub fn new() -> (q: Self)
        ensures
            q@ == Map::<u16, Seq<TransactionRecord>>::empty(),
    {
        let q = TransactionsQueue { clients_incoming_tx_queue: HashMap::new() };
        proof {
            assert(q@ =~= Map::<u16, Seq<TransactionRecord>>::empty());
        }
        q
    }

    /// Appends a transaction to the queue of `client_id`, creating the queue
    /// when the client has none.
    pub fn enqueue(&mut self, client_id: u16, tx: TransactionRecord)
        ensures
            final(self)@ == enqueued(old(self)@, client_id, tx),
    {
        let mut list = match self.clients_incoming_tx_queue.remove(&client_id) {
            Some(v) => v,
            None => Vec::new(),
        };
        list.push(tx);
        self.clients_incoming_tx_queue.insert(client_id, list);
        proof {
            assert(self@ =~= enqueued(old(self)@, client_id, tx));
        }
    }

    /// Drops the queue of `client_id`.
    pub fn remove_client_from_queue(&mut self, client_id: &u16)
        ensures
            final(self)@ == old(self)@.remove(*client_id),
    {
        self.clients_incoming_tx_queue.remove(client_id);
        proof {
            assert(self@ =~= old(self)@.remove(*client_id));
        }
    }

    /// A copy of the queue of `client_id`, if it has one.
    pub fn get_tx_list_for_client(&self, client_id: &u16) -> (r: Option<Vec<TransactionRecord>>)
        ensures
            match r {
                Some(v) => self@.contains_key(*client_id) && v@ == self@[*client_id],
                None => !self@.contains_key(*client_id),
            },
    {
        match self.clients_incoming_tx_queue.get(client_id) {
            Some(v) => Some(copy_records(v)),
            None => None,
        }
    }
}

} // verus!
