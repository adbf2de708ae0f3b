//! Client accounts and the rules by which transaction records change them.

use std::collections::HashMap;
use vstd::prelude::*;

use crate::domain::{Amount, TransactionRecord, TransactionType};

verus! {

broadcast use vstd::std_specs::hash::group_hash_axioms;

/// The balances of one client.
///
/// `total` is `available + held` once the account has seen a record.
#[derive(Debug, Clone, Copy, PartialEq, Eq, Structural)]
pub struct Account {
    pub available: Amount,
    pub held: Amount,
    pub total: Amount,
    pub locked: bool,
}

/// The abstract state of the engine: every client's account and the
/// transactions that disputes, resolutions and chargebacks can refer to.
pub struct Ledger {
    pub accounts: Map<u16, Account>,
    pub history: Map<u32, TransactionRecord>,
}

/// Whether `x` is representable as an `Amount`.
pub open spec fn fits(x: int) -> bool {
    i64::MIN <= x <= i64::MAX
}

/// The amount of the transaction `id` that the history holds, if any.
pub open spec fn recorded_amount(history: Map<u32, TransactionRecord>, id: u32) -> Option<Amount> {
    if history.contains_key(id) {
        history[id].amount
    } else {
        None
    }
}

/// What a record does to an unlocked account, when it takes effect:
/// the new available and held balances, whether the account is then
/// locked, and whether the record enters the history.
/// `None` when the rules say to ignore the record.
pub open spec fn effect(a: Account, history: Map<u32, TransactionRecord>, r: TransactionRecord) -> Option<(int, int, bool, bool)> {
    match r.transaction_type {
        TransactionType::Deposit => match r.amount {
            Some(x) => Some((a.available + x, a.held as int, false, true)),
            None => None,
        },
        TransactionType::Withdrawal => match r.amount {
            Some(x) => if a.available - x >= 0 {
                Some((a.available - x, a.held as int, false, true))
            } else {
                None
            },
            None => None,
        },
        TransactionType::Dispute => match recorded_amount(history, r.transaction_id) {
            Some(x) => if a.available >= x {
                Some((a.available - x, a.held + x, false, false))
            } else {
                None
            },
            None => None,
        },
        TransactionType::Resolve => match recorded_amount(history, r.transaction_id) {
            Some(x) => if a.held >= x {
                Some((a.available + x, a.held - x, false, false))
            } else {
                None
            },
            None => None,
        },
        TransactionType::Chargeback => match recorded_amount(history, r.transaction_id) {
            Some(x) => Some((a.available as int, a.held - x, true, false)),
            None => None,
        },
    }
}

/// The account and history after one record.
///
/// A locked account ignores every record. Otherwise the record's effect
/// applies when the new balances and their sum are representable (else the
/// record is ignored), and then `total` becomes `available + held`, as
/// after every record an unlocked account takes.
pub open spec fn apply_record(a: Account, history: Map<u32, TransactionRecord>, r: TransactionRecord) -> (Account, Map<u32, TransactionRecord>) {
    if a.locked {
        (a, history)
    } else {
        let (av, hd, lk, h) = match effect(a, history, r) {
            Some((av, hd, lk, store)) => if fits(av) && fits(hd) && fits(av + hd) {
                (av, hd, lk, if store { history.insert(r.transaction_id, r) } else { history })
            } else {
                (a.available as int, a.held as int, false, history)
            },
            None => (a.available as int, a.held as int, false, history),
        };
        let total = if fits(av + hd) { av + hd } else { a.total as int };
        (Account { available: av as i64, held: hd as i64, total: total as i64, locked: lk }, h)
    }
}

/// The account and history after the records, in order.
pub open spec fn apply_records(a: Account, history: Map<u32, TransactionRecord>, rs: Seq<TransactionRecord>) -> (Account, Map<u32, TransactionRecord>)
    decreases rs.len(),
{
    if rs.len() == 0 {
        (a, history)
    } else {
        let prev = apply_records(a, history, rs.drop_last());
        apply_record(prev.0, prev.1, rs.last())
    }
}

/// The ledger after the records of one client; nothing changes when the
/// client has no account.
pub open spec fn process_client(l: Ledger, client_id: u16, rs: Seq<TransactionRecord>) -> Ledger {
    if l.accounts.contains_key(client_id) {
        let r = apply_records(l.accounts[client_id], l.history, rs);
        Ledger { accounts: l.accounts.insert(client_id, r.0), history: r.1 }
    } else {
        l
    }
}

/// A fresh account: no money, not locked.
pub open spec fn zero_account() -> Account {
    Account { available: 0, held: 0, total: 0, locked: false }
}

/// The ledger with an account for `client_id`, a fresh one if it had none.
pub open spec fn open_account(l: Ledger, client_id: u16) -> Ledger {
    if l.accounts.contains_key(client_id) {
        l
    } else {
        Ledger { accounts: l.accounts.insert(client_id, zero_account()), history: l.history }
    }
}

/// The clients of the records, each once, in order of first appearance.
pub open spec fn clients_in_order(rs: Seq<TransactionRecord>) -> Seq<u16>
    decreases rs.len(),
{
    if rs.len() == 0 {
        Seq::empty()
    } else {
        let prev = clients_in_order(rs.drop_last());
        if prev.contains(rs.last().client_id) {
            prev
        } else {
            prev.push(rs.last().client_id)
        }
    }
}

/// The records of one client, in their order.
pub open spec fn records_of(rs: Seq<TransactionRecord>, client_id: u16) -> Seq<TransactionRecord>
    decreases rs.len(),
{
    if rs.len() == 0 {
        Seq::empty()
    } else {
        let prev = records_of(rs.drop_last(), client_id);
        if rs.last().client_id == client_id {
            prev.push(rs.last())
        } else {
            prev
        }
    }
}

/// The ledger after each of `clients`, in turn, has had its records of `rs` applied.
pub open spec fn process_clients(l: Ledger, clients: Seq<u16>, rs: Seq<TransactionRecord>) -> Ledger
    decreases clients.len(),
{
    if clients.len() == 0 {
        l
    } else {
        let prev = process_clients(l, clients.drop_last(), rs);
        process_client(prev, clients.last(), records_of(rs, clients.last()))
    }
}

/// The ledger after a batch: the records are grouped by client, and the
/// clients are taken one after another in order of first appearance, each
/// with all of its records in their order.
pub open spec fn process_batch(l: Ledger, rs: Seq<TransactionRecord>) -> Ledger {
    process_clients(l, clients_in_order(rs), rs)
}

/// Whether `client_id` occurs in `clients`.
fn contains_client(clients: &Vec<u16>, client_id: u16) -> (b: bool)
    ensures
        b == clients@.contains(client_id),
{
    let mut i: usize = 0;
    while i < clients.len()
        invariant
            i <= clients.len(),
            forall|j: int| 0 <= j < i ==> clients@[j] != client_id,
        decreases clients.len() - i,
    {
        if clients[i] == client_id {
            return true;
        }
        i = i + 1;
    }
    false
}

/// The clients of the records, each once, in order of first appearance.
fn collect_clients(records: &Vec<TransactionRecord>) -> (clients: Vec<u16>)
    ensures
        clients@ == clients_in_order(records@),
{
    let mut clients: Vec<u16> = Vec::new();
    let mut i: usize = 0;
    while i < records.len()
        invariant
            i <= records.len(),
            clients@ == clients_in_order(records@.take(i as int)),
        decreases records.len() - i,
    {
        proof {
            assert(records@.take(i + 1).drop_last() =~= records@.take(i as int));
        }
        let c = records[i].client_id;
        if !contains_client(&clients, c) {
            clients.push(c);
        }
        i = i + 1;
    }
    proof {
        assert(records@.take(i as int) =~= records@);
    }
    clients
}

/// The records of one client, in their order.
fn collect_records_of(records: &Vec<TransactionRecord>, client_id: u16) -> (out: Vec<TransactionRecord>)
    ensures
        out@ == records_of(records@, client_id),
{
    let mut out: Vec<TransactionRecord> = Vec::new();
    let mut i: usize = 0;
    while i < records.len()
        invariant
            i <= records.len(),
            out@ == records_of(records@.take(i as int), client_id),
        decreases records.len() - i,
    {
        proof {
            assert(records@.take(i + 1).drop_last() =~= records@.take(i as int));
        }
        if records[i].client_id == client_id {
            out.push(records[i]);
        }
        i = i + 1;
    }
    proof {
        assert(records@.take(i as int) =~= records@);
    }
    out
}

/// A locked account ignores any sequence of records.
pub proof fn lemma_locked_ignores_all(a: Account, history: Map<u32, TransactionRecord>, rs: Seq<TransactionRecord>)
    requires
        a.locked,
    ensures
        apply_records(a, history, rs) == (a, history),
    decreases rs.len(),
{
    if rs.len() > 0 {
        lemma_locked_ignores_all(a, history, rs.drop_last());
    }
}

/// Applies one record to an account, updating the history.
fn apply_record_exec(account: &mut Account, history: &mut HashMap<u32, TransactionRecord>, record: &TransactionRecord)
    ensures
        (*final(account), final(history)@) == apply_record(*old(account), old(history)@, *record),
{
    if account.locked {
        return;
    }
    let available = account.available as i128;
    let held = account.held as i128;
    // new available, new held, lock, store in history
    let change: Option<(i128, i128, bool, bool)> = match record.transaction_type {
        TransactionType::Deposit => match record.amount {
            Some(x) => Some((available + x as i128, held, false, true)),
            None => None,
        },
        TransactionType::Withdrawal => match record.amount {
            Some(x) => if available - x as i128 >= 0 {
                Some((available - x as i128, held, false, true))
            } else {
                None
            },
            None => None,
        },
        TransactionType::Dispute => match TransactionProcessor::get_transaction(history, record.transaction_id) {
            Some(existing) => match existing.amount {
                Some(x) => if available >= x as i128 {
                    Some((available - x as i128, held + x as i128, false, false))
                } else {
                    None
                },
                None => None,
            },
            None => None,
        },
        TransactionType::Resolve => match TransactionProcessor::get_transaction(history, record.transaction_id) {
            Some(existing) => match existing.amount {
                Some(x) => if held >= x as i128 {
                    Some((available + x as i128, held - x as i128, false, false))
                } else {
                    None
                },
                None => None,
            },
            None => None,
        },
        TransactionType::Chargeback => match TransactionProcessor::get_transaction(history, record.transaction_id) {
            Some(existing) => match existing.amount {
                Some(x) => Some((available, held - x as i128, true, false)),
                None => None,
            },
            None => None,
        },
    };
    let lo = i64::MIN as i128;
    let hi = i64::MAX as i128;
    match change {
        Some((av, hd, lk, store)) => {
            if lo <= av && av <= hi && lo <= hd && hd <= hi && lo <= av + hd && av + hd <= hi {
                account.available = av as i64;
                account.held = hd as i64;
                account.locked = lk;
                if store {
                    TransactionProcessor::insert_transaction_in_history(history, *record);
                }
            }
        },
        None => {},
    }
    // the total balance
    let sum = account.available as i128 + account.held as i128;
    if lo <= sum && sum <= hi {
        account.total = sum as i64;
    }
}

/// The engine: every client's account and the history of transactions
/// that took effect.
pub struct TransactionProcessor {
    pub client_accounts: HashMap<u16, Account>,
    pub transactions_history: HashMap<u32, TransactionRecord>,
}

impl View for TransactionProcessor {
    type V = Ledger;

    open spec fn view(&self) -> Ledger {
        Ledger { accounts: self.client_accounts@, history: self.transactions_history@ }
    }
}

impl TransactionProcessor {
    /// An engine with no accounts and an empty history.
    pub fn new() -> (p: Self)
        ensures
            p@.accounts == Map::<u16, Account>::empty(),
            p@.history == Map::<u32, TransactionRecord>::empty(),
    {
        TransactionProcessor { client_accounts: HashMap::new(), transactions_history: HashMap::new() }
    }

    /// Looks up a transaction in the history.
    pub fn get_transaction(transactions_history: &HashMap<u32, TransactionRecord>, transaction_id: u32) -> (r: Option<TransactionRecord>)
        ensures
            r == (if transactions_history@.contains_key(transaction_id) {
                Some(transactions_history@[transaction_id])
            } else {
                None
            }),
    {
        match transactions_history.get(&transaction_id) {
            Some(t) => Some(*t),
            None => None,
        }
    }

    /// Records a transaction in the history under its id.
    fn insert_transaction_in_history(transactions_history: &mut HashMap<u32, TransactionRecord>, transaction: TransactionRecord)
        ensures
            final(transactions_history)@ == old(transactions_history)@.insert(transaction.transaction_id, transaction),
    {
        transactions_history.insert(transaction.transaction_id, transaction);
    }

    /// Applies the records, in order, to the account of `client_id`.
    ///
    /// Deposit: adds to available. Withdrawal: subtracts from available,
    /// ignored when available would become negative. Dispute: moves the
    /// amount of the referenced transaction from available to held, when
    /// available covers it. Resolve: moves it back from held to available,
    /// when held covers it. Chargeback: removes it from held and locks the
    /// account. A locked account takes no further records. Only deposits and
    /// withdrawals that took effect enter the history. When the client has
    /// no account nothing changes.
    pub fn process_client_records(
        client_id: u16,
        records: Vec<TransactionRecord>,
        client_accounts: &mut HashMap<u16, Account>,
        transactions_history: &mut HashMap<u32, TransactionRecord>,
    )
        ensures
            (Ledger { accounts: final(client_accounts)@, history: final(transactions_history)@ })
                == process_client(Ledger { accounts: old(client_accounts)@, history: old(transactions_history)@ }, client_id, records@),
    {
        let found = match client_accounts.get(&client_id) {
            Some(a) => Some(*a),
            None => None,
        };
        match found {
            Some(start) => {
                let mut account = start;
                let mut i: usize = 0;
                while i < records.len() && !account.locked
                    invariant
                        i <= records.len(),
                        old(client_accounts)@.contains_key(client_id),
                        start == old(client_accounts)@[client_id],
                        (account, transactions_history@) == apply_records(start, old(transactions_history)@, records@.take(i as int)),
                    decreases records.len() - i,
                {
                    let record = records[i];
                    proof {
                        assert(records@.take(i + 1).drop_last() =~= records@.take(i as int));
                    }
                    apply_record_exec(&mut account, transactions_history, &record);
                    i = i + 1;
                }
                proof {
                    // a locked account takes none of the remaining records
                    if i < records.len() {
                        lemma_locked_ignores_all(account, transactions_history@, records@.skip(i as int));
                        lemma_apply_records_append(start, old(transactions_history)@, records@.take(i as int), records@.skip(i as int));
                    }
                    assert(records@.take(i as int) + records@.skip(i as int) =~= records@);
                    if i == records.len() {
                        assert(records@.take(i as int) =~= records@);
                    }
                }
                client_accounts.insert(client_id, account);
            },
            None => {},
        }
    }
    /// Inserts the account of the record's client when it has none, then
    /// updates the account by the record.
    pub fn insert_or_update_client_account(&mut self, transaction: TransactionRecord)
        ensures
            final(self)@ == process_client(open_account(old(self)@, transaction.client_id), transaction.client_id, seq![transaction]),
    {
        if !self.client_accounts.contains_key(&transaction.client_id) {
            self.client_accounts.insert(transaction.client_id, Account { available: 0, held: 0, total: 0, locked: false });
        }
        let mut records: Vec<TransactionRecord> = Vec::new();
        records.push(transaction);
        proof {
            assert(records@ =~= seq![transaction]);
        }
        Self::process_client_records(transaction.client_id, records, &mut self.client_accounts, &mut self.transactions_history);
    }

    /// Processes a batch of records of several clients: the records are
    /// grouped by client, and each client's group is applied to its account
    /// in the order the records came. Clients are taken in order of first
    /// appearance in the batch.
    pub fn process_records_batch(&mut self, records: Vec<TransactionRecord>)
        ensures
            final(self)@ == process_batch(old(self)@, records@),
    {
        let clients = collect_clients(&records);
        let mut j: usize = 0;
        while j < clients.len()
            invariant
                j <= clients.len(),
                clients@ == clients_in_order(records@),
                self@ == process_clients(old(self)@, clients@.take(j as int), records@),
            decreases clients.len() - j,
        {
            proof {
                assert(clients@.take(j + 1).drop_last() =~= clients@.take(j as int));
            }
            let client_id = clients[j];
            let client_records = collect_records_of(&records, client_id);
            Self::process_client_records(client_id, client_records, &mut self.client_accounts, &mut self.transactions_history);
            j = j + 1;
        }
        proof {
            assert(clients@.take(j as int) =~= clients@);
        }
    }
}

/// Applying `a + b` is applying `a`, then `b`.
pub proof fn lemma_apply_records_append(acct: Account, history: Map<u32, TransactionRecord>, a: Seq<TransactionRecord>, b: Seq<TransactionRecord>)
    ensures
        apply_records(acct, history, a + b) == ({
            let mid = apply_records(acct, history, a);
            apply_records(mid.0, mid.1, b)
        }),
    decreases b.len(),
{
    if b.len() > 0 {
        lemma_apply_records_append(acct, history, a, b.drop_last());
        assert((a + b).drop_last() =~= a + b.drop_last());
    } else {
        assert(a + b =~= a);
    }
}

} // verus!
