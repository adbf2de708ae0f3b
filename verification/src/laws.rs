//! What holds of the engine across records, batches and calls.

use vstd::prelude::*;

use crate::csv_reader::process_in_chunks;
use crate::domain::{TransactionRecord, TransactionType};
use crate::transactions_processor::{
    apply_record, apply_records, clients_in_order, fits, open_account, process_batch, process_client,
    process_clients, recorded_amount, records_of, Account, Ledger,
};
use crate::transactions_queue::{enqueued, queued};

verus! {

/// `total` is `available + held`.
pub open spec fn account_wf(a: Account) -> bool {
    a.total == a.available + a.held
}

/// Every account of the ledger is well formed.
pub open spec fn ledger_wf(l: Ledger) -> bool {
    forall|c: u16| l.accounts.contains_key(c) ==> account_wf(#[trigger] l.accounts[c])
}

/// A property of ledgers that processing one client's records keeps, for
/// records that satisfy `ok`, is kept by whole batches and by chunked
/// processing, when `ok` holds of the records and survives taking the
/// records of one client and cutting the sequence.
proof fn lemma_kept_by_processing(
    inv: spec_fn(Ledger) -> bool,
    ok: spec_fn(Seq<TransactionRecord>) -> bool,
    l: Ledger,
    rs: Seq<TransactionRecord>,
)
    requires
        forall|l2: Ledger, c: u16, sub: Seq<TransactionRecord>|
            inv(l2) && ok(sub) ==> #[trigger] inv(process_client(l2, c, sub)),
        forall|s: Seq<TransactionRecord>, c: u16| ok(s) ==> #[trigger] ok(records_of(s, c)),
        forall|s: Seq<TransactionRecord>, n: int| 0 <= n <= s.len() && ok(s) ==> #[trigger] ok(s.take(n)),
        forall|s: Seq<TransactionRecord>, n: int| 0 <= n <= s.len() && ok(s) ==> #[trigger] ok(s.skip(n)),
        inv(l),
        ok(rs),
    ensures
        inv(process_batch(l, rs)),
        inv(process_in_chunks(l, rs)),
    decreases rs.len(),
{
    lemma_clients_keep(inv, ok, l, clients_in_order(rs), rs);
    if rs.len() > 100 {
        assert(ok(rs.take(100)));
        lemma_clients_keep(inv, ok, l, clients_in_order(rs.take(100)), rs.take(100));
        assert(ok(rs.skip(100)));
        lemma_kept_by_processing(inv, ok, process_batch(l, rs.take(100)), rs.skip(100));
    }
}

proof fn lemma_clients_keep(
    inv: spec_fn(Ledger) -> bool,
    ok: spec_fn(Seq<TransactionRecord>) -> bool,
    l: Ledger,
    clients: Seq<u16>,
    rs: Seq<TransactionRecord>,
)
    requires
        forall|l2: Ledger, c: u16, sub: Seq<TransactionRecord>|
            inv(l2) && ok(sub) ==> #[trigger] inv(process_client(l2, c, sub)),
        forall|s: Seq<TransactionRecord>, c: u16| ok(s) ==> #[trigger] ok(records_of(s, c)),
        inv(l),
        ok(rs),
    ensures
        inv(process_clients(l, clients, rs)),
    decreases clients.len(),
{
    if clients.len() > 0 {
        lemma_clients_keep(inv, ok, l, clients.drop_last(), rs);
        assert(ok(records_of(rs, clients.last())));
    }
}

proof fn lemma_apply_records_wf(a: Account, h: Map<u32, TransactionRecord>, rs: Seq<TransactionRecord>)
    requires
        account_wf(a),
    ensures
        account_wf(apply_records(a, h, rs).0),
    decreases rs.len(),
{
    if rs.len() > 0 {
        lemma_apply_records_wf(a, h, rs.drop_last());
    }
}

/// Law: every account keeps `total == available + held` through any
/// processing, batch by batch or in chunks.
pub proof fn law_total_is_available_plus_held(l: Ledger, rs: Seq<TransactionRecord>)
    requires
        ledger_wf(l),
    ensures
        ledger_wf(process_batch(l, rs)),
        ledger_wf(process_in_chunks(l, rs)),
{
    let inv = |l2: Ledger| ledger_wf(l2);
    let ok = |s: Seq<TransactionRecord>| true;
    assert forall|l2: Ledger, c: u16, sub: Seq<TransactionRecord>| inv(l2) && ok(sub) implies #[trigger] inv(process_client(l2, c, sub)) by {
        if l2.accounts.contains_key(c) {
            lemma_apply_records_wf(l2.accounts[c], l2.history, sub);
        }
    }
    lemma_kept_by_processing(inv, ok, l, rs);
}

/// Law: processing neither opens nor closes accounts.
pub proof fn law_accounts_neither_opened_nor_closed(l: Ledger, rs: Seq<TransactionRecord>)
    ensures
        process_batch(l, rs).accounts.dom() == l.accounts.dom(),
        process_in_chunks(l, rs).accounts.dom() == l.accounts.dom(),
{
    let d = l.accounts.dom();
    let inv = |l2: Ledger| l2.accounts.dom() == d;
    let ok = |s: Seq<TransactionRecord>| true;
    assert forall|l2: Ledger, c: u16, sub: Seq<TransactionRecord>| inv(l2) && ok(sub) implies #[trigger] inv(process_client(l2, c, sub)) by {
        if l2.accounts.contains_key(c) {
            assert(process_client(l2, c, sub).accounts.dom() =~= d);
        }
    }
    lemma_kept_by_processing(inv, ok, l, rs);
}

/// Law: a locked account is frozen: no processing changes it.
pub proof fn law_locked_account_is_frozen(l: Ledger, rs: Seq<TransactionRecord>, client_id: u16)
    requires
        l.accounts.contains_key(client_id),
        l.accounts[client_id].locked,
    ensures
        process_batch(l, rs).accounts.contains_key(client_id),
        process_batch(l, rs).accounts[client_id] == l.accounts[client_id],
        process_in_chunks(l, rs).accounts.contains_key(client_id),
        process_in_chunks(l, rs).accounts[client_id] == l.accounts[client_id],
{
    let acct = l.accounts[client_id];
    let inv = |l2: Ledger| l2.accounts.contains_key(client_id) && l2.accounts[client_id] == acct;
    let ok = |s: Seq<TransactionRecord>| true;
    assert forall|l2: Ledger, c: u16, sub: Seq<TransactionRecord>| inv(l2) && ok(sub) implies #[trigger] inv(process_client(l2, c, sub)) by {
        if c == client_id {
            crate::transactions_processor::lemma_locked_ignores_all(acct, l2.history, sub);
        }
    }
    lemma_kept_by_processing(inv, ok, l, rs);
}

/// The amount of a record, when it has one, is not negative.
pub open spec fn amount_nonneg(r: TransactionRecord) -> bool {
    match r.amount {
        Some(x) => x >= 0,
        None => true,
    }
}

pub open spec fn amounts_nonneg(rs: Seq<TransactionRecord>) -> bool {
    forall|i: int| 0 <= i < rs.len() ==> amount_nonneg(#[trigger] rs[i])
}

/// No available balance is negative and no recorded amount is negative.
pub open spec fn ledger_nonneg(l: Ledger) -> bool {
    &&& forall|c: u16| l.accounts.contains_key(c) ==> (#[trigger] l.accounts[c]).available >= 0
    &&& forall|k: u32| l.history.contains_key(k) ==> amount_nonneg(#[trigger] l.history[k])
}

proof fn lemma_records_of_nonneg(rs: Seq<TransactionRecord>, c: u16)
    requires
        amounts_nonneg(rs),
    ensures
        amounts_nonneg(records_of(rs, c)),
    decreases rs.len(),
{
    if rs.len() > 0 {
        assert(amounts_nonneg(rs.drop_last()));
        lemma_records_of_nonneg(rs.drop_last(), c);
        assert(amount_nonneg(rs[rs.len() - 1]));
    }
}

proof fn lemma_apply_records_nonneg(a: Account, h: Map<u32, TransactionRecord>, rs: Seq<TransactionRecord>)
    requires
        a.available >= 0,
        forall|k: u32| h.contains_key(k) ==> amount_nonneg(#[trigger] h[k]),
        amounts_nonneg(rs),
    ensures
        apply_records(a, h, rs).0.available >= 0,
        forall|k: u32| apply_records(a, h, rs).1.contains_key(k) ==> amount_nonneg(#[trigger] apply_records(a, h, rs).1[k]),
    decreases rs.len(),
{
    if rs.len() > 0 {
        assert(amounts_nonneg(rs.drop_last()));
        lemma_apply_records_nonneg(a, h, rs.drop_last());
        let prev = apply_records(a, h, rs.drop_last());
        let r = rs.last();
        assert(amount_nonneg(rs[rs.len() - 1]));
        if prev.1.contains_key(r.transaction_id) {
            assert(amount_nonneg(prev.1[r.transaction_id]));
        }
    }
}

/// Law: when every amount is non-negative, no available balance ever
/// becomes negative: withdrawals and disputes that available cannot cover
/// are ignored.
pub proof fn law_available_never_negative(l: Ledger, rs: Seq<TransactionRecord>)
    requires
        ledger_nonneg(l),
        amounts_nonneg(rs),
    ensures
        ledger_nonneg(process_batch(l, rs)),
        ledger_nonneg(process_in_chunks(l, rs)),
{
    let inv = |l2: Ledger| ledger_nonneg(l2);
    let ok = |s: Seq<TransactionRecord>| amounts_nonneg(s);
    assert forall|l2: Ledger, c: u16, sub: Seq<TransactionRecord>| inv(l2) && ok(sub) implies #[trigger] inv(process_client(l2, c, sub)) by {
        if l2.accounts.contains_key(c) {
            lemma_apply_records_nonneg(l2.accounts[c], l2.history, sub);
        }
    }
    assert forall|s: Seq<TransactionRecord>, c: u16| ok(s) implies #[trigger] ok(records_of(s, c)) by {
        lemma_records_of_nonneg(s, c);
    }
    assert forall|s: Seq<TransactionRecord>, n: int| 0 <= n <= s.len() && ok(s) implies #[trigger] ok(s.take(n)) by {
        assert forall|i: int| 0 <= i < s.take(n).len() implies amount_nonneg(#[trigger] s.take(n)[i]) by {
            assert(s.take(n)[i] == s[i]);
        }
    }
    assert forall|s: Seq<TransactionRecord>, n: int| 0 <= n <= s.len() && ok(s) implies #[trigger] ok(s.skip(n)) by {
        assert forall|i: int| 0 <= i < s.skip(n).len() implies amount_nonneg(#[trigger] s.skip(n)[i]) by {
            assert(s.skip(n)[i] == s[i + n]);
        }
    }
    lemma_kept_by_processing(inv, ok, l, rs);
}

/// Law: a dispute followed by a resolution of the same transaction gives
/// back the account and history as they were, when the dispute takes
/// effect and held is not negative.
pub proof fn law_resolve_undoes_dispute(
    a: Account,
    h: Map<u32, TransactionRecord>,
    dispute: TransactionRecord,
    resolve: TransactionRecord,
)
    requires
        account_wf(a),
        !a.locked,
        dispute.transaction_type == TransactionType::Dispute,
        resolve.transaction_type == TransactionType::Resolve,
        resolve.transaction_id == dispute.transaction_id,
        recorded_amount(h, dispute.transaction_id) is Some,
        a.available >= recorded_amount(h, dispute.transaction_id)->0,
        fits(a.available - recorded_amount(h, dispute.transaction_id)->0),
        fits(a.held + recorded_amount(h, dispute.transaction_id)->0),
        a.held >= 0,
    ensures
        apply_records(a, h, seq![dispute, resolve]) == (a, h),
{
    let s = seq![dispute, resolve];
    let first = seq![dispute];
    assert(s.drop_last() =~= first);
    assert(s.last() == resolve);
    assert(first.drop_last() =~= Seq::<TransactionRecord>::empty());
    assert(first.last() == dispute);
    assert(apply_records(a, h, first.drop_last()) == (a, h));
    let x = recorded_amount(h, dispute.transaction_id)->0;
    let mid = apply_record(a, h, dispute);
    assert(apply_records(a, h, first) == mid);
    assert(mid.1 == h);
    assert(mid.0.available == a.available - x);
    assert(mid.0.held == a.held + x);
    assert(recorded_amount(mid.1, resolve.transaction_id) == Some(x));
    assert(apply_records(a, h, s) == apply_record(mid.0, mid.1, resolve));
}

/// Law: disputes and resolutions move money between available and held and
/// never change the total.
pub proof fn law_dispute_and_resolve_keep_total(a: Account, h: Map<u32, TransactionRecord>, r: TransactionRecord)
    requires
        account_wf(a),
        r.transaction_type == TransactionType::Dispute || r.transaction_type == TransactionType::Resolve,
    ensures
        apply_record(a, h, r).0.total == a.total,
        apply_record(a, h, r).1 == h,
{
}

/// Law: a chargeback that takes effect removes the amount from held, locks
/// the account, and every later record is ignored.
pub proof fn law_chargeback_locks(
    a: Account,
    h: Map<u32, TransactionRecord>,
    chargeback: TransactionRecord,
    later: Seq<TransactionRecord>,
)
    requires
        !a.locked,
        chargeback.transaction_type == TransactionType::Chargeback,
        recorded_amount(h, chargeback.transaction_id) is Some,
        fits(a.held - recorded_amount(h, chargeback.transaction_id)->0),
        fits(a.available + a.held - recorded_amount(h, chargeback.transaction_id)->0),
    ensures
        apply_record(a, h, chargeback).0.locked,
        apply_record(a, h, chargeback).0.held == a.held - recorded_amount(h, chargeback.transaction_id)->0,
        apply_record(a, h, chargeback).0.available == a.available,
        apply_records(a, h, seq![chargeback] + later) == apply_record(a, h, chargeback),
{
    let first = seq![chargeback];
    assert(first.drop_last() =~= Seq::<TransactionRecord>::empty());
    assert(first.last() == chargeback);
    assert(apply_records(a, h, first.drop_last()) == (a, h));
    assert(apply_records(a, h, first) == apply_record(a, h, chargeback));
    crate::transactions_processor::lemma_apply_records_append(a, h, first, later);
    let mid = apply_records(a, h, first);
    crate::transactions_processor::lemma_locked_ignores_all(mid.0, mid.1, later);
}

/// Law: a withdrawal that available cannot cover is ignored.
pub proof fn law_overdraft_ignored(a: Account, h: Map<u32, TransactionRecord>, w: TransactionRecord)
    requires
        account_wf(a),
        w.transaction_type == TransactionType::Withdrawal,
        w.amount is Some,
        a.available < w.amount->0,
    ensures
        apply_record(a, h, w) == (a, h),
{
}

/// Law: a read of a queue gives back what was enqueued, after what was there.
pub proof fn law_enqueue_appends(q: Map<u16, Seq<TransactionRecord>>, client_id: u16, tx: TransactionRecord, other: u16)
    requires
        other != client_id,
    ensures
        queued(enqueued(q, client_id, tx), client_id) == queued(q, client_id).push(tx),
        queued(enqueued(q, client_id, tx), other) == queued(q, other),
        queued(q.remove(client_id), client_id) == Seq::<TransactionRecord>::empty(),
{
}

/// Some record of `rs` names the transaction `k`.
pub open spec fn mentions(rs: Seq<TransactionRecord>, k: u32) -> bool {
    exists|i: int| 0 <= i < rs.len() && rs[i].transaction_id == k
}

/// A deposit or a withdrawal: the records that can enter the history.
pub open spec fn is_movement(r: TransactionRecord) -> bool {
    r.transaction_type == TransactionType::Deposit || r.transaction_type == TransactionType::Withdrawal
}

/// Some deposit or withdrawal of `rs` has the id `k`.
pub open spec fn moves(rs: Seq<TransactionRecord>, k: u32) -> bool {
    exists|i: int| 0 <= i < rs.len() && is_movement(rs[i]) && rs[i].transaction_id == k
}

proof fn lemma_moves_mentions(rs: Seq<TransactionRecord>, k: u32)
    requires
        moves(rs, k),
    ensures
        mentions(rs, k),
{
    let i = choose|i: int| 0 <= i < rs.len() && is_movement(rs[i]) && rs[i].transaction_id == k;
    assert(0 <= i < rs.len() && rs[i].transaction_id == k);
}

/// The two histories say the same of transaction `k`.
pub open spec fn agree_at(m1: Map<u32, TransactionRecord>, m2: Map<u32, TransactionRecord>, k: u32) -> bool {
    &&& m1.contains_key(k) == m2.contains_key(k)
    &&& m1.contains_key(k) ==> m1[k] == m2[k]
}

/// Records read the history only at the transactions they name, and write
/// it only at the ids of their deposits and withdrawals.
proof fn lemma_history_frame(a: Account, h: Map<u32, TransactionRecord>, g: Map<u32, TransactionRecord>, rs: Seq<TransactionRecord>)
    requires
        forall|k: u32| mentions(rs, k) ==> #[trigger] agree_at(h, g, k),
    ensures
        apply_records(a, h, rs).0 == apply_records(a, g, rs).0,
        forall|k: u32| mentions(rs, k) ==> #[trigger] agree_at(apply_records(a, h, rs).1, apply_records(a, g, rs).1, k),
        forall|k: u32| !moves(rs, k) ==> #[trigger] agree_at(apply_records(a, h, rs).1, h, k),
        forall|k: u32| !moves(rs, k) ==> #[trigger] agree_at(apply_records(a, g, rs).1, g, k),
    decreases rs.len(),
{
    if rs.len() > 0 {
        let init = rs.drop_last();
        let r = rs.last();
        assert forall|k: u32| mentions(init, k) implies mentions(rs, k) by {
            let i = choose|i: int| 0 <= i < init.len() && init[i].transaction_id == k;
            assert(rs[i] == init[i]);
        }
        assert forall|k: u32| moves(init, k) implies moves(rs, k) by {
            let i = choose|i: int| 0 <= i < init.len() && is_movement(init[i]) && init[i].transaction_id == k;
            assert(rs[i] == init[i]);
        }
        if is_movement(r) {
            assert(moves(rs, r.transaction_id)) by {
                assert(rs[rs.len() - 1] == r);
            }
        }
        lemma_history_frame(a, h, g, init);
        let ph = apply_records(a, h, init);
        let pg = apply_records(a, g, init);
        assert(mentions(rs, r.transaction_id)) by {
            assert(rs[rs.len() - 1] == r);
        }
        if mentions(init, r.transaction_id) {
            assert(agree_at(ph.1, pg.1, r.transaction_id));
        } else {
            if moves(init, r.transaction_id) {
                lemma_moves_mentions(init, r.transaction_id);
            }
            assert(agree_at(ph.1, h, r.transaction_id));
            assert(agree_at(pg.1, g, r.transaction_id));
            assert(agree_at(h, g, r.transaction_id));
        }
        assert(recorded_amount(ph.1, r.transaction_id) == recorded_amount(pg.1, r.transaction_id));
        assert forall|k: u32| mentions(rs, k) implies #[trigger] agree_at(apply_records(a, h, rs).1, apply_records(a, g, rs).1, k) by {
            if k != r.transaction_id {
                if mentions(init, k) {
                    assert(agree_at(ph.1, pg.1, k));
                } else {
                    let i = choose|i: int| 0 <= i < rs.len() && rs[i].transaction_id == k;
                    if i < rs.len() - 1 {
                        assert(init[i] == rs[i]);
                    }
                    if moves(init, k) {
                        lemma_moves_mentions(init, k);
                    }
                    assert(agree_at(ph.1, h, k));
                    assert(agree_at(pg.1, g, k));
                }
            }
        }
        assert forall|k: u32| !moves(rs, k) implies #[trigger] agree_at(apply_records(a, h, rs).1, h, k) by {
            assert(!moves(init, k));
            assert(agree_at(ph.1, h, k));
        }
        assert forall|k: u32| !moves(rs, k) implies #[trigger] agree_at(apply_records(a, g, rs).1, g, k) by {
            assert(!moves(init, k));
            assert(agree_at(pg.1, g, k));
        }
    }
}

/// Law: the records of two different clients can be processed in either
/// order when neither names a transaction that the other deposits or
/// withdraws.
pub proof fn law_clients_commute(l: Ledger, c1: u16, r1: Seq<TransactionRecord>, c2: u16, r2: Seq<TransactionRecord>)
    requires
        c1 != c2,
        forall|k: u32| !(moves(r1, k) && mentions(r2, k)) && !(moves(r2, k) && mentions(r1, k)),
    ensures
        process_client(process_client(l, c1, r1), c2, r2) == process_client(process_client(l, c2, r2), c1, r1),
{
    let h = l.history;
    if l.accounts.contains_key(c1) && l.accounts.contains_key(c2) {
        let a1 = l.accounts[c1];
        let a2 = l.accounts[c2];
        let x1 = apply_records(a1, h, r1);
        let x2 = apply_records(a2, h, r2);
        // c2 after c1
        let y2 = apply_records(a2, x1.1, r2);
        // c1 after c2
        let y1 = apply_records(a1, x2.1, r1);
        lemma_history_frame(a1, h, h, r1);
        lemma_history_frame(a2, h, h, r2);
        assert forall|k: u32| mentions(r2, k) implies #[trigger] agree_at(x1.1, h, k) by {
            assert(!moves(r1, k));
        }
        lemma_history_frame(a2, x1.1, h, r2);
        assert forall|k: u32| mentions(r1, k) implies #[trigger] agree_at(x2.1, h, k) by {
            assert(!moves(r2, k));
        }
        lemma_history_frame(a1, x2.1, h, r1);
        assert forall|k: u32| #[trigger] agree_at(y2.1, y1.1, k) by {
            if moves(r1, k) {
                lemma_moves_mentions(r1, k);
                assert(!mentions(r2, k));
                if moves(r2, k) {
                    lemma_moves_mentions(r2, k);
                }
                assert(agree_at(y2.1, x1.1, k));
                assert(agree_at(y1.1, x1.1, k));
            } else if moves(r2, k) {
                lemma_moves_mentions(r2, k);
                assert(agree_at(y1.1, x2.1, k));
                assert(agree_at(y2.1, x2.1, k));
            } else {
                assert(agree_at(y2.1, x1.1, k));
                assert(agree_at(x1.1, h, k));
                assert(agree_at(y1.1, x2.1, k));
                assert(agree_at(x2.1, h, k));
            }
        }
        assert(y2.1 =~= y1.1) by {
            assert forall|k: u32| y2.1.contains_key(k) <==> y1.1.contains_key(k) by {
                assert(agree_at(y2.1, y1.1, k));
            }
            assert forall|k: u32| y2.1.contains_key(k) implies y2.1[k] == y1.1[k] by {
                assert(agree_at(y2.1, y1.1, k));
            }
        }
        let left = process_client(process_client(l, c1, r1), c2, r2);
        let right = process_client(process_client(l, c2, r2), c1, r1);
        assert(left.accounts =~= right.accounts);
        assert(left.history =~= right.history);
    } else if l.accounts.contains_key(c1) {
        let left = process_client(process_client(l, c1, r1), c2, r2);
        let right = process_client(process_client(l, c2, r2), c1, r1);
        assert(left.accounts =~= right.accounts);
    } else if l.accounts.contains_key(c2) {
        let left = process_client(process_client(l, c1, r1), c2, r2);
        let right = process_client(process_client(l, c2, r2), c1, r1);
        assert(left.accounts =~= right.accounts);
    }
}

/// The history holds only deposits and withdrawals with an amount.
pub open spec fn history_of_movements(h: Map<u32, TransactionRecord>) -> bool {
    forall|k: u32| h.contains_key(k) ==> {
        &&& ((#[trigger] h[k]).transaction_type == TransactionType::Deposit || h[k].transaction_type == TransactionType::Withdrawal)
        &&& h[k].amount is Some
        &&& h[k].transaction_id == k
    }
}

proof fn lemma_apply_records_movements(a: Account, h: Map<u32, TransactionRecord>, rs: Seq<TransactionRecord>)
    requires
        history_of_movements(h),
    ensures
        history_of_movements(apply_records(a, h, rs).1),
    decreases rs.len(),
{
    if rs.len() > 0 {
        lemma_apply_records_movements(a, h, rs.drop_last());
    }
}

/// Law: only deposits and withdrawals that took effect enter the history,
/// each under its own transaction id; disputes, resolutions, chargebacks and
/// ignored records never do.
pub proof fn law_history_holds_applied_movements(l: Ledger, rs: Seq<TransactionRecord>)
    requires
        history_of_movements(l.history),
    ensures
        history_of_movements(process_batch(l, rs).history),
        history_of_movements(process_in_chunks(l, rs).history),
{
    let inv = |l2: Ledger| history_of_movements(l2.history);
    let ok = |s: Seq<TransactionRecord>| true;
    assert forall|l2: Ledger, c: u16, sub: Seq<TransactionRecord>| inv(l2) && ok(sub) implies #[trigger] inv(process_client(l2, c, sub)) by {
        if l2.accounts.contains_key(c) {
            lemma_apply_records_movements(l2.accounts[c], l2.history, sub);
        }
    }
    lemma_kept_by_processing(inv, ok, l, rs);
}

proof fn lemma_one_client(rs: Seq<TransactionRecord>, c: u16)
    requires
        rs.len() > 0,
        forall|i: int| 0 <= i < rs.len() ==> (#[trigger] rs[i]).client_id == c,
    ensures
        clients_in_order(rs) == seq![c],
        records_of(rs, c) == rs,
    decreases rs.len(),
{
    if rs.len() == 1 {
        assert(rs.drop_last() =~= Seq::<TransactionRecord>::empty());
        assert(clients_in_order(rs.drop_last()) =~= Seq::<u16>::empty());
        assert(records_of(rs.drop_last(), c) =~= Seq::<TransactionRecord>::empty());
        assert(rs =~= seq![rs[0]]);
        assert(Seq::<u16>::empty().push(c) =~= seq![c]);
        assert(Seq::<TransactionRecord>::empty().push(rs[0]) =~= rs);
    } else {
        lemma_one_client(rs.drop_last(), c);
        assert(rs.last().client_id == c);
        assert(seq![c].contains(c)) by {
            assert(seq![c][0] == c);
        }
        assert(rs.drop_last().push(rs.last()) =~= rs);
    }
}

/// Law: a batch of one client's records applies them all, in their order,
/// to that client's account.
pub proof fn law_batch_of_one_client(l: Ledger, rs: Seq<TransactionRecord>, c: u16)
    requires
        forall|i: int| 0 <= i < rs.len() ==> (#[trigger] rs[i]).client_id == c,
    ensures
        process_batch(l, rs) == (if rs.len() == 0 { l } else { process_client(l, c, rs) }),
{
    if rs.len() > 0 {
        lemma_one_client(rs, c);
        let cs = seq![c];
        assert(cs.drop_last() =~= Seq::<u16>::empty());
        assert(cs.last() == c);
        assert(process_clients(l, cs.drop_last(), rs) == l);
        assert(process_clients(l, cs, rs) == process_client(l, c, records_of(rs, c)));
    } else {
        assert(clients_in_order(rs) =~= Seq::<u16>::empty());
    }
}

/// One record applied to a client's account is that record's step.
proof fn lemma_single_record(a: Account, h: Map<u32, TransactionRecord>, r: TransactionRecord)
    ensures
        apply_records(a, h, seq![r]) == apply_record(a, h, r),
{
    let one = seq![r];
    assert(one.drop_last() =~= Seq::<TransactionRecord>::empty());
    assert(one.last() == r);
    assert(apply_records(a, h, one.drop_last()) == (a, h));
}

/// Law: a withdrawal that the available balance covers takes effect, down
/// to an available balance of exactly zero: the amount leaves available,
/// held stays, total is their sum, and the withdrawal enters the history.
pub proof fn law_covered_withdrawal_applies(l: Ledger, c: u16, w: TransactionRecord, x: i64)
    requires
        l.accounts.contains_key(c),
        !l.accounts[c].locked,
        w.transaction_type == TransactionType::Withdrawal,
        w.amount == Some(x),
        0 <= x <= l.accounts[c].available,
        fits(l.accounts[c].available - x + l.accounts[c].held),
    ensures
        process_client(l, c, seq![w]).accounts[c] == (Account {
            available: (l.accounts[c].available - x) as i64,
            held: l.accounts[c].held,
            total: (l.accounts[c].available - x + l.accounts[c].held) as i64,
            locked: false,
        }),
        process_client(l, c, seq![w]).history == l.history.insert(w.transaction_id, w),
        x == l.accounts[c].available ==> process_client(l, c, seq![w]).accounts[c].available == 0,
{
    lemma_single_record(l.accounts[c], l.history, w);
}

/// Law: a deposit into an unlocked account always takes effect, whatever is
/// held: the amount joins available, held stays, total is their sum, and
/// the deposit enters the history.
pub proof fn law_deposit_applies(l: Ledger, c: u16, d: TransactionRecord, x: i64)
    requires
        l.accounts.contains_key(c),
        !l.accounts[c].locked,
        d.transaction_type == TransactionType::Deposit,
        d.amount == Some(x),
        fits(l.accounts[c].available + x),
        fits(l.accounts[c].available + x + l.accounts[c].held),
    ensures
        process_client(l, c, seq![d]).accounts[c] == (Account {
            available: (l.accounts[c].available + x) as i64,
            held: l.accounts[c].held,
            total: (l.accounts[c].available + x + l.accounts[c].held) as i64,
            locked: false,
        }),
        process_client(l, c, seq![d]).history == l.history.insert(d.transaction_id, d),
{
    lemma_single_record(l.accounts[c], l.history, d);
}

/// Law: updating a client by one record works on the account the client
/// already has; a locked account is left as it was, with the whole ledger.
/// A client without an account starts from no money and no lock.
pub proof fn law_existing_account_is_updated(l: Ledger, t: TransactionRecord)
    ensures
        l.accounts.contains_key(t.client_id) ==> process_client(open_account(l, t.client_id), t.client_id, seq![t])
            == process_client(l, t.client_id, seq![t]),
        l.accounts.contains_key(t.client_id) && l.accounts[t.client_id].locked ==> process_client(
            open_account(l, t.client_id),
            t.client_id,
            seq![t],
        ) == l,
        !l.accounts.contains_key(t.client_id) ==> process_client(open_account(l, t.client_id), t.client_id, seq![t]).accounts[t.client_id]
            == apply_record(Account { available: 0, held: 0, total: 0, locked: false }, l.history, t).0,
{
    let c = t.client_id;
    let o = open_account(l, c);
    lemma_single_record(o.accounts[c], o.history, t);
    if l.accounts.contains_key(c) && l.accounts[c].locked {
        assert(l.accounts.insert(c, l.accounts[c]) =~= l.accounts);
    }
}

} // verus!
