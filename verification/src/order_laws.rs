//! The order in which clients are taken, and how records are cut into
//! batches, do not change the outcome, as long as no record names a
//! transaction that another client deposits or withdraws.

use vstd::prelude::*;

use crate::csv_reader::process_in_chunks;
use crate::domain::TransactionRecord;
use crate::laws::{is_movement, law_clients_commute, mentions, moves};
use crate::transactions_processor::{
    apply_record, apply_records, clients_in_order, lemma_apply_records_append, process_batch,
    process_client, process_clients, records_of, Ledger,
};

verus! {

/// No record names a transaction that a record of another client deposits
/// or withdraws.
pub open spec fn clients_independent(rs: Seq<TransactionRecord>) -> bool {
    forall|i: int, j: int|
        #![trigger rs[i], rs[j]]
        0 <= i < rs.len() && 0 <= j < rs.len() && rs[i].client_id != rs[j].client_id && is_movement(rs[i])
            ==> rs[i].transaction_id != rs[j].transaction_id
}

/// Some record of `rs` belongs to `client_id`.
pub open spec fn has_client(rs: Seq<TransactionRecord>, client_id: u16) -> bool {
    exists|i: int| 0 <= i < rs.len() && rs[i].client_id == client_id
}

/// The ledger after each record, one at a time in input order, is applied
/// to its client's account.
pub open spec fn process_one_by_one(l: Ledger, rs: Seq<TransactionRecord>) -> Ledger
    decreases rs.len(),
{
    if rs.len() == 0 {
        l
    } else {
        process_client(process_one_by_one(l, rs.drop_last()), rs.last().client_id, seq![rs.last()])
    }
}

proof fn lemma_records_of_members(rs: Seq<TransactionRecord>, c: u16)
    ensures
        forall|i: int| 0 <= i < records_of(rs, c).len() ==> (#[trigger] records_of(rs, c)[i]).client_id == c && rs.contains(records_of(rs, c)[i]),
        records_of(rs, c).len() > 0 <==> has_client(rs, c),
    decreases rs.len(),
{
    if rs.len() > 0 {
        let p = rs.drop_last();
        lemma_records_of_members(p, c);
        let ro = records_of(rs, c);
        let rp = records_of(p, c);
        assert forall|i: int| 0 <= i < ro.len() implies (#[trigger] ro[i]).client_id == c && rs.contains(ro[i]) by {
            if i < rp.len() {
                assert(ro[i] == rp[i]);
                let k = choose|k: int| 0 <= k < p.len() && p[k] == rp[i];
                assert(rs[k] == p[k]);
            } else {
                assert(ro[i] == rs[rs.len() - 1]);
            }
        }
        if has_client(rs, c) {
            let k = choose|k: int| 0 <= k < rs.len() && rs[k].client_id == c;
            if k < rs.len() - 1 {
                assert(p[k] == rs[k]);
            }
        }
        if has_client(p, c) {
            let k = choose|k: int| 0 <= k < p.len() && p[k].client_id == c;
            assert(rs[k] == p[k]);
        }
    } else {
        assert(!has_client(rs, c));
    }
}

proof fn lemma_clients_in_order_facts(rs: Seq<TransactionRecord>)
    ensures
        clients_in_order(rs).no_duplicates(),
        forall|c: u16| #[trigger] clients_in_order(rs).contains(c) <==> has_client(rs, c),
    decreases rs.len(),
{
    if rs.len() > 0 {
        let p = rs.drop_last();
        lemma_clients_in_order_facts(p);
        let cp = clients_in_order(p);
        let c = rs.last().client_id;
        let cr = clients_in_order(rs);
        assert(cr == (if cp.contains(c) { cp } else { cp.push(c) }));
        assert(rs[rs.len() - 1].client_id == c);
        assert forall|x: u16| #[trigger] cr.contains(x) <==> has_client(rs, x) by {
            if has_client(rs, x) {
                let k = choose|k: int| 0 <= k < rs.len() && rs[k].client_id == x;
                if k < rs.len() - 1 {
                    assert(p[k] == rs[k]);
                    assert(has_client(p, x));
                    assert(cp.contains(x));
                    let i = choose|i: int| 0 <= i < cp.len() && cp[i] == x;
                    if !cp.contains(c) {
                        assert(cp.push(c)[i] == x);
                    }
                } else {
                    assert(x == c);
                    if !cp.contains(c) {
                        assert(cp.push(c)[cp.len() as int] == c);
                    }
                }
            }
            if cr.contains(x) {
                let i = choose|i: int| 0 <= i < cr.len() && cr[i] == x;
                if i < cp.len() {
                    assert(cr[i] == cp[i]);
                    assert(cp.contains(x));
                    assert(has_client(p, x));
                    let k = choose|k: int| 0 <= k < p.len() && p[k].client_id == x;
                    assert(rs[k] == p[k]);
                } else {
                    assert(x == c);
                }
            }
        }
        assert(cr.no_duplicates()) by {
            if !cp.contains(c) {
                assert forall|a: int, b: int| 0 <= a < cr.len() && 0 <= b < cr.len() && a != b implies cr[a] != cr[b] by {
                    if a < cp.len() && b < cp.len() {
                    } else if a < cp.len() {
                        assert(cp.contains(cp[a]));
                    } else {
                        assert(cp.contains(cp[b]));
                    }
                }
            }
        }
    } else {
        assert forall|x: u16| #[trigger] clients_in_order(rs).contains(x) <==> has_client(rs, x) by {
            assert(clients_in_order(rs).len() == 0);
            if clients_in_order(rs).contains(x) {
                let k = choose|k: int| 0 <= k < clients_in_order(rs).len() && clients_in_order(rs)[k] == x;
                assert(false);
            }
        }
    }
}

/// Independence holds of every sequence made of records of an independent one.
proof fn lemma_independent_sub(rs: Seq<TransactionRecord>, s: Seq<TransactionRecord>)
    requires
        clients_independent(rs),
        forall|i: int| 0 <= i < s.len() ==> rs.contains(#[trigger] s[i]),
    ensures
        clients_independent(s),
{
    assert forall|i: int, j: int|
        0 <= i < s.len() && 0 <= j < s.len() && #[trigger] s[i].client_id != #[trigger] s[j].client_id && is_movement(s[i])
        implies s[i].transaction_id != s[j].transaction_id by {
        assert(rs.contains(s[i]));
        assert(rs.contains(s[j]));
        let a = choose|a: int| 0 <= a < rs.len() && rs[a] == s[i];
        let b = choose|b: int| 0 <= b < rs.len() && rs[b] == s[j];
        assert(rs[a].client_id != rs[b].client_id);
    }
}

proof fn lemma_pair_commutes(l: Ledger, rs: Seq<TransactionRecord>, c1: u16, c2: u16)
    requires
        c1 != c2,
        clients_independent(rs),
    ensures
        process_client(process_client(l, c1, records_of(rs, c1)), c2, records_of(rs, c2))
            == process_client(process_client(l, c2, records_of(rs, c2)), c1, records_of(rs, c1)),
{
    let r1 = records_of(rs, c1);
    let r2 = records_of(rs, c2);
    lemma_records_of_members(rs, c1);
    lemma_records_of_members(rs, c2);
    assert forall|k: u32| !(moves(r1, k) && mentions(r2, k)) && !(moves(r2, k) && mentions(r1, k)) by {
        if moves(r1, k) && mentions(r2, k) {
            let i = choose|i: int| 0 <= i < r1.len() && is_movement(r1[i]) && r1[i].transaction_id == k;
            let j = choose|j: int| 0 <= j < r2.len() && r2[j].transaction_id == k;
            assert(rs.contains(r1[i]) && r1[i].client_id == c1);
            assert(rs.contains(r2[j]) && r2[j].client_id == c2);
            let a = choose|a: int| 0 <= a < rs.len() && rs[a] == r1[i];
            let b = choose|b: int| 0 <= b < rs.len() && rs[b] == r2[j];
            assert(rs[a].client_id != rs[b].client_id);
        }
        if moves(r2, k) && mentions(r1, k) {
            let i = choose|i: int| 0 <= i < r2.len() && is_movement(r2[i]) && r2[i].transaction_id == k;
            let j = choose|j: int| 0 <= j < r1.len() && r1[j].transaction_id == k;
            assert(rs.contains(r2[i]) && r2[i].client_id == c2);
            assert(rs.contains(r1[j]) && r1[j].client_id == c1);
            let a = choose|a: int| 0 <= a < rs.len() && rs[a] == r2[i];
            let b = choose|b: int| 0 <= b < rs.len() && rs[b] == r1[j];
            assert(rs[a].client_id != rs[b].client_id);
        }
    }
    law_clients_commute(l, c1, r1, c2, r2);
}

proof fn lemma_remove_facts(o: Seq<u16>, j: int)
    requires
        o.no_duplicates(),
        0 <= j < o.len(),
    ensures
        o.remove(j).no_duplicates(),
        forall|x: u16| #[trigger] o.remove(j).contains(x) <==> (o.contains(x) && x != o[j]),
{
    let r = o.remove(j);
    assert(r.len() == o.len() - 1);
    assert forall|i: int| 0 <= i < r.len() implies #[trigger] r[i] == (if i < j { o[i] } else { o[i + 1] }) by {}
    assert forall|a: int, b: int| 0 <= a < r.len() && 0 <= b < r.len() && a != b implies r[a] != r[b] by {
        let a2 = if a < j { a } else { a + 1 };
        let b2 = if b < j { b } else { b + 1 };
        assert(r[a] == o[a2]);
        assert(r[b] == o[b2]);
    }
    assert forall|x: u16| #[trigger] r.contains(x) <==> (o.contains(x) && x != o[j]) by {
        if r.contains(x) {
            let a = choose|a: int| 0 <= a < r.len() && r[a] == x;
            let a2 = if a < j { a } else { a + 1 };
            assert(o[a2] == x);
        }
        if o.contains(x) && x != o[j] {
            let a = choose|a: int| 0 <= a < o.len() && o[a] == x;
            if a < j {
                assert(r[a] == x);
            } else {
                assert(a != j);
                assert(r[a - 1] == x);
            }
        }
    }
}

/// Taking the client at `j` last instead changes nothing.
proof fn lemma_move_to_end(l: Ledger, cs: Seq<u16>, j: int, rs: Seq<TransactionRecord>)
    requires
        cs.no_duplicates(),
        0 <= j < cs.len(),
        clients_independent(rs),
    ensures
        process_clients(l, cs, rs) == process_clients(l, cs.remove(j).push(cs[j]), rs),
    decreases cs.len(),
{
    let cj = cs[j];
    if j == cs.len() - 1 {
        assert(cs.remove(j).push(cj) =~= cs);
    } else {
        let pre = cs.drop_last();
        let last = cs.last();
        assert(pre.no_duplicates()) by {
            assert forall|a: int, b: int| 0 <= a < pre.len() && 0 <= b < pre.len() && a != b implies pre[a] != pre[b] by {
                assert(pre[a] == cs[a] && pre[b] == cs[b]);
            }
        }
        assert(pre[j] == cj);
        lemma_move_to_end(l, pre, j, rs);
        let base = process_clients(l, pre.remove(j), rs);
        let moved = pre.remove(j).push(cj);
        assert(moved.drop_last() =~= pre.remove(j));
        assert(moved.last() == cj);
        assert(cj != last) by {
            assert(cs[cs.len() - 1] == last);
        }
        lemma_pair_commutes(base, rs, cj, last);
        assert(cs.drop_last() == pre);
        assert(process_clients(l, cs, rs) == process_client(process_clients(l, pre, rs), last, records_of(rs, last)));
        assert(process_clients(l, moved, rs) == process_client(base, cj, records_of(rs, cj)));
        let target = cs.remove(j).push(cj);
        assert(pre.remove(j).push(last) =~= cs.remove(j));
        assert(target.drop_last() =~= cs.remove(j));
        assert(target.last() == cj);
        assert(cs.remove(j).drop_last() =~= pre.remove(j));
        assert(cs.remove(j).last() == last);
        assert(process_clients(l, cs.remove(j), rs) == process_client(base, last, records_of(rs, last)));
        assert(process_clients(l, target, rs) == process_client(process_clients(l, cs.remove(j), rs), cj, records_of(rs, cj)));
    }
}

/// Any two orders of the same clients give the same ledger.
proof fn lemma_orders_agree(l: Ledger, o1: Seq<u16>, o2: Seq<u16>, rs: Seq<TransactionRecord>)
    requires
        o1.no_duplicates(),
        o2.no_duplicates(),
        forall|x: u16| #[trigger] o1.contains(x) <==> o2.contains(x),
        clients_independent(rs),
    ensures
        process_clients(l, o1, rs) == process_clients(l, o2, rs),
    decreases o1.len(),
{
    if o1.len() == 0 {
        if o2.len() > 0 {
            assert(o2.contains(o2[0]));
            assert(o1.contains(o2[0]));
            let k = choose|k: int| 0 <= k < o1.len() && o1[k] == o2[0];
            assert(false);
        }
        assert(o2 =~= Seq::<u16>::empty());
    } else {
        let c = o1.last();
        assert(o1.contains(c)) by {
            assert(o1[o1.len() - 1] == c);
        }
        let j = choose|j: int| 0 <= j < o2.len() && o2[j] == c;
        lemma_move_to_end(l, o2, j, rs);
        lemma_remove_facts(o2, j);
        let o1r = o1.drop_last();
        lemma_remove_facts(o1, o1.len() - 1);
        assert(o1.remove(o1.len() - 1) =~= o1r);
        lemma_orders_agree(l, o1r, o2.remove(j), rs);
        let o2m = o2.remove(j).push(c);
        assert(o2m.drop_last() =~= o2.remove(j));
        assert(o2m.last() == c);
    }
}

/// Only the records of the clients taken matter.
proof fn lemma_same_client_records(l: Ledger, cs: Seq<u16>, rs: Seq<TransactionRecord>, rs2: Seq<TransactionRecord>)
    requires
        forall|i: int| 0 <= i < cs.len() ==> records_of(rs, #[trigger] cs[i]) == records_of(rs2, cs[i]),
    ensures
        process_clients(l, cs, rs) == process_clients(l, cs, rs2),
    decreases cs.len(),
{
    if cs.len() > 0 {
        assert(records_of(rs, cs[cs.len() - 1]) == records_of(rs2, cs[cs.len() - 1]));
        lemma_same_client_records(l, cs.drop_last(), rs, rs2);
    }
}

/// One more record of a client is one more step on its account.
proof fn lemma_process_client_push(l: Ledger, c: u16, s: Seq<TransactionRecord>, r: TransactionRecord)
    ensures
        process_client(l, c, s.push(r)) == process_client(process_client(l, c, s), c, seq![r]),
{
    if l.accounts.contains_key(c) {
        let a = l.accounts[c];
        lemma_apply_records_append(a, l.history, s, seq![r]);
        assert(s + seq![r] =~= s.push(r));
        let mid = apply_records(a, l.history, s);
        let one = seq![r];
        assert(one.drop_last() =~= Seq::<TransactionRecord>::empty());
        assert(one.last() == r);
        assert(apply_records(mid.0, mid.1, one.drop_last()) == (mid.0, mid.1));
        assert(apply_records(mid.0, mid.1, one) == apply_record(mid.0, mid.1, r));
        let left = process_client(l, c, s.push(r));
        let right = process_client(process_client(l, c, s), c, one);
        assert(left.accounts =~= right.accounts);
    }
}

/// Law: when no record names a transaction that another client deposits or
/// withdraws, a batch comes to the same as applying its records one at a
/// time, in input order.
pub proof fn law_batch_is_one_by_one(l: Ledger, rs: Seq<TransactionRecord>)
    requires
        clients_independent(rs),
    ensures
        process_batch(l, rs) == process_one_by_one(l, rs),
    decreases rs.len(),
{
    if rs.len() == 0 {
        assert(clients_in_order(rs) =~= Seq::<u16>::empty());
    } else {
        let p = rs.drop_last();
        let r = rs.last();
        let c = r.client_id;
        assert forall|i: int| 0 <= i < p.len() implies rs.contains(#[trigger] p[i]) by {
            assert(rs[i] == p[i]);
        }
        lemma_independent_sub(rs, p);
        law_batch_is_one_by_one(l, p);
        let cp = clients_in_order(p);
        lemma_clients_in_order_facts(p);
        lemma_records_of_members(p, c);
        assert forall|x: u16| x != c implies #[trigger] records_of(rs, x) == records_of(p, x) by {}
        assert(records_of(rs, c) == records_of(p, c).push(r));
        if !cp.contains(c) {
            assert(records_of(p, c) =~= Seq::<TransactionRecord>::empty());
            assert(records_of(rs, c) =~= seq![r]);
            let cs = cp.push(c);
            assert(clients_in_order(rs) == cs);
            assert(cs.drop_last() =~= cp);
            assert forall|i: int| 0 <= i < cp.len() implies records_of(rs, #[trigger] cp[i]) == records_of(p, cp[i]) by {
                assert(cp[i] != c);
            }
            lemma_same_client_records(l, cp, rs, p);
        } else {
            let cs = cp;
            assert(clients_in_order(rs) == cs);
            let j = choose|j: int| 0 <= j < cs.len() && cs[j] == c;
            lemma_move_to_end(l, cs, j, rs);
            lemma_move_to_end(l, cs, j, p);
            lemma_remove_facts(cs, j);
            let rest = cs.remove(j);
            assert forall|i: int| 0 <= i < rest.len() implies records_of(rs, #[trigger] rest[i]) == records_of(p, rest[i]) by {
                assert(rest.contains(rest[i]));
            }
            lemma_same_client_records(l, rest, rs, p);
            let m = rest.push(c);
            assert(m.drop_last() =~= rest);
            assert(m.last() == c);
            lemma_process_client_push(process_clients(l, rest, p), c, records_of(p, c), r);
        }
    }
}

proof fn lemma_one_by_one_append(l: Ledger, a: Seq<TransactionRecord>, b: Seq<TransactionRecord>)
    ensures
        process_one_by_one(l, a + b) == process_one_by_one(process_one_by_one(l, a), b),
    decreases b.len(),
{
    if b.len() == 0 {
        assert(a + b =~= a);
    } else {
        lemma_one_by_one_append(l, a, b.drop_last());
        assert((a + b).drop_last() =~= a + b.drop_last());
        assert((a + b).last() == b.last());
    }
}

/// Law: when no record names a transaction that another client deposits or
/// withdraws, taking the clients of a batch in any order gives the same
/// ledger.
pub proof fn law_any_client_order(l: Ledger, rs: Seq<TransactionRecord>, order: Seq<u16>)
    requires
        clients_independent(rs),
        order.no_duplicates(),
        forall|c: u16| #[trigger] order.contains(c) <==> has_client(rs, c),
    ensures
        process_clients(l, order, rs) == process_batch(l, rs),
{
    lemma_clients_in_order_facts(rs);
    lemma_orders_agree(l, order, clients_in_order(rs), rs);
}

/// Law: under the same condition, reordering a batch while keeping the
/// order of each client's records does not change the outcome.
pub proof fn law_reorder_keeping_client_order(l: Ledger, rs: Seq<TransactionRecord>, rs2: Seq<TransactionRecord>)
    requires
        clients_independent(rs),
        forall|c: u16| #[trigger] records_of(rs2, c) == records_of(rs, c),
    ensures
        process_batch(l, rs2) == process_batch(l, rs),
{
    lemma_clients_in_order_facts(rs);
    lemma_clients_in_order_facts(rs2);
    let o2 = clients_in_order(rs2);
    assert forall|c: u16| #[trigger] o2.contains(c) <==> has_client(rs, c) by {
        lemma_records_of_members(rs, c);
        lemma_records_of_members(rs2, c);
        assert(records_of(rs2, c) == records_of(rs, c));
    }
    assert forall|i: int| 0 <= i < o2.len() implies records_of(rs2, #[trigger] o2[i]) == records_of(rs, o2[i]) by {
        assert(records_of(rs2, o2[i]) == records_of(rs, o2[i]));
    }
    lemma_same_client_records(l, o2, rs2, rs);
    law_any_client_order(l, rs, o2);
}

/// Law: under the same condition, two batches come to the same as one
/// batch of all their records.
pub proof fn law_two_batches_are_one(l: Ledger, a: Seq<TransactionRecord>, b: Seq<TransactionRecord>)
    requires
        clients_independent(a + b),
    ensures
        process_batch(process_batch(l, a), b) == process_batch(l, a + b),
{
    assert forall|i: int| 0 <= i < a.len() implies (a + b).contains(#[trigger] a[i]) by {
        assert((a + b)[i] == a[i]);
    }
    assert forall|i: int| 0 <= i < b.len() implies (a + b).contains(#[trigger] b[i]) by {
        assert((a + b)[a.len() + i] == b[i]);
    }
    lemma_independent_sub(a + b, a);
    lemma_independent_sub(a + b, b);
    law_batch_is_one_by_one(l, a + b);
    law_batch_is_one_by_one(l, a);
    law_batch_is_one_by_one(process_batch(l, a), b);
    lemma_one_by_one_append(l, a, b);
}

/// Law: under the same condition, processing in chunks comes to the same as
/// one batch of all the records.
pub proof fn law_chunks_are_one_batch(l: Ledger, rs: Seq<TransactionRecord>)
    requires
        clients_independent(rs),
    ensures
        process_in_chunks(l, rs) == process_batch(l, rs),
    decreases rs.len(),
{
    if rs.len() == 0 {
        assert(clients_in_order(rs) =~= Seq::<u16>::empty());
    } else if rs.len() > 100 {
        let a = rs.take(100);
        let b = rs.skip(100);
        assert(a + b =~= rs);
        assert forall|i: int| 0 <= i < b.len() implies rs.contains(#[trigger] b[i]) by {
            assert(rs[100 + i] == b[i]);
        }
        lemma_independent_sub(rs, b);
        law_chunks_are_one_batch(process_batch(l, a), b);
        law_two_batches_are_one(l, a, b);
    }
}

} // verus!
