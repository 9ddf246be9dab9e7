use vstd::prelude::*;

use crate::account::{lemma_locked_in_wf, AccountModel};
use crate::payment::{lemma_index_in, lock_error, lock_record, HurdlePayment};
use crate::transfer_transaction::{TxModel, TxStatus};
use crate::tx_log::{
    bucket_at, has_bucket, lemma_bucket_at, lemma_slot_of, lemma_tx_at, log_sum, settle_bucket,
    settle_log, settle_tx, slot_of, SettleRule,
};

verus! {

/// In a well-formed ledger, the locked balance of every account is the total
/// amount of its transactions still in the locked state, all of which name it
/// as receiver.
pub proof fn lemma_locked_balance_matches_log(p: &HurdlePayment, id: Seq<char>)
    requires
        p.wf(),
        p@.contains_key(id),
    ensures
        p@[id].locked == log_sum(p@[id].log, TxStatus::Lock),
        forall|i: int, j: int|
            0 <= i < p@[id].log.len() && 0 <= j < p@[id].log[i].txs.len() ==> (#[trigger] p@[id].log[i].txs[j]).receiver == id,
{
    let s = p.accounts@;
    let k = choose|k: int| 0 <= k < s.len() && s[k].account_id@ == id;
    lemma_index_in(s, k);
    assert(s[k].account@.wf(id));
    assert forall|i: int, j: int|
        0 <= i < p@[id].log.len() && 0 <= j < p@[id].log[i].txs.len() implies (#[trigger] p@[id].log[i].txs[j]).receiver == id by {
        assert(crate::account::bucket_fits(p@[id].log[i], id));
    }
}

/// Sweeping an account twice up to the same bucket at the same time changes
/// nothing the second time.
pub proof fn lemma_sweep_idempotent(a: AccountModel, end: u64, now: u64)
    requires
        a.cursor <= end,
    ensures
        a.swept(end, now).swept(end, now) == a.swept(end, now),
{
    let r = SettleRule::Claim { now };
    let b = a.swept(end, now);
    let l2 = settle_log(b.log, end, end, r);
    assert forall|i: int| 0 <= i < b.log.len() implies #[trigger] l2[i] == b.log[i] by {
        let x = a.log[i];
        if x.epoch == end {
            let y = settle_bucket(x, a.cursor, end, r);
            assert(y.txs.map_values(|t: TxModel| settle_tx(t, r)) =~= y.txs);
        }
    }
    assert(l2 =~= b.log);
}

/// A lock followed, before its claimable bucket, by a refund of the same
/// transaction, whoever asks for it, refunds the amount locked and leaves the
/// locked balance and the revenue as they were.
pub proof fn lemma_lock_then_refund(
    p: &HurdlePayment,
    sender: Seq<char>,
    receiver: Seq<char>,
    campaign: Seq<char>,
    id: Seq<char>,
    amount: u128,
    hold: u64,
    now: u64,
    later: u64,
)
    requires
        p.wf(),
        lock_error(p@, receiver, amount, hold, id, now) is None,
        now <= later < now + hold,
    ensures
        ({
            let a = p@[receiver];
            let b = a.locked_in(lock_record(sender, receiver, campaign, id, amount, hold, now), now);
            &&& b.can_refund(id, now, later)
            &&& b.tx_of(now, id).amount == amount
            &&& b.refunded(id, now).locked == a.locked
            &&& b.refunded(id, now).total_revenue == a.total_revenue
        }),
{
    let s = p.accounts@;
    let k = choose|k: int| 0 <= k < s.len() && s[k].account_id@ == receiver;
    lemma_index_in(s, k);
    let a = p@[receiver];
    assert(a.wf(receiver));
    let t = lock_record(sender, receiver, campaign, id, amount, hold, now);
    lemma_locked_in_wf(a, t, now, receiver);
    let b = a.locked_in(t, now);
    let i = if has_bucket(a.log, now) {
        bucket_at(a.log, now)
    } else {
        slot_of(a.log, now)
    };
    lemma_slot_of(a.log, now);
    assert(0 <= i < b.log.len() && b.log[i].epoch == now);
    lemma_bucket_at(b.log, i);
    let j = b.log[i].txs.len() - 1;
    assert(b.log[i].txs[j] == t);
    lemma_tx_at(b.log[i].txs, j);
}

/// A locked transaction becomes claimable in its claimable bucket itself.
pub proof fn lemma_claimable_at_boundary(t: TxModel, now: u64)
    requires
        t.status == TxStatus::Lock,
        t.claimable_at == now,
    ensures
        settle_tx(t, SettleRule::Claim { now }).status == TxStatus::Claim,
{
}

} // verus!
