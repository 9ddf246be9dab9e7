use vstd::prelude::*;

use crate::transfer_transaction::{TransferTransaction, TxModel, TxStatus};

verus! {

/// A transaction stored under its id.
pub struct Entry {
    pub transaction_id: String,
    pub transaction: TransferTransaction,
}

impl View for Entry {
    type V = TxModel;

    open spec fn view(&self) -> TxModel {
        self.transaction.model(self.transaction_id@)
    }
}

/// The transactions created in one time bucket.
pub struct BucketModel {
    pub epoch: u64,
    pub txs: Seq<TxModel>,
}

/// The transactions created in one time bucket, in order of creation.
pub struct Bucket {
    pub epoch: u64,
    pub entries: Vec<Entry>,
}

impl View for Bucket {
    type V = BucketModel;

    open spec fn view(&self) -> BucketModel {
        BucketModel { epoch: self.epoch, txs: entries_view(self.entries@) }
    }
}

pub open spec fn entries_view(v: Seq<Entry>) -> Seq<TxModel> {
    v.map_values(|e: Entry| e@)
}

pub open spec fn log_view(v: Seq<Bucket>) -> Seq<BucketModel> {
    v.map_values(|b: Bucket| b@)
}

/// Amount that `t` contributes to the total of transactions in status `st`.
pub open spec fn share(t: TxModel, st: TxStatus) -> int {
    if t.status == st {
        t.amount as int
    } else {
        0
    }
}

/// Total amount of the transactions of `s` that are in status `st`.
pub open spec fn txs_sum(s: Seq<TxModel>, st: TxStatus) -> int
    decreases s.len(),
{
    if s.len() == 0 {
        0
    } else {
        txs_sum(s.drop_last(), st) + share(s.last(), st)
    }
}

/// Total amount of the transactions of a whole log that are in status `st`.
pub open spec fn log_sum(l: Seq<BucketModel>, st: TxStatus) -> int
    decreases l.len(),
{
    if l.len() == 0 {
        0
    } else {
        log_sum(l.drop_last(), st) + txs_sum(l.last().txs, st)
    }
}

pub proof fn lemma_txs_sum_nonneg(s: Seq<TxModel>, st: TxStatus)
    ensures
        txs_sum(s, st) >= 0,
    decreases s.len(),
{
    if s.len() > 0 {
        lemma_txs_sum_nonneg(s.drop_last(), st);
    }
}

pub proof fn lemma_log_sum_nonneg(l: Seq<BucketModel>, st: TxStatus)
    ensures
        log_sum(l, st) >= 0,
    decreases l.len(),
{
    if l.len() > 0 {
        lemma_log_sum_nonneg(l.drop_last(), st);
        lemma_txs_sum_nonneg(l.last().txs, st);
    }
}

pub proof fn lemma_txs_sum_update(s: Seq<TxModel>, j: int, t: TxModel, st: TxStatus)
    requires
        0 <= j < s.len(),
    ensures
        txs_sum(s.update(j, t), st) == txs_sum(s, st) - share(s[j], st) + share(t, st),
    decreases s.len(),
{
    let u = s.update(j, t);
    if j == s.len() - 1 {
        assert(u.drop_last() =~= s.drop_last());
    } else {
        assert(u.drop_last() =~= s.drop_last().update(j, t));
        lemma_txs_sum_update(s.drop_last(), j, t, st);
    }
}

pub proof fn lemma_txs_sum_push(s: Seq<TxModel>, t: TxModel, st: TxStatus)
    ensures
        txs_sum(s.push(t), st) == txs_sum(s, st) + share(t, st),
{
    assert(s.push(t).drop_last() =~= s);
}

pub proof fn lemma_log_sum_update(l: Seq<BucketModel>, i: int, b: BucketModel, st: TxStatus)
    requires
        0 <= i < l.len(),
    ensures
        log_sum(l.update(i, b), st) == log_sum(l, st) - txs_sum(l[i].txs, st) + txs_sum(b.txs, st),
    decreases l.len(),
{
    let u = l.update(i, b);
    if i == l.len() - 1 {
        assert(u.drop_last() =~= l.drop_last());
    } else {
        assert(u.drop_last() =~= l.drop_last().update(i, b));
        lemma_log_sum_update(l.drop_last(), i, b, st);
    }
}

pub proof fn lemma_log_sum_push(l: Seq<BucketModel>, b: BucketModel, st: TxStatus)
    ensures
        log_sum(l.push(b), st) == log_sum(l, st) + txs_sum(b.txs, st),
{
    assert(l.push(b).drop_last() =~= l);
}

pub open spec fn has_bucket(l: Seq<BucketModel>, epoch: u64) -> bool {
    exists|i: int| 0 <= i < l.len() && l[i].epoch == epoch
}

/// Position of the bucket of `epoch`; meaningful where `has_bucket` holds.
pub open spec fn bucket_at(l: Seq<BucketModel>, epoch: u64) -> int {
    choose|i: int| 0 <= i < l.len() && l[i].epoch == epoch
}

pub open spec fn has_tx(s: Seq<TxModel>, id: Seq<char>) -> bool {
    exists|j: int| 0 <= j < s.len() && s[j].id == id
}

/// Position of the transaction `id`; meaningful where `has_tx` holds.
pub open spec fn tx_at(s: Seq<TxModel>, id: Seq<char>) -> int {
    choose|j: int| 0 <= j < s.len() && s[j].id == id
}

/// Buckets stand in increasing order of epoch, one per epoch.
pub open spec fn epochs_sorted(l: Seq<BucketModel>) -> bool {
    forall|i: int, k: int| 0 <= i < k < l.len() ==> l[i].epoch < l[k].epoch
}

/// Where a bucket of `epoch` belongs in a sorted log: after every bucket of
/// an earlier epoch.
pub open spec fn slot_of(l: Seq<BucketModel>, epoch: u64) -> int
    decreases l.len(),
{
    if l.len() == 0 {
        0
    } else if l.last().epoch < epoch {
        l.len() as int
    } else {
        slot_of(l.drop_last(), epoch)
    }
}

pub proof fn lemma_slot_of(l: Seq<BucketModel>, epoch: u64)
    requires
        epochs_sorted(l),
    ensures
        0 <= slot_of(l, epoch) <= l.len(),
        forall|k: int| 0 <= k < slot_of(l, epoch) ==> l[k].epoch < epoch,
        forall|k: int| slot_of(l, epoch) <= k < l.len() ==> l[k].epoch >= epoch,
    decreases l.len(),
{
    if l.len() > 0 {
        let d = l.drop_last();
        lemma_slot_of(d, epoch);
        if l.last().epoch < epoch {
            assert forall|k: int| 0 <= k < l.len() implies l[k].epoch < epoch by {
                if k < l.len() - 1 {
                    assert(l[k].epoch < l[l.len() - 1].epoch);
                }
            }
        } else {
            assert forall|k: int| 0 <= k < slot_of(l, epoch) implies l[k].epoch < epoch by {
                assert(d[k] == l[k]);
            }
            assert forall|k: int| slot_of(l, epoch) <= k < l.len() implies l[k].epoch >= epoch by {
                if k < l.len() - 1 {
                    assert(d[k] == l[k]);
                }
            }
        }
    }
}

pub proof fn lemma_log_sum_insert(l: Seq<BucketModel>, p: int, b: BucketModel, st: TxStatus)
    requires
        0 <= p <= l.len(),
    ensures
        log_sum(l.insert(p, b), st) == log_sum(l, st) + txs_sum(b.txs, st),
    decreases l.len(),
{
    if p == l.len() {
        assert(l.insert(p, b) =~= l.push(b));
        lemma_log_sum_push(l, b, st);
    } else {
        assert(l.insert(p, b).drop_last() =~= l.drop_last().insert(p, b));
        lemma_log_sum_insert(l.drop_last(), p, b, st);
    }
}

pub open spec fn ids_distinct(s: Seq<TxModel>) -> bool {
    forall|j: int, k: int| 0 <= j < s.len() && 0 <= k < s.len() && j != k ==> s[j].id != s[k].id
}

pub proof fn lemma_bucket_at(l: Seq<BucketModel>, i: int)
    requires
        epochs_sorted(l),
        0 <= i < l.len(),
    ensures
        has_bucket(l, l[i].epoch),
        bucket_at(l, l[i].epoch) == i,
{
    let k = bucket_at(l, l[i].epoch);
    assert(0 <= k < l.len() && l[k].epoch == l[i].epoch);
}

pub proof fn lemma_tx_at(s: Seq<TxModel>, j: int)
    requires
        ids_distinct(s),
        0 <= j < s.len(),
    ensures
        has_tx(s, s[j].id),
        tx_at(s, s[j].id) == j,
{
    let k = tx_at(s, s[j].id);
    assert(0 <= k < s.len() && s[k].id == s[j].id);
}

/// Finds the bucket of `epoch` in a sorted log by binary search: `Ok` with
/// its position, or `Err` with the position where it belongs.
pub fn locate_bucket(log: &Vec<Bucket>, epoch: u64) -> (r: Result<usize, usize>)
    requires
        epochs_sorted(log_view(log@)),
    ensures
        match r {
            Ok(i) => i < log@.len() && log@[i as int].epoch == epoch,
            Err(p) => !has_bucket(log_view(log@), epoch) && p == slot_of(log_view(log@), epoch),
        },
{
    let ghost l = log_view(log@);
    let mut lo: usize = 0;
    let mut hi: usize = log.len();
    while lo < hi
        invariant
            lo <= hi <= log@.len(),
            l == log_view(log@),
            epochs_sorted(l),
            forall|k: int| 0 <= k < lo ==> l[k].epoch < epoch,
            forall|k: int| hi <= k < l.len() ==> l[k].epoch >= epoch,
        decreases hi - lo,
    {
        let mid = lo + (hi - lo) / 2;
        if log[mid].epoch < epoch {
            proof {
                assert forall|k: int| 0 <= k <= mid implies l[k].epoch < epoch by {
                    if k < mid {
                        assert(l[k].epoch < l[mid as int].epoch);
                    }
                }
            }
            lo = mid + 1;
        } else {
            proof {
                assert forall|k: int| mid <= k < l.len() implies l[k].epoch >= epoch by {
                    if k > mid {
                        assert(l[mid as int].epoch < l[k].epoch);
                    }
                }
            }
            hi = mid;
        }
    }
    if lo < log.len() && log[lo].epoch == epoch {
        return Ok(lo);
    }
    proof {
        lemma_slot_of(l, epoch);
        let q = slot_of(l, epoch);
        if q < lo {
            assert(l[q].epoch >= epoch);
        } else if q > lo {
            assert(l[lo as int].epoch < epoch);
        }
        if has_bucket(l, epoch) {
            let k = choose|k: int| 0 <= k < l.len() && l[k].epoch == epoch;
            if k > lo {
                assert(l[lo as int].epoch < l[k].epoch);
            }
            assert(l[k].epoch == epoch);
        }
    }
    Err(lo)
}

/// Finds the transaction `id` among the entries of a bucket.
pub fn find_tx(entries: &Vec<Entry>, id: &String) -> (r: Option<usize>)
    ensures
        match r {
            Some(j) => j < entries@.len() && entries@[j as int].transaction_id@ == id@,
            None => !has_tx(entries_view(entries@), id@),
        },
{
    let mut j: usize = 0;
    while j < entries.len()
        invariant
            j <= entries@.len(),
            forall|k: int| 0 <= k < j ==> entries@[k].transaction_id@ != id@,
        decreases entries@.len() - j,
    {
        if entries[j].transaction_id == *id {
            return Some(j);
        }
        j = j + 1;
    }
    assert(!has_tx(entries_view(entries@), id@)) by {
        let s = entries_view(entries@);
        if has_tx(s, id@) {
            let k = choose|k: int| 0 <= k < s.len() && s[k].id == id@;
            assert(entries@[k].transaction_id@ == id@);
        }
    }
    None
}

/// What a settling pass does: claim what has become claimable, or refund what
/// one sender may still take back.
pub enum SettleRule {
    Claim { now: u64 },
    Refund { sender: String, now: u64 },
}

impl SettleRule {
    pub open spec fn applies(&self, t: TxModel) -> bool {
        &&& t.status == TxStatus::Lock
        &&& match self {
            SettleRule::Claim { now } => t.claimable_at <= *now,
            SettleRule::Refund { sender, now } => *now < t.claimable_at && t.sender == sender@,
        }
    }

    pub open spec fn target(&self) -> TxStatus {
        match self {
            SettleRule::Claim { .. } => TxStatus::Claim,
            SettleRule::Refund { .. } => TxStatus::Refund,
        }
    }

    pub fn applies_to(&self, e: &Entry) -> (r: bool)
        ensures
            r == self.applies(e@),
    {
        let t = &e.transaction;
        if t.status != TxStatus::Lock {
            return false;
        }
        match self {
            SettleRule::Claim { now } => t.claimable_at <= *now,
            SettleRule::Refund { sender, now } => *now < t.claimable_at && t.sender_id == *sender,
        }
    }

    pub fn target_status(&self) -> (r: TxStatus)
        ensures
            r == self.target(),
    {
        match self {
            SettleRule::Claim { .. } => TxStatus::Claim,
            SettleRule::Refund { .. } => TxStatus::Refund,
        }
    }
}

pub open spec fn with_status(t: TxModel, st: TxStatus) -> TxModel {
    TxModel {
        id: t.id,
        sender: t.sender,
        receiver: t.receiver,
        campaign: t.campaign,
        amount: t.amount,
        created_at: t.created_at,
        claimable_at: t.claimable_at,
        status: st,
    }
}

pub open spec fn settle_tx(t: TxModel, rule: SettleRule) -> TxModel {
    if rule.applies(t) {
        with_status(t, rule.target())
    } else {
        t
    }
}

/// A bucket after a settling pass over the buckets `lo..=hi`.
pub open spec fn settle_bucket(b: BucketModel, lo: u64, hi: u64, rule: SettleRule) -> BucketModel {
    if lo <= b.epoch <= hi {
        BucketModel { epoch: b.epoch, txs: b.txs.map_values(|t: TxModel| settle_tx(t, rule)) }
    } else {
        b
    }
}

/// A log after a settling pass over the buckets `lo..=hi`.
pub open spec fn settle_log(l: Seq<BucketModel>, lo: u64, hi: u64, rule: SettleRule) -> Seq<
    BucketModel,
> {
    l.map_values(|b: BucketModel| settle_bucket(b, lo, hi, rule))
}

/// How a pass that moved `moved` out of the locked state changes the total
/// of status `st`.
pub open spec fn shift(st: TxStatus, target: TxStatus, moved: int) -> int {
    if st == TxStatus::Lock {
        -moved
    } else if st == target {
        moved
    } else {
        0
    }
}

/// Settles every entry of one bucket that the rule applies to.
pub fn settle_entries(entries: &mut Vec<Entry>, rule: &SettleRule) -> (moved: u128)
    requires
        txs_sum(entries_view(old(entries)@), TxStatus::Lock) <= u128::MAX,
    ensures
        entries_view(final(entries)@) == entries_view(old(entries)@).map_values(
            |t: TxModel| settle_tx(t, *rule),
        ),
        forall|st: TxStatus|
            txs_sum(entries_view(final(entries)@), st) == txs_sum(entries_view(old(entries)@), st)
                + shift(st, rule.target(), moved as int),
{
    let ghost s0 = entries_view(entries@);
    let ghost r = *rule;
    let mut moved: u128 = 0;
    let mut j: usize = 0;
    while j < entries.len()
        invariant
            entries@.len() == s0.len(),
            j <= s0.len(),
            s0 == entries_view(old(entries)@),
            r == *rule,
            txs_sum(s0, TxStatus::Lock) <= u128::MAX,
            forall|k: int| 0 <= k < j ==> entries_view(entries@)[k] == settle_tx(s0[k], r),
            forall|k: int| j <= k < s0.len() ==> entries_view(entries@)[k] == s0[k],
            forall|st: TxStatus|
                txs_sum(entries_view(entries@), st) == txs_sum(s0, st) + shift(
                    st,
                    r.target(),
                    moved as int,
                ),
        decreases s0.len() - j,
    {
        if rule.applies_to(&entries[j]) {
            let amt = entries[j].transaction.locked_balance;
            let target = rule.target_status();
            let ghost cur = entries_view(entries@);
            let ghost t2 = with_status(cur[j as int], r.target());
            proof {
                assert forall|st: TxStatus|
                    txs_sum(cur.update(j as int, t2), st) == txs_sum(cur, st) - share(
                        cur[j as int],
                        st,
                    ) + share(t2, st) by {
                    lemma_txs_sum_update(cur, j as int, t2, st);
                }
                lemma_txs_sum_nonneg(cur.update(j as int, t2), TxStatus::Lock);
            }
            entries[j].transaction.status = target;
            moved = moved + amt;
            assert(entries_view(entries@) =~= cur.update(j as int, t2));
        }
        j = j + 1;
    }
    assert(entries_view(entries@) =~= s0.map_values(|t: TxModel| settle_tx(t, r)));
    moved
}

/// Settles, in every bucket of `lo..=hi`, the entries that the rule applies
/// to, and returns the total amount that left the locked state. The pass
/// starts at the last bucket not newer than `hi` and stops at the first one
/// older than `lo`.
pub fn settle_range(log: &mut Vec<Bucket>, lo: u64, hi: u64, rule: &SettleRule) -> (moved: u128)
    requires
        epochs_sorted(log_view(old(log)@)),
        log_sum(log_view(old(log)@), TxStatus::Lock) <= u128::MAX,
    ensures
        log_view(final(log)@) == settle_log(log_view(old(log)@), lo, hi, *rule),
        forall|st: TxStatus|
            log_sum(log_view(final(log)@), st) == log_sum(log_view(old(log)@), st) + shift(
                st,
                rule.target(),
                moved as int,
            ),
{
    let ghost l0 = log_view(log@);
    let ghost r = *rule;
    let mut moved: u128 = 0;
    let n = log.len();
    let mut i: usize = match locate_bucket(log, hi) {
        Ok(k) => {
            assert(k < n);
            k + 1
        },
        Err(p) => p,
    };
    proof {
        lemma_slot_of(l0, hi);
        assert forall|k: int| i <= k < l0.len() implies l0[k].epoch > hi by {
            if i > 0 {
                assert(l0[i - 1].epoch <= hi);
            }
            if l0[k].epoch == hi {
                assert(has_bucket(l0, hi));
            }
        }
        assert forall|k: int| i <= k < l0.len() implies log_view(log@)[k] == settle_bucket(l0[k], lo, hi, r) by {
            assert(l0[k].epoch > hi);
        }
    }
    while i > 0 && log[i - 1].epoch >= lo
        invariant
            log@.len() == l0.len(),
            i <= l0.len(),
            l0 == log_view(old(log)@),
            r == *rule,
            epochs_sorted(l0),
            log_sum(l0, TxStatus::Lock) <= u128::MAX,
            forall|k: int| 0 <= k < i ==> log_view(log@)[k] == l0[k],
            forall|k: int| i <= k < l0.len() ==> log_view(log@)[k] == settle_bucket(l0[k], lo, hi, r),
            forall|st: TxStatus|
                log_sum(log_view(log@), st) == log_sum(l0, st) + shift(st, r.target(), moved as int),
        decreases i,
    {
        let c = i - 1;
        let epoch = log[c].epoch;
        proof {
            if c + 1 < l0.len() {
                assert(l0[c as int].epoch < l0[c + 1].epoch);
            }
        }
        if epoch <= hi {
            let ghost cur = log_view(log@);
            proof {
                let empty = BucketModel { epoch, txs: Seq::empty() };
                lemma_log_sum_update(cur, c as int, empty, TxStatus::Lock);
                lemma_log_sum_nonneg(cur.update(c as int, empty), TxStatus::Lock);
            }
            let m = settle_entries(&mut log[c].entries, rule);
            let ghost b2 = log_view(log@)[c as int];
            proof {
                assert(log_view(log@) =~= cur.update(c as int, b2));
                assert forall|st: TxStatus|
                    log_sum(cur.update(c as int, b2), st) == log_sum(cur, st) - txs_sum(
                        cur[c as int].txs,
                        st,
                    ) + txs_sum(b2.txs, st) by {
                    lemma_log_sum_update(cur, c as int, b2, st);
                }
                lemma_log_sum_nonneg(log_view(log@), TxStatus::Lock);
                assert(b2 == settle_bucket(l0[c as int], lo, hi, r));
            }
            moved = moved + m;
        }
        i = c;
    }
    proof {
        assert forall|k: int| 0 <= k < i implies l0[k].epoch < lo by {
            assert(l0[i - 1].epoch < lo);
        }
    }
    assert(log_view(log@) =~= settle_log(l0, lo, hi, r));
    moved
}

pub proof fn lemma_txs_sum_prefix(s: Seq<TxModel>, n: int, st: TxStatus)
    requires
        0 <= n <= s.len(),
    ensures
        txs_sum(s.take(n), st) <= txs_sum(s, st),
    decreases s.len(),
{
    if n == s.len() {
        assert(s.take(n) =~= s);
    } else {
        assert(s.drop_last().take(n) =~= s.take(n));
        lemma_txs_sum_prefix(s.drop_last(), n, st);
        lemma_txs_sum_nonneg(s, st);
        if s.len() > 0 {
            assert(share(s.last(), st) >= 0);
        }
    }
}

pub proof fn lemma_log_sum_prefix(l: Seq<BucketModel>, n: int, st: TxStatus)
    requires
        0 <= n <= l.len(),
    ensures
        log_sum(l.take(n), st) <= log_sum(l, st),
    decreases l.len(),
{
    if n == l.len() {
        assert(l.take(n) =~= l);
    } else {
        assert(l.drop_last().take(n) =~= l.take(n));
        lemma_log_sum_prefix(l.drop_last(), n, st);
        lemma_txs_sum_nonneg(l.last().txs, st);
    }
}

/// Total amount of the entries in status `st`, or `None` where it does not
/// fit in a `u128`.
pub fn txs_total(entries: &Vec<Entry>, st: TxStatus) -> (r: Option<u128>)
    ensures
        match r {
            Some(x) => x == txs_sum(entries_view(entries@), st),
            None => txs_sum(entries_view(entries@), st) > u128::MAX,
        },
{
    let ghost s = entries_view(entries@);
    let mut acc: u128 = 0;
    let mut j: usize = 0;
    while j < entries.len()
        invariant
            j <= s.len(),
            s == entries_view(entries@),
            acc == txs_sum(s.take(j as int), st),
        decreases s.len() - j,
    {
        assert(s.take(j as int + 1).drop_last() =~= s.take(j as int));
        if entries[j].transaction.status == st {
            let a = entries[j].transaction.locked_balance;
            if a > u128::MAX - acc {
                proof {
                    lemma_txs_sum_prefix(s, j as int + 1, st);
                }
                return None;
            }
            acc = acc + a;
        }
        j = j + 1;
    }
    assert(s.take(j as int) =~= s);
    Some(acc)
}

/// Total amount of the log's transactions in status `st`, or `None` where it
/// does not fit in a `u128`.
pub fn log_total(log: &Vec<Bucket>, st: TxStatus) -> (r: Option<u128>)
    ensures
        match r {
            Some(x) => x == log_sum(log_view(log@), st),
            None => log_sum(log_view(log@), st) > u128::MAX,
        },
{
    let ghost l = log_view(log@);
    let mut acc: u128 = 0;
    let mut i: usize = 0;
    while i < log.len()
        invariant
            i <= l.len(),
            l == log_view(log@),
            acc == log_sum(l.take(i as int), st),
        decreases l.len() - i,
    {
        assert(l.take(i as int + 1).drop_last() =~= l.take(i as int));
        let t = match txs_total(&log[i].entries, st) {
            Some(t) => t,
            None => {
                proof {
                    lemma_log_sum_prefix(l, i as int + 1, st);
                    lemma_log_sum_nonneg(l.take(i as int), st);
                }
                return None;
            },
        };
        if t > u128::MAX - acc {
            proof {
                lemma_log_sum_prefix(l, i as int + 1, st);
            }
            return None;
        }
        acc = acc + t;
        i = i + 1;
    }
    assert(l.take(i as int) =~= l);
    Some(acc)
}

/// Whether the buckets stand in increasing order of epoch.
pub fn check_sorted(log: &Vec<Bucket>) -> (r: bool)
    ensures
        r == epochs_sorted(log_view(log@)),
{
    let ghost l = log_view(log@);
    let mut i: usize = 1;
    while i < log.len()
        invariant
            1 <= i,
            l == log_view(log@),
            forall|a: int, b: int| 0 <= a < b < i && b < l.len() ==> l[a].epoch < l[b].epoch,
        decreases l.len() - i,
    {
        if log[i - 1].epoch >= log[i].epoch {
            assert(!(l[i - 1].epoch < l[i as int].epoch));
            return false;
        }
        proof {
            assert forall|a: int| 0 <= a < i implies l[a].epoch < l[i as int].epoch by {
                if a < i - 1 {
                    assert(l[a].epoch < l[i - 1].epoch);
                }
            }
        }
        i = i + 1;
    }
    true
}

/// Whether the ids of a bucket's entries are pairwise different.
pub fn check_ids_distinct(entries: &Vec<Entry>) -> (r: bool)
    ensures
        r == ids_distinct(entries_view(entries@)),
{
    let ghost s = entries_view(entries@);
    let mut j: usize = 0;
    while j < entries.len()
        invariant
            j <= s.len(),
            s == entries_view(entries@),
            forall|a: int, b: int| 0 <= a < j && 0 <= b < j && a != b ==> s[a].id != s[b].id,
        decreases s.len() - j,
    {
        let mut k: usize = 0;
        while k < j
            invariant
                k <= j < s.len(),
                s == entries_view(entries@),
                forall|b: int| 0 <= b < k ==> s[j as int].id != s[b].id,
            decreases j - k,
        {
            if entries[j].transaction_id == entries[k].transaction_id {
                assert(s[j as int].id == s[k as int].id);
                return false;
            }
            k = k + 1;
        }
        j = j + 1;
    }
    true
}

} // verus!
