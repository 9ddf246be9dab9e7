use vstd::prelude::*;

use crate::transfer_transaction::{TxModel, TxStatus};
use crate::tx_log::{
    bucket_at, check_ids_distinct, check_sorted, entries_view, epochs_sorted, find_tx, log_total, has_bucket, has_tx, ids_distinct,
    lemma_bucket_at, lemma_log_sum_insert, lemma_log_sum_nonneg, lemma_log_sum_update,
    lemma_slot_of, lemma_tx_at, lemma_txs_sum_push, lemma_txs_sum_update, locate_bucket, log_sum,
    log_view, settle_log, settle_range, share, slot_of, tx_at, txs_sum, with_status, Bucket,
    BucketModel, Entry, SettleRule,
};

verus! {

/// Mathematical picture of an account.
pub struct AccountModel {
    pub unlocked: u128,
    pub locked: u128,
    pub total_revenue: u128,
    pub log: Seq<BucketModel>,
    pub cursor: u64,
}

/// The balances of one participant, together with the transactions locked in
/// its favour, grouped by the bucket in which they were created.
pub struct Account {
    pub unlocked_balance: u128,
    pub locked_balance: u128,
    pub total_revenue: u128,
    pub transactions: Vec<Bucket>,
    pub last_unlock_at: u64,
}

impl View for Account {
    type V = AccountModel;

    open spec fn view(&self) -> AccountModel {
        AccountModel {
            unlocked: self.unlocked_balance,
            locked: self.locked_balance,
            total_revenue: self.total_revenue,
            log: log_view(self.transactions@),
            cursor: self.last_unlock_at,
        }
    }
}

/// A transaction of the account `id` that sits in the bucket `epoch`.
pub open spec fn tx_fits(t: TxModel, id: Seq<char>, epoch: u64) -> bool {
    &&& t.receiver == id
    &&& t.created_at == epoch
    &&& t.created_at <= t.claimable_at
}

pub open spec fn bucket_fits(b: BucketModel, id: Seq<char>) -> bool {
    forall|j: int| 0 <= j < b.txs.len() ==> tx_fits(#[trigger] b.txs[j], id, b.epoch)
}

impl AccountModel {
    /// The balances agree with the log: the locked balance is what the
    /// transactions still locked hold, the revenue is what was locked and
    /// not refunded, and no more was released than was claimed.
    pub open spec fn balanced(self) -> bool {
        &&& self.locked == log_sum(self.log, TxStatus::Lock)
        &&& self.total_revenue == log_sum(self.log, TxStatus::Lock) + log_sum(
            self.log,
            TxStatus::Claim,
        )
        &&& self.unlocked + self.locked <= self.total_revenue
    }

    /// The log holds one bucket per epoch and ids are unique within a bucket.
    pub open spec fn indexed(self) -> bool {
        &&& epochs_sorted(self.log)
        &&& forall|i: int| 0 <= i < self.log.len() ==> ids_distinct(#[trigger] self.log[i].txs)
    }

    /// The log is indexed and each transaction is one of `id`'s, created in
    /// its bucket.
    pub open spec fn shaped(self, id: Seq<char>) -> bool {
        &&& self.indexed()
        &&& forall|i: int| 0 <= i < self.log.len() ==> bucket_fits(#[trigger] self.log[i], id)
    }

    pub open spec fn wf(self, id: Seq<char>) -> bool {
        self.balanced() && self.shaped(id)
    }

    pub open spec fn fresh(now: u64) -> AccountModel {
        AccountModel { unlocked: 0, locked: 0, total_revenue: 0, log: Seq::empty(), cursor: now }
    }

    /// The account after sweeping the buckets from its cursor up to `end`,
    /// at time `now`.
    pub open spec fn swept(self, end: u64, now: u64) -> AccountModel {
        let log2 = settle_log(self.log, self.cursor, end, SettleRule::Claim { now });
        let moved = log_sum(self.log, TxStatus::Lock) - log_sum(log2, TxStatus::Lock);
        AccountModel {
            unlocked: (self.unlocked + moved) as u128,
            locked: (self.locked - moved) as u128,
            total_revenue: self.total_revenue,
            log: log2,
            cursor: end,
        }
    }

    /// The account after refunding, in the buckets `lo..=now`, every
    /// transaction of `sender` that is locked and not yet claimable.
    pub open spec fn window_refunded(self, sender: String, lo: u64, now: u64) -> AccountModel {
        let log2 = settle_log(self.log, lo, now, SettleRule::Refund { sender, now });
        let moved = log_sum(self.log, TxStatus::Lock) - log_sum(log2, TxStatus::Lock);
        AccountModel {
            unlocked: self.unlocked,
            locked: (self.locked - moved) as u128,
            total_revenue: (self.total_revenue - moved) as u128,
            log: log2,
            cursor: self.cursor,
        }
    }

    /// Amount that `window_refunded` hands back.
    pub open spec fn window_refund_amount(self, sender: String, lo: u64, now: u64) -> int {
        let log2 = settle_log(self.log, lo, now, SettleRule::Refund { sender, now });
        log_sum(self.log, TxStatus::Lock) - log_sum(log2, TxStatus::Lock)
    }

    /// Whether the bucket `epoch` holds a transaction `id`.
    pub open spec fn holds_id(self, epoch: u64, id: Seq<char>) -> bool {
        &&& has_bucket(self.log, epoch)
        &&& has_tx(self.log[bucket_at(self.log, epoch)].txs, id)
    }

    /// The transaction `id` of the bucket `epoch`, where `holds_id` holds.
    pub open spec fn tx_of(self, epoch: u64, id: Seq<char>) -> TxModel {
        let b = self.log[bucket_at(self.log, epoch)];
        b.txs[tx_at(b.txs, id)]
    }

    /// The account after locking `t` in the bucket `now`, which is opened in
    /// its place if the log has none yet.
    pub open spec fn locked_in(self, t: TxModel, now: u64) -> AccountModel {
        let log2 = if has_bucket(self.log, now) {
            let i = bucket_at(self.log, now);
            self.log.update(i, BucketModel { epoch: now, txs: self.log[i].txs.push(t) })
        } else {
            self.log.insert(slot_of(self.log, now), BucketModel { epoch: now, txs: seq![t] })
        };
        AccountModel {
            unlocked: self.unlocked,
            locked: (self.locked + t.amount) as u128,
            total_revenue: (self.total_revenue + t.amount) as u128,
            log: log2,
            cursor: self.cursor,
        }
    }

    /// Whether the transaction `id` of the bucket `epoch` can still be
    /// refunded at time `now`: it is locked and not yet claimable.
    pub open spec fn can_refund(self, id: Seq<char>, epoch: u64, now: u64) -> bool {
        &&& self.holds_id(epoch, id)
        &&& self.tx_of(epoch, id).status == TxStatus::Lock
        &&& now < self.tx_of(epoch, id).claimable_at
    }

    /// The account after refunding the transaction `id` of the bucket `epoch`.
    pub open spec fn refunded(self, id: Seq<char>, epoch: u64) -> AccountModel {
        let i = bucket_at(self.log, epoch);
        let b = self.log[i];
        let t = self.tx_of(epoch, id);
        AccountModel {
            unlocked: self.unlocked,
            locked: (self.locked - t.amount) as u128,
            total_revenue: (self.total_revenue - t.amount) as u128,
            log: self.log.update(
                i,
                BucketModel {
                    epoch: b.epoch,
                    txs: b.txs.update(tx_at(b.txs, id), with_status(t, TxStatus::Refund)),
                },
            ),
            cursor: self.cursor,
        }
    }

    pub open spec fn withdrawn(self, amount: u128) -> AccountModel {
        AccountModel {
            unlocked: (self.unlocked - amount) as u128,
            locked: self.locked,
            total_revenue: self.total_revenue,
            log: self.log,
            cursor: self.cursor,
        }
    }
}

/// Read-only view of an account's balances, as handed out to callers.
pub struct AccountJson {
    pub account_id: String,
    pub unlocked_balance: u128,
    pub locked_balance: u128,
    pub total_revenue: u128,
    pub last_unlock_at: u64,
}

impl AccountJson {
    /// Whether this view shows the account `id` in state `a`.
    pub open spec fn shows(&self, id: Seq<char>, a: AccountModel) -> bool {
        &&& self.account_id@ == id
        &&& self.unlocked_balance == a.unlocked
        &&& self.locked_balance == a.locked
        &&& self.total_revenue == a.total_revenue
        &&& self.last_unlock_at == a.cursor
    }

    pub fn from(account_id: String, account: Account) -> (r: Self)
        ensures
            r.shows(account_id@, account@),
    {
        AccountJson {
            account_id,
            unlocked_balance: account.unlocked_balance,
            locked_balance: account.locked_balance,
            total_revenue: account.total_revenue,
            last_unlock_at: account.last_unlock_at,
        }
    }
}

impl Account {
    pub fn new(now: u64) -> (r: Account)
        ensures
            r@ == AccountModel::fresh(now),
    {
        let r = Account {
            unlocked_balance: 0,
            locked_balance: 0,
            total_revenue: 0,
            transactions: Vec::new(),
            last_unlock_at: now,
        };
        assert(r@.log =~= Seq::<BucketModel>::empty());
        r
    }

    /// Claims every transaction of the buckets from the cursor up to `end`
    /// that is claimable at `now`, and moves the cursor to `end`.
    pub fn sweep(&mut self, end: u64, now: u64)
        requires
            old(self)@.balanced(),
            old(self)@.indexed(),
        ensures
            final(self)@ == old(self)@.swept(end, now),
            final(self)@.balanced(),
    {
        let rule = SettleRule::Claim { now };
        let moved = settle_range(&mut self.transactions, self.last_unlock_at, end, &rule);
        proof {
            lemma_log_sum_nonneg(self@.log, TxStatus::Lock);
        }
        self.locked_balance = self.locked_balance - moved;
        self.unlocked_balance = self.unlocked_balance + moved;
        self.last_unlock_at = end;
    }

    /// Refunds, in the buckets `lo..=now`, every transaction of `sender` that
    /// is locked and not yet claimable. Returns the amount refunded.
    pub fn refund_window(&mut self, sender: String, lo: u64, now: u64) -> (moved: u128)
        requires
            old(self)@.balanced(),
            old(self)@.indexed(),
        ensures
            final(self)@ == old(self)@.window_refunded(sender, lo, now),
            moved == old(self)@.window_refund_amount(sender, lo, now),
            final(self)@.balanced(),
    {
        let rule = SettleRule::Refund { sender, now };
        let moved = settle_range(&mut self.transactions, lo, now, &rule);
        proof {
            lemma_log_sum_nonneg(self@.log, TxStatus::Lock);
        }
        self.locked_balance = self.locked_balance - moved;
        self.total_revenue = self.total_revenue - moved;
        moved
    }

    pub fn holds(&self, epoch: u64, id: &String) -> (r: bool)
        requires
            self@.indexed(),
        ensures
            r == self@.holds_id(epoch, id@),
    {
        match locate_bucket(&self.transactions, epoch) {
            Ok(i) => {
                proof {
                    lemma_bucket_at(self@.log, i as int);
                    assert(self@.log[i as int].txs == entries_view(self.transactions@[i as int].entries@));
                }
                match find_tx(&self.transactions[i].entries, id) {
                    Some(j) => {
                        assert(self@.log[i as int].txs[j as int].id == id@);
                        true
                    },
                    None => false,
                }
            },
            Err(_) => false,
        }
    }

    /// Records `entry` in the bucket `now` and credits its amount.
    pub fn add_lock(&mut self, entry: Entry, now: u64)
        requires
            old(self)@.balanced(),
            old(self)@.indexed(),
            entry@.status == TxStatus::Lock,
            old(self).total_revenue + entry.transaction.locked_balance <= u128::MAX,
        ensures
            final(self)@ == old(self)@.locked_in(entry@, now),
    {
        let ghost a = self@;
        let ghost t = entry@;
        let amount = entry.transaction.locked_balance;
        match locate_bucket(&self.transactions, now) {
            Ok(i) => {
                proof {
                    lemma_bucket_at(a.log, i as int);
                }
                self.transactions[i].entries.push(entry);
                assert(entries_view(self.transactions@[i as int].entries@) =~= a.log[i as int].txs.push(t));
                assert(log_view(self.transactions@) =~= a.log.update(
                    i as int,
                    BucketModel { epoch: now, txs: a.log[i as int].txs.push(t) },
                ));
            },
            Err(p) => {
                proof {
                    lemma_slot_of(a.log, now);
                }
                let mut entries: Vec<Entry> = Vec::new();
                entries.push(entry);
                assert(entries_view(entries@) =~= seq![t]);
                self.transactions.insert(p, Bucket { epoch: now, entries });
                assert(log_view(self.transactions@) =~= a.log.insert(
                    p as int,
                    BucketModel { epoch: now, txs: seq![t] },
                ));
            },
        }
        self.locked_balance = self.locked_balance + amount;
        self.total_revenue = self.total_revenue + amount;
    }

    /// Refunds the transaction `id` of the bucket `epoch` where it can still
    /// be refunded at `now`; returns the amount refunded, if any.
    pub fn refund_one(&mut self, id: &String, epoch: u64, now: u64) -> (r: Option<
        u128,
    >)
        requires
            old(self)@.balanced(),
            old(self)@.indexed(),
        ensures
            r is Some <==> old(self)@.can_refund(id@, epoch, now),
            r is Some ==> r->0 == old(self)@.tx_of(epoch, id@).amount && final(self)@ == old(
                self,
            )@.refunded(id@, epoch),
            r is None ==> *final(self) == *old(self),
    {
        let ghost a = self@;
        let i = match locate_bucket(&self.transactions, epoch) {
            Ok(i) => i,
            Err(_) => return None,
        };
        proof {
            lemma_bucket_at(a.log, i as int);
        }
        let j = match find_tx(&self.transactions[i].entries, id) {
            Some(j) => j,
            None => return None,
        };
        proof {
            lemma_tx_at(a.log[i as int].txs, j as int);
        }
        let t = &self.transactions[i].entries[j].transaction;
        if !(t.status == TxStatus::Lock && now < t.claimable_at) {
            return None;
        }
        let amount = t.locked_balance;
        let ghost b = a.log[i as int];
        let ghost t2 = with_status(b.txs[j as int], TxStatus::Refund);
        proof {
            lemma_log_sum_nonneg(a.log, TxStatus::Lock);
            lemma_log_sum_update(a.log, i as int, BucketModel { epoch: b.epoch, txs: b.txs.update(j as int, t2) }, TxStatus::Lock);
            lemma_txs_sum_update(b.txs, j as int, t2, TxStatus::Lock);
            lemma_log_sum_nonneg(a.log.update(i as int, BucketModel { epoch: b.epoch, txs: b.txs.update(j as int, t2) }), TxStatus::Lock);
        }
        self.transactions[i].entries[j].transaction.status = TxStatus::Refund;
        self.locked_balance = self.locked_balance - amount;
        self.total_revenue = self.total_revenue - amount;
        assert(entries_view(self.transactions@[i as int].entries@) =~= b.txs.update(j as int, t2));
        assert(log_view(self.transactions@) =~= a.log.update(
            i as int,
            BucketModel { epoch: b.epoch, txs: b.txs.update(j as int, t2) },
        ));
        Some(amount)
    }

    /// Whether this account, stored under `id`, is well formed.
    pub fn is_well_formed_for(&self, id: &String) -> (r: bool)
        ensures
            r == self@.wf(id@),
    {
        let ghost a = self@;
        if !check_sorted(&self.transactions) {
            return false;
        }
        let mut i: usize = 0;
        while i < self.transactions.len()
            invariant
                i <= a.log.len(),
                a == self@,
                forall|k: int| 0 <= k < i ==> ids_distinct(#[trigger] a.log[k].txs) && bucket_fits(a.log[k], id@),
            decreases a.log.len() - i,
        {
            let b = &self.transactions[i];
            assert(b@ == a.log[i as int]);
            if !check_ids_distinct(&b.entries) {
                assert(!ids_distinct(a.log[i as int].txs));
                return false;
            }
            let mut j: usize = 0;
            while j < b.entries.len()
                invariant
                    j <= b.entries@.len(),
                    i < a.log.len(),
                    a == self@,
                    b@ == a.log[i as int],
                    forall|m: int| 0 <= m < j ==> tx_fits(#[trigger] a.log[i as int].txs[m], id@, b.epoch),
                decreases b.entries@.len() - j,
            {
                let t = &b.entries[j].transaction;
                if !(t.receiver_id == *id && t.created_at == b.epoch && t.created_at <= t.claimable_at) {
                    assert(!tx_fits(a.log[i as int].txs[j as int], id@, b.epoch));
                    assert(!bucket_fits(a.log[i as int], id@));
                    return false;
                }
                j = j + 1;
            }
            i = i + 1;
        }
        let locked = match log_total(&self.transactions, TxStatus::Lock) {
            Some(x) => x,
            None => return false,
        };
        let claimed = match log_total(&self.transactions, TxStatus::Claim) {
            Some(x) => x,
            None => return false,
        };
        if locked != self.locked_balance || claimed > u128::MAX - locked {
            return false;
        }
        if self.total_revenue != locked + claimed {
            return false;
        }
        self.unlocked_balance <= self.total_revenue - self.locked_balance
    }

    pub fn withdraw(&mut self, amount: u128)
        requires
            amount <= old(self).unlocked_balance,
        ensures
            final(self)@ == old(self)@.withdrawn(amount),
    {
        self.unlocked_balance = self.unlocked_balance - amount;
    }
}

/// Settling changes statuses only: the log keeps its shape.
pub proof fn lemma_settle_keeps_shape(a: AccountModel, b: AccountModel, lo: u64, hi: u64, rule: SettleRule, id: Seq<char>)
    requires
        a.shaped(id),
        b.log == settle_log(a.log, lo, hi, rule),
    ensures
        b.shaped(id),
{
    assert forall|i: int| 0 <= i < b.log.len() implies ids_distinct(#[trigger] b.log[i].txs) && bucket_fits(b.log[i], id) by {
        let x = a.log[i];
        assert(bucket_fits(x, id));
        assert(ids_distinct(x.txs));
        assert forall|j: int| 0 <= j < b.log[i].txs.len() implies tx_fits(#[trigger] b.log[i].txs[j], id, b.log[i].epoch) by {
            assert(tx_fits(x.txs[j], id, x.epoch));
        }
    }
}

pub proof fn lemma_locked_in_sums(a: AccountModel, t: TxModel, now: u64)
    requires
        epochs_sorted(a.log),
    ensures
        forall|st: TxStatus| log_sum(#[trigger] a.locked_in(t, now).log, st) == log_sum(a.log, st) + share(t, st),
{
    let b = a.locked_in(t, now);
    assert forall|st: TxStatus| log_sum(#[trigger] a.locked_in(t, now).log, st) == log_sum(a.log, st) + share(t, st) by {
        if has_bucket(a.log, now) {
            let i = bucket_at(a.log, now);
            assert(0 <= i < a.log.len() && a.log[i].epoch == now);
            lemma_log_sum_update(a.log, i, BucketModel { epoch: now, txs: a.log[i].txs.push(t) }, st);
            lemma_txs_sum_push(a.log[i].txs, t, st);
        } else {
            lemma_slot_of(a.log, now);
            lemma_log_sum_insert(a.log, slot_of(a.log, now), BucketModel { epoch: now, txs: seq![t] }, st);
            assert(seq![t].drop_last() =~= Seq::<TxModel>::empty());
            assert(seq![t].last() == t);
            assert(txs_sum(Seq::<TxModel>::empty(), st) == 0);
            assert(txs_sum(seq![t], st) == share(t, st));
        }
    }
}

/// Locking a fresh id keeps the log's shape.
pub proof fn lemma_locked_in_shape(a: AccountModel, t: TxModel, now: u64, id: Seq<char>)
    requires
        a.shaped(id),
        !a.holds_id(now, t.id),
        tx_fits(t, id, now),
    ensures
        a.locked_in(t, now).shaped(id),
{
    let b = a.locked_in(t, now);
    if has_bucket(a.log, now) {
        let i = bucket_at(a.log, now);
        assert(b.log[i].txs == a.log[i].txs.push(t));
        assert forall|k: int| 0 <= k < b.log.len() implies ids_distinct(#[trigger] b.log[k].txs) && bucket_fits(b.log[k], id) by {
            if k == i {
                let s = a.log[i].txs;
                assert(ids_distinct(s));
                assert forall|j: int, m: int| 0 <= j < s.len() + 1 && 0 <= m < s.len() + 1 && j != m implies b.log[k].txs[j].id != b.log[k].txs[m].id by {
                    if j == s.len() {
                        assert(s[m].id != t.id);
                    } else if m == s.len() {
                        assert(s[j].id != t.id);
                    }
                }
                assert(bucket_fits(a.log[i], id));
                assert forall|j: int| 0 <= j < b.log[k].txs.len() implies tx_fits(#[trigger] b.log[k].txs[j], id, b.log[k].epoch) by {
                    if j < s.len() {
                        assert(tx_fits(s[j], id, a.log[i].epoch));
                    }
                }
            } else {
                assert(b.log[k] == a.log[k]);
                assert(bucket_fits(a.log[k], id));
            }
        }
    } else {
        let p = slot_of(a.log, now);
        lemma_slot_of(a.log, now);
        assert forall|k: int| 0 <= k < b.log.len() implies ids_distinct(#[trigger] b.log[k].txs) && bucket_fits(b.log[k], id) by {
            if k < p {
                assert(b.log[k] == a.log[k]);
                assert(bucket_fits(a.log[k], id));
            } else if k > p {
                assert(b.log[k] == a.log[k - 1]);
                assert(bucket_fits(a.log[k - 1], id));
            }
        }
        assert forall|k: int| p <= k < a.log.len() implies a.log[k].epoch > now by {
            assert(!(0 <= k < a.log.len() && a.log[k].epoch == now));
        }
        assert forall|k: int, m: int| 0 <= k < m < b.log.len() implies b.log[k].epoch < b.log[m].epoch by {
            if m < p {
            } else if m == p {
            } else if k < p {
            } else if k == p {
            } else {
                assert(b.log[k] == a.log[k - 1]);
                assert(b.log[m] == a.log[m - 1]);
            }
        }
    }
}

pub proof fn lemma_refunded_sums(a: AccountModel, id: Seq<char>, epoch: u64)
    requires
        a.holds_id(epoch, id),
    ensures
        forall|st: TxStatus|
            log_sum(#[trigger] a.refunded(id, epoch).log, st) == log_sum(a.log, st) - share(a.tx_of(epoch, id), st)
                + share(with_status(a.tx_of(epoch, id), TxStatus::Refund), st),
{
    let i = bucket_at(a.log, epoch);
    let b = a.log[i];
    let j = tx_at(b.txs, id);
    let t = a.tx_of(epoch, id);
    let t2 = with_status(t, TxStatus::Refund);
    assert forall|st: TxStatus|
        log_sum(#[trigger] a.refunded(id, epoch).log, st) == log_sum(a.log, st) - share(t, st) + share(t2, st) by {
        lemma_log_sum_update(a.log, i, BucketModel { epoch: b.epoch, txs: b.txs.update(j, t2) }, st);
        lemma_txs_sum_update(b.txs, j, t2, st);
    }
}

/// A refund changes one status only: the log keeps its shape.
pub proof fn lemma_refunded_shape(a: AccountModel, id: Seq<char>, epoch: u64, owner: Seq<char>)
    requires
        a.shaped(owner),
        a.holds_id(epoch, id),
    ensures
        a.refunded(id, epoch).shaped(owner),
{
    let i = bucket_at(a.log, epoch);
    let b = a.log[i];
    let j = tx_at(b.txs, id);
    let c = a.refunded(id, epoch);
    assert forall|k: int| 0 <= k < c.log.len() implies ids_distinct(#[trigger] c.log[k].txs) && bucket_fits(c.log[k], owner) by {
        let x = a.log[k];
        assert(ids_distinct(x.txs));
        assert(bucket_fits(x, owner));
        assert forall|m: int| 0 <= m < c.log[k].txs.len() implies tx_fits(#[trigger] c.log[k].txs[m], owner, c.log[k].epoch) by {
            assert(tx_fits(x.txs[m], owner, x.epoch));
        }
    }
}

/// Locking a fresh id keeps an account well formed.
pub proof fn lemma_locked_in_wf(a: AccountModel, t: TxModel, now: u64, id: Seq<char>)
    requires
        a.wf(id),
        !a.holds_id(now, t.id),
        tx_fits(t, id, now),
        t.status == TxStatus::Lock,
        a.total_revenue + t.amount <= u128::MAX,
    ensures
        a.locked_in(t, now).wf(id),
{
    lemma_locked_in_sums(a, t, now);
    lemma_locked_in_shape(a, t, now, id);
    let b = a.locked_in(t, now);
    assert(log_sum(b.log, TxStatus::Lock) == log_sum(a.log, TxStatus::Lock) + share(t, TxStatus::Lock));
    assert(log_sum(b.log, TxStatus::Claim) == log_sum(a.log, TxStatus::Claim) + share(t, TxStatus::Claim));
}

/// A refund that is allowed keeps an account well formed.
pub proof fn lemma_refunded_wf(a: AccountModel, id: Seq<char>, epoch: u64, now: u64, owner: Seq<char>)
    requires
        a.wf(owner),
        a.can_refund(id, epoch, now),
    ensures
        a.refunded(id, epoch).wf(owner),
{
    lemma_refunded_sums(a, id, epoch);
    lemma_refunded_shape(a, id, epoch, owner);
    let b = a.refunded(id, epoch);
    let t = a.tx_of(epoch, id);
    let t2 = with_status(t, TxStatus::Refund);
    assert(log_sum(b.log, TxStatus::Lock) == log_sum(a.log, TxStatus::Lock) - share(t, TxStatus::Lock) + share(t2, TxStatus::Lock));
    assert(log_sum(b.log, TxStatus::Claim) == log_sum(a.log, TxStatus::Claim) - share(t, TxStatus::Claim) + share(t2, TxStatus::Claim));
    lemma_log_sum_nonneg(b.log, TxStatus::Lock);
}

} // verus!
