use vstd::prelude::*;

use crate::account::{
    lemma_locked_in_wf, lemma_refunded_wf, lemma_settle_keeps_shape, Account, AccountJson,
    AccountModel,
};
use crate::transfer_transaction::{TransferTransaction, TransferTransactionJson, TxModel, TxStatus};
use crate::tx_log::{
    entries_view, epochs_sorted, lemma_slot_of, locate_bucket, log_view, BucketModel, Entry,
    SettleRule,
};

verus! {

/// Why an operation of the ledger was refused.
#[derive(Clone, Copy, Debug, PartialEq, Eq, Structural)]
pub enum LedgerError {
    AlreadyRegistered,
    AccountNotFound,
    InvalidAmount,
    DuplicateTransactionId,
    InvalidCursor,
    InsufficientBalance,
    ArithmeticOverflow,
}

/// An instruction to pay `amount` to `receiver_id`, for the host to carry out
/// once the call has succeeded.
pub struct Transfer {
    pub receiver_id: String,
    pub amount: u128,
}

/// An account stored under its id.
pub struct AccountRecord {
    pub account_id: String,
    pub account: Account,
}

/// The escrow ledger: every registered account with its transaction log.
pub struct HurdlePayment {
    pub owner_id: String,
    pub accounts: Vec<AccountRecord>,
}

pub open spec fn ids_unique(s: Seq<AccountRecord>) -> bool {
    forall|i: int, k: int|
        0 <= i < s.len() && 0 <= k < s.len() && i != k ==> s[i].account_id@ != s[k].account_id@
}

pub open spec fn registered_in(s: Seq<AccountRecord>, id: Seq<char>) -> bool {
    exists|i: int| 0 <= i < s.len() && s[i].account_id@ == id
}

pub open spec fn index_in(s: Seq<AccountRecord>, id: Seq<char>) -> int {
    choose|i: int| 0 <= i < s.len() && s[i].account_id@ == id
}

pub open spec fn accounts_view(s: Seq<AccountRecord>) -> Map<Seq<char>, AccountModel> {
    Map::new(|id: Seq<char>| registered_in(s, id), |id: Seq<char>| s[index_in(s, id)].account@)
}

impl View for HurdlePayment {
    type V = Map<Seq<char>, AccountModel>;

    open spec fn view(&self) -> Map<Seq<char>, AccountModel> {
        accounts_view(self.accounts@)
    }
}

pub proof fn lemma_index_in(s: Seq<AccountRecord>, k: int)
    requires
        ids_unique(s),
        0 <= k < s.len(),
    ensures
        registered_in(s, s[k].account_id@),
        index_in(s, s[k].account_id@) == k,
        accounts_view(s).contains_key(s[k].account_id@),
        accounts_view(s)[s[k].account_id@] == s[k].account@,
{
    let j = index_in(s, s[k].account_id@);
    assert(0 <= j < s.len() && s[j].account_id@ == s[k].account_id@);
}

pub proof fn lemma_view_update(s: Seq<AccountRecord>, k: int, r: AccountRecord)
    requires
        ids_unique(s),
        0 <= k < s.len(),
        r.account_id@ == s[k].account_id@,
    ensures
        ids_unique(s.update(k, r)),
        accounts_view(s.update(k, r)) == accounts_view(s).insert(r.account_id@, r.account@),
{
    let u = s.update(k, r);
    assert(ids_unique(u));
    lemma_index_in(u, k);
    assert forall|id: Seq<char>| registered_in(u, id) implies #[trigger] accounts_view(u)[id] == accounts_view(s).insert(r.account_id@, r.account@)[id] by {
        let j = index_in(u, id);
        assert(0 <= j < u.len() && u[j].account_id@ == id);
        if j != k {
            lemma_index_in(s, j);
            lemma_index_in(u, j);
        }
    }
    assert forall|id: Seq<char>| accounts_view(s).insert(r.account_id@, r.account@).contains_key(id) implies registered_in(u, id) by {
        if id != r.account_id@ {
            assert(registered_in(s, id));
            let j = index_in(s, id);
            assert(0 <= j < s.len() && s[j].account_id@ == id);
            assert(u[j].account_id@ == id);
        }
    }
    assert(accounts_view(u) =~= accounts_view(s).insert(r.account_id@, r.account@));
}

pub proof fn lemma_view_push(s: Seq<AccountRecord>, r: AccountRecord)
    requires
        ids_unique(s),
        !registered_in(s, r.account_id@),
    ensures
        ids_unique(s.push(r)),
        accounts_view(s.push(r)) == accounts_view(s).insert(r.account_id@, r.account@),
{
    let u = s.push(r);
    assert forall|i: int, k: int|
        0 <= i < u.len() && 0 <= k < u.len() && i != k implies u[i].account_id@ != u[k].account_id@ by {
        if i == s.len() {
            assert(!(0 <= k < s.len() && s[k].account_id@ == r.account_id@));
        } else if k == s.len() {
            assert(!(0 <= i < s.len() && s[i].account_id@ == r.account_id@));
        }
    }
    lemma_index_in(u, s.len() as int);
    assert forall|id: Seq<char>| registered_in(u, id) implies #[trigger] accounts_view(u)[id] == accounts_view(s).insert(r.account_id@, r.account@)[id] by {
        let j = index_in(u, id);
        assert(0 <= j < u.len() && u[j].account_id@ == id);
        if j != s.len() {
            lemma_index_in(s, j);
            lemma_index_in(u, j);
        }
    }
    assert forall|id: Seq<char>| accounts_view(s).insert(r.account_id@, r.account@).contains_key(id) implies registered_in(u, id) by {
        if id != r.account_id@ {
            assert(registered_in(s, id));
            let j = index_in(s, id);
            assert(0 <= j < s.len() && s[j].account_id@ == id);
            assert(u[j].account_id@ == id);
        }
    }
    assert(accounts_view(u) =~= accounts_view(s).insert(r.account_id@, r.account@));
}

pub open spec fn all_wf(s: Seq<AccountRecord>) -> bool {
    forall|i: int| 0 <= i < s.len() ==> (#[trigger] s[i]).account@.wf(s[i].account_id@)
}

/// Replacing one account by a well-formed one keeps the ledger well formed
/// and changes its view at that id only.
pub proof fn lemma_replace_account(s: Seq<AccountRecord>, u: Seq<AccountRecord>, k: int)
    requires
        ids_unique(s),
        all_wf(s),
        0 <= k < s.len(),
        u == s.update(k, u[k]),
        u[k].account_id@ == s[k].account_id@,
        u[k].account@.wf(u[k].account_id@),
    ensures
        ids_unique(u),
        all_wf(u),
        accounts_view(u) == accounts_view(s).insert(s[k].account_id@, u[k].account@),
{
    lemma_view_update(s, k, u[k]);
}

/// The transaction that a lock records.
pub open spec fn lock_record(
    sender: Seq<char>,
    receiver: Seq<char>,
    campaign: Seq<char>,
    id: Seq<char>,
    amount: u128,
    hold: u64,
    now: u64,
) -> TxModel {
    TxModel {
        id,
        sender,
        receiver,
        campaign,
        amount,
        created_at: now,
        claimable_at: (now + hold) as u64,
        status: TxStatus::Lock,
    }
}

/// The first condition on which a lock is refused, if any.
pub open spec fn lock_error(
    m: Map<Seq<char>, AccountModel>,
    receiver: Seq<char>,
    amount: u128,
    hold: u64,
    id: Seq<char>,
    now: u64,
) -> Option<LedgerError> {
    if !m.contains_key(receiver) {
        Some(LedgerError::AccountNotFound)
    } else if amount == 0 {
        Some(LedgerError::InvalidAmount)
    } else if m[receiver].holds_id(now, id) {
        Some(LedgerError::DuplicateTransactionId)
    } else if now + hold > u64::MAX || m[receiver].total_revenue + amount > u128::MAX {
        Some(LedgerError::ArithmeticOverflow)
    } else {
        None
    }
}

/// The transactions of the buckets `lo..=hi`, bucket by bucket, each bucket
/// in order of creation.
pub open spec fn txs_in_range(l: Seq<BucketModel>, lo: u64, hi: u64) -> Seq<TxModel>
    decreases l.len(),
{
    if l.len() == 0 {
        Seq::empty()
    } else if lo <= l.last().epoch <= hi {
        txs_in_range(l.drop_last(), lo, hi) + l.last().txs
    } else {
        txs_in_range(l.drop_last(), lo, hi)
    }
}

/// Buckets outside `lo..=hi` add nothing to `txs_in_range`.
pub proof fn lemma_txs_in_range_outside(l: Seq<BucketModel>, n: int, lo: u64, hi: u64)
    requires
        0 <= n <= l.len(),
        forall|k: int| n <= k < l.len() ==> !(lo <= #[trigger] l[k].epoch <= hi),
    ensures
        txs_in_range(l, lo, hi) == txs_in_range(l.take(n), lo, hi),
    decreases l.len(),
{
    if n == l.len() {
        assert(l.take(n) =~= l);
    } else {
        assert(l.drop_last().take(n) =~= l.take(n));
        lemma_txs_in_range_outside(l.drop_last(), n, lo, hi);
    }
}

/// Whether the views `v` show the transactions `s`, one for one.
pub open spec fn views_show(v: Seq<TransferTransactionJson>, s: Seq<TxModel>) -> bool {
    &&& v.len() == s.len()
    &&& forall|m: int| 0 <= m < v.len() ==> (#[trigger] v[m]).shows(s[m])
}

fn entry_view(e: &Entry) -> (r: TransferTransactionJson)
    ensures
        r.shows(e@),
{
    let t = &e.transaction;
    TransferTransactionJson {
        transaction_id: e.transaction_id.clone(),
        sender_id: t.sender_id.clone(),
        receiver_id: t.receiver_id.clone(),
        campaign_id: t.campaign_id.clone(),
        locked_balance: t.locked_balance,
        created_at: t.created_at,
        claimable_at: t.claimable_at,
        status: t.status.to_label(),
    }
}

/// First bucket that a refund by window looks at: the window reaches back
/// `REFUND_WINDOW_FACTOR` hold periods from `now`.
pub open spec fn window_start(now: u64, hold: u64) -> u64 {
    if REFUND_WINDOW_FACTOR * hold <= now {
        (now - REFUND_WINDOW_FACTOR * hold) as u64
    } else {
        0
    }
}

/// How many hold periods back a refund by window reaches.
pub const REFUND_WINDOW_FACTOR: u64 = 2;

impl HurdlePayment {
    /// Every account is stored once and agrees with its log.
    pub open spec fn wf(&self) -> bool {
        &&& ids_unique(self.accounts@)
        &&& all_wf(self.accounts@)
    }

    pub fn new(owner_id: String) -> (r: Self)
        ensures
            r.wf(),
            r.owner_id == owner_id,
            r@ == Map::<Seq<char>, AccountModel>::empty(),
    {
        let r = HurdlePayment { owner_id, accounts: Vec::new() };
        assert(r@ =~= Map::<Seq<char>, AccountModel>::empty());
        r
    }

    /// Whether every account is stored once and agrees with its log, as
    /// every operation of the ledger requires.
    pub fn is_well_formed(&self) -> (r: bool)
        ensures
            r == self.wf(),
    {
        let ghost s = self.accounts@;
        let mut i: usize = 0;
        while i < self.accounts.len()
            invariant
                i <= s.len(),
                s == self.accounts@,
                forall|a: int, b: int| 0 <= a < i && 0 <= b < s.len() && a != b ==> s[a].account_id@ != s[b].account_id@,
                forall|a: int| 0 <= a < i ==> (#[trigger] s[a]).account@.wf(s[a].account_id@),
            decreases s.len() - i,
        {
            let mut k: usize = 0;
            while k < self.accounts.len()
                invariant
                    i < s.len(),
                    k <= s.len(),
                    s == self.accounts@,
                    forall|b: int| 0 <= b < k && b != i ==> s[i as int].account_id@ != s[b].account_id@,
                decreases s.len() - k,
            {
                if k != i && self.accounts[k].account_id == self.accounts[i].account_id {
                    assert(s[k as int].account_id@ == s[i as int].account_id@);
                    return false;
                }
                k = k + 1;
            }
            if !self.accounts[i].account.is_well_formed_for(&self.accounts[i].account_id) {
                assert(!s[i as int].account@.wf(s[i as int].account_id@));
                return false;
            }
            i = i + 1;
        }
        true
    }

    fn find_account(&self, id: &String) -> (r: Option<usize>)
        requires
            self.wf(),
        ensures
            match r {
                Some(k) => k < self.accounts@.len() && self.accounts@[k as int].account_id@ == id@
                    && self@.contains_key(id@) && self@[id@] == self.accounts@[k as int].account@,
                None => !self@.contains_key(id@),
            },
    {
        let mut k: usize = 0;
        while k < self.accounts.len()
            invariant
                k <= self.accounts@.len(),
                self.wf(),
                forall|j: int| 0 <= j < k ==> self.accounts@[j].account_id@ != id@,
            decreases self.accounts@.len() - k,
        {
            if self.accounts[k].account_id == *id {
                proof {
                    lemma_index_in(self.accounts@, k as int);
                }
                return Some(k);
            }
            k = k + 1;
        }
        None
    }

    /// Opens an account with zero balances and its sweep cursor at `now`.
    pub fn register_new_account(&mut self, account_id: String, now: u64) -> (r: Result<(), LedgerError>)
        requires
            old(self).wf(),
        ensures
            final(self).wf(),
            final(self).owner_id == old(self).owner_id,
            old(self)@.contains_key(account_id@) ==> r == Err::<(), LedgerError>(LedgerError::AlreadyRegistered)
                && *final(self) == *old(self),
            !old(self)@.contains_key(account_id@) ==> r is Ok && final(self)@ == old(self)@.insert(
                account_id@,
                AccountModel::fresh(now),
            ),
    {
        if self.find_account(&account_id).is_some() {
            return Err(LedgerError::AlreadyRegistered);
        }
        let rec = AccountRecord { account_id, account: Account::new(now) };
        proof {
            lemma_view_push(self.accounts@, rec);
        }
        self.accounts.push(rec);
        proof {
            let s = self.accounts@;
            assert forall|i: int| 0 <= i < s.len() implies (#[trigger] s[i]).account@.wf(s[i].account_id@) by {
                if i == s.len() - 1 {
                    assert(s[i].account@.log =~= Seq::empty());
                }
            }
        }
        Ok(())
    }
    /// Locks `amount` from `sender_id` in favour of `receiver_id` until the
    /// bucket `now + cash_hold_time`, under the id `transaction_id` of the
    /// bucket `now`.
    pub fn send_to_contract(
        &mut self,
        sender_id: String,
        receiver_id: String,
        amount: u128,
        cash_hold_time: u64,
        campaign_id: String,
        transaction_id: String,
        now: u64,
    ) -> (r: Result<(), LedgerError>)
        requires
            old(self).wf(),
        ensures
            final(self).wf(),
            final(self).owner_id == old(self).owner_id,
            match lock_error(old(self)@, receiver_id@, amount, cash_hold_time, transaction_id@, now) {
                Some(e) => r == Err::<(), LedgerError>(e) && *final(self) == *old(self),
                None => r is Ok && final(self)@ == old(self)@.insert(
                    receiver_id@,
                    old(self)@[receiver_id@].locked_in(
                        lock_record(
                            sender_id@,
                            receiver_id@,
                            campaign_id@,
                            transaction_id@,
                            amount,
                            cash_hold_time,
                            now,
                        ),
                        now,
                    ),
                ),
            },
    {
        let k = match self.find_account(&receiver_id) {
            Some(k) => k,
            None => return Err(LedgerError::AccountNotFound),
        };
        if amount == 0 {
            return Err(LedgerError::InvalidAmount);
        }
        proof {
            assert(self.accounts@[k as int].account@.wf(self.accounts@[k as int].account_id@));
        }
        if self.accounts[k].account.holds(now, &transaction_id) {
            return Err(LedgerError::DuplicateTransactionId);
        }
        if cash_hold_time > u64::MAX - now || amount > u128::MAX - self.accounts[k].account.total_revenue {
            return Err(LedgerError::ArithmeticOverflow);
        }
        let ghost s0 = self.accounts@;
        let ghost t = lock_record(
            sender_id@,
            receiver_id@,
            campaign_id@,
            transaction_id@,
            amount,
            cash_hold_time,
            now,
        );
        let entry = Entry {
            transaction_id,
            transaction: TransferTransaction {
                sender_id,
                receiver_id: receiver_id.clone(),
                campaign_id,
                locked_balance: amount,
                created_at: now,
                claimable_at: now + cash_hold_time,
                status: TxStatus::Lock,
            },
        };
        assert(entry@ == t);
        self.accounts[k].account.add_lock(entry, now);
        proof {
            lemma_locked_in_wf(s0[k as int].account@, t, now, receiver_id@);
            assert(self.accounts@ =~= s0.update(k as int, self.accounts@[k as int]));
            lemma_replace_account(s0, self.accounts@, k as int);
        }
        Ok(())
    }

    /// Claims, for `account_id`, every locked transaction of the buckets from
    /// its cursor up to `end_epoch` that is claimable at `now`: its amount
    /// moves from the locked to the unlocked balance. The cursor then stands
    /// at `end_epoch`.
    pub fn claim_for_withdraw(&mut self, account_id: String, end_epoch: u64, now: u64) -> (r: Result<
        (),
        LedgerError,
    >)
        requires
            old(self).wf(),
        ensures
            final(self).wf(),
            final(self).owner_id == old(self).owner_id,
            !old(self)@.contains_key(account_id@) ==> r == Err::<(), LedgerError>(
                LedgerError::AccountNotFound,
            ) && *final(self) == *old(self),
            old(self)@.contains_key(account_id@) && end_epoch < old(self)@[account_id@].cursor ==> r
                == Err::<(), LedgerError>(LedgerError::InvalidCursor) && *final(self) == *old(self),
            old(self)@.contains_key(account_id@) && old(self)@[account_id@].cursor <= end_epoch ==> r
                is Ok && final(self)@ == old(self)@.insert(
                account_id@,
                old(self)@[account_id@].swept(end_epoch, now),
            ) && old(self)@[account_id@].cursor <= final(self)@[account_id@].cursor,
    {
        let k = match self.find_account(&account_id) {
            Some(k) => k,
            None => return Err(LedgerError::AccountNotFound),
        };
        if end_epoch < self.accounts[k].account.last_unlock_at {
            return Err(LedgerError::InvalidCursor);
        }
        let ghost s0 = self.accounts@;
        proof {
            assert(s0[k as int].account@.wf(s0[k as int].account_id@));
        }
        self.accounts[k].account.sweep(end_epoch, now);
        proof {
            let a = s0[k as int].account@;
            lemma_settle_keeps_shape(a, self.accounts@[k as int].account@, a.cursor, end_epoch, SettleRule::Claim { now }, account_id@);
            assert(self.accounts@ =~= s0.update(k as int, self.accounts@[k as int]));
            lemma_replace_account(s0, self.accounts@, k as int);
        }
        Ok(())
    }

    /// Refunds to `sender_id` the transaction `transaction_id` of the bucket
    /// `create_epoch` of `receiver_id`, where it is still locked and not yet
    /// claimable at `now`. Anything else leaves the ledger as it is.
    pub fn refund_to_sender(
        &mut self,
        sender_id: String,
        receiver_id: String,
        transaction_id: String,
        create_epoch: u64,
        now: u64,
    ) -> (r: Result<Option<Transfer>, LedgerError>)
        requires
            old(self).wf(),
        ensures
            final(self).wf(),
            final(self).owner_id == old(self).owner_id,
            !old(self)@.contains_key(receiver_id@) ==> r == Err::<Option<Transfer>, LedgerError>(
                LedgerError::AccountNotFound,
            ) && *final(self) == *old(self),
            old(self)@.contains_key(receiver_id@) && !old(self)@[receiver_id@].can_refund(
                transaction_id@,
                create_epoch,
                now,
            ) ==> r == Ok::<Option<Transfer>, LedgerError>(None) && final(self)@ == old(self)@,
            old(self)@.contains_key(receiver_id@) && old(self)@[receiver_id@].can_refund(
                transaction_id@,
                create_epoch,
                now,
            ) ==> r == Ok::<Option<Transfer>, LedgerError>(
                Some(
                    Transfer {
                        receiver_id: sender_id,
                        amount: old(self)@[receiver_id@].tx_of(create_epoch, transaction_id@).amount,
                    },
                ),
            ) && final(self)@ == old(self)@.insert(
                receiver_id@,
                old(self)@[receiver_id@].refunded(transaction_id@, create_epoch),
            ),
    {
        let k = match self.find_account(&receiver_id) {
            Some(k) => k,
            None => return Err(LedgerError::AccountNotFound),
        };
        let ghost s0 = self.accounts@;
        proof {
            assert(s0[k as int].account@.wf(s0[k as int].account_id@));
        }
        match self.accounts[k].account.refund_one(&transaction_id, create_epoch, now) {
            Some(amount) => {
                proof {
                    lemma_refunded_wf(s0[k as int].account@, transaction_id@, create_epoch, now, receiver_id@);
                    assert(self.accounts@ =~= s0.update(k as int, self.accounts@[k as int]));
                    lemma_replace_account(s0, self.accounts@, k as int);
                }
                Ok(Some(Transfer { receiver_id: sender_id, amount }))
            },
            None => {
                assert(self.accounts@ =~= s0);
                assert(self@ =~= accounts_view(s0));
                Ok(None)
            },
        }
    }

    /// Refunds to `sender_id` every transaction of `receiver_id` that it sent,
    /// created in the buckets from `window_start(now, hold_period)` up to
    /// `now`, still locked and not yet claimable at `now`. Returns one
    /// transfer for the whole amount, if there is any.
    pub fn refund_by_window(&mut self, sender_id: String, receiver_id: String, hold_period: u64, now: u64) -> (r: Result<
        Option<Transfer>,
        LedgerError,
    >)
        requires
            old(self).wf(),
        ensures
            final(self).wf(),
            final(self).owner_id == old(self).owner_id,
            !old(self)@.contains_key(receiver_id@) ==> r == Err::<Option<Transfer>, LedgerError>(
                LedgerError::AccountNotFound,
            ) && *final(self) == *old(self),
            old(self)@.contains_key(receiver_id@) ==> final(self)@ == old(self)@.insert(
                receiver_id@,
                old(self)@[receiver_id@].window_refunded(sender_id, window_start(now, hold_period), now),
            ) && r == Ok::<Option<Transfer>, LedgerError>(
                if old(self)@[receiver_id@].window_refund_amount(sender_id, window_start(now, hold_period), now) == 0 {
                    None
                } else {
                    Some(
                        Transfer {
                            receiver_id: sender_id,
                            amount: old(self)@[receiver_id@].window_refund_amount(
                                sender_id,
                                window_start(now, hold_period),
                                now,
                            ) as u128,
                        },
                    )
                },
            ),
    {
        let k = match self.find_account(&receiver_id) {
            Some(k) => k,
            None => return Err(LedgerError::AccountNotFound),
        };
        let lo: u64 = if hold_period <= now / REFUND_WINDOW_FACTOR {
            now - REFUND_WINDOW_FACTOR * hold_period
        } else {
            0
        };
        assert(lo == window_start(now, hold_period));
        let ghost s0 = self.accounts@;
        proof {
            assert(s0[k as int].account@.wf(s0[k as int].account_id@));
        }
        let amount = self.accounts[k].account.refund_window(sender_id.clone(), lo, now);
        proof {
            let a = s0[k as int].account@;
            lemma_settle_keeps_shape(a, self.accounts@[k as int].account@, lo, now, SettleRule::Refund { sender: sender_id, now }, receiver_id@);
            assert(self.accounts@ =~= s0.update(k as int, self.accounts@[k as int]));
            lemma_replace_account(s0, self.accounts@, k as int);
        }
        if amount == 0 {
            Ok(None)
        } else {
            Ok(Some(Transfer { receiver_id: sender_id, amount }))
        }
    }

    /// Pays `amount` out of the unlocked balance of `receiver_id`.
    pub fn withdraw_unlocked_balance(&mut self, receiver_id: String, amount: u128) -> (r: Result<
        Transfer,
        LedgerError,
    >)
        requires
            old(self).wf(),
        ensures
            final(self).wf(),
            final(self).owner_id == old(self).owner_id,
            !old(self)@.contains_key(receiver_id@) ==> r == Err::<Transfer, LedgerError>(
                LedgerError::AccountNotFound,
            ) && *final(self) == *old(self),
            old(self)@.contains_key(receiver_id@) && amount > old(self)@[receiver_id@].unlocked ==> r
                == Err::<Transfer, LedgerError>(LedgerError::InsufficientBalance) && *final(self)
                == *old(self),
            old(self)@.contains_key(receiver_id@) && amount <= old(self)@[receiver_id@].unlocked ==> r
                == Ok::<Transfer, LedgerError>(Transfer { receiver_id, amount }) && final(self)@
                == old(self)@.insert(receiver_id@, old(self)@[receiver_id@].withdrawn(amount)),
    {
        let k = match self.find_account(&receiver_id) {
            Some(k) => k,
            None => return Err(LedgerError::AccountNotFound),
        };
        if amount > self.accounts[k].account.unlocked_balance {
            return Err(LedgerError::InsufficientBalance);
        }
        let ghost s0 = self.accounts@;
        proof {
            assert(s0[k as int].account@.wf(s0[k as int].account_id@));
        }
        self.accounts[k].account.withdraw(amount);
        proof {
            assert(self.accounts@ =~= s0.update(k as int, self.accounts@[k as int]));
            lemma_replace_account(s0, self.accounts@, k as int);
        }
        Ok(Transfer { receiver_id, amount })
    }

    /// The balances and cursor of `account_id`.
    pub fn get_account_info(&self, account_id: String) -> (r: Result<AccountJson, LedgerError>)
        requires
            self.wf(),
        ensures
            !self@.contains_key(account_id@) ==> r == Err::<AccountJson, LedgerError>(
                LedgerError::AccountNotFound,
            ),
            self@.contains_key(account_id@) ==> r is Ok && r->Ok_0.shows(
                account_id@,
                self@[account_id@],
            ),
    {
        let k = match self.find_account(&account_id) {
            Some(k) => k,
            None => return Err(LedgerError::AccountNotFound),
        };
        let a = &self.accounts[k].account;
        Ok(
            AccountJson {
                account_id,
                unlocked_balance: a.unlocked_balance,
                locked_balance: a.locked_balance,
                total_revenue: a.total_revenue,
                last_unlock_at: a.last_unlock_at,
            },
        )
    }

    /// The transactions of `account_id` created in the buckets
    /// `start_epoch..=end_epoch`.
    pub fn get_transactions_info(&self, account_id: String, start_epoch: u64, end_epoch: u64) -> (r:
        Result<Vec<TransferTransactionJson>, LedgerError>)
        requires
            self.wf(),
        ensures
            !self@.contains_key(account_id@) ==> r == Err::<Vec<TransferTransactionJson>, LedgerError>(
                LedgerError::AccountNotFound,
            ),
            self@.contains_key(account_id@) ==> r is Ok && views_show(
                r->Ok_0@,
                txs_in_range(self@[account_id@].log, start_epoch, end_epoch),
            ),
    {
        let k = match self.find_account(&account_id) {
            Some(k) => k,
            None => return Err(LedgerError::AccountNotFound),
        };
        let log = &self.accounts[k].account.transactions;
        let ghost l = log_view(log@);
        proof {
            assert(self.accounts@[k as int].account@.wf(account_id@));
            lemma_slot_of(l, start_epoch);
        }
        let first = match locate_bucket(log, start_epoch) {
            Ok(i) => i,
            Err(p) => p,
        };
        proof {
            assert forall|m: int| 0 <= m < l.len() implies (m < first <==> l[m].epoch < start_epoch) by {
                if first < l.len() && m != first {
                    assert(l[m].epoch < l[first as int].epoch || l[first as int].epoch < l[m].epoch);
                }
            }
            assert forall|m: int| 0 <= m < first implies !(start_epoch <= #[trigger] l.take(first as int)[m].epoch <= end_epoch) by {
                assert(l.take(first as int)[m] == l[m]);
            }
            lemma_txs_in_range_outside(l.take(first as int), 0, start_epoch, end_epoch);
            assert(l.take(first as int).take(0) =~= Seq::<BucketModel>::empty());
        }
        let mut out: Vec<TransferTransactionJson> = Vec::new();
        let mut i: usize = first;
        while i < log.len() && log[i].epoch <= end_epoch
            invariant
                first <= i <= log@.len(),
                l == log_view(log@),
                epochs_sorted(l),
                forall|m: int| i <= m < l.len() ==> l[m].epoch >= start_epoch,
                views_show(out@, txs_in_range(l.take(i as int), start_epoch, end_epoch)),
            decreases log@.len() - i,
        {
            let ghost base = txs_in_range(l.take(i as int), start_epoch, end_epoch);
            assert(l.take(i as int + 1).drop_last() =~= l.take(i as int));
            let b = &log[i];
            let mut j: usize = 0;
            while j < b.entries.len()
                invariant
                    j <= b.entries@.len(),
                    views_show(out@, base + entries_view(b.entries@).take(j as int)),
                decreases b.entries@.len() - j,
            {
                let v = entry_view(&b.entries[j]);
                out.push(v);
                assert(base + entries_view(b.entries@).take(j as int + 1) =~= (base + entries_view(
                    b.entries@,
                ).take(j as int)).push(b.entries@[j as int]@));
                j = j + 1;
            }
            assert(entries_view(b.entries@).take(j as int) =~= l[i as int].txs);
            i = i + 1;
        }
        proof {
            assert forall|m: int| i <= m < l.len() implies l[m].epoch > end_epoch by {
                assert(l[i as int].epoch > end_epoch);
            }
            lemma_txs_in_range_outside(l, i as int, start_epoch, end_epoch);
        }
        Ok(out)
    }
}

} // verus!
