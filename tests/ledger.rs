use hurdle_payment::{
    Account, AccountJson, AccountRecord, Bucket, Entry, HurdlePayment, LedgerError, TransferTransaction,
    TransferTransactionJson, TxStatus,
};

const YOCTO_PER_NEAR: f64 = 1_000_000_000_000_000_000_000_000_f64;

fn to_yocto(y_amount: f64) -> u128 {
    (y_amount * YOCTO_PER_NEAR) as u128
}

fn s(x: &str) -> String {
    x.to_string()
}

fn ledger_with(receiver: &str, now: u64) -> HurdlePayment {
    let mut p = HurdlePayment::new(s("alice"));
    p.register_new_account(s(receiver), now).unwrap();
    p
}

fn status_of(p: &HurdlePayment, account: &str, bucket: u64, id: &str) -> String {
    let txs = p.get_transactions_info(s(account), bucket, bucket).unwrap();
    txs.into_iter().find(|t| t.transaction_id == id).unwrap().status
}

#[test]
fn test_init_contract() {
    let contract = HurdlePayment::new(s("alice"));
    assert_eq!(contract.owner_id, s("alice"));
}

#[test]
fn test_register_new_account() {
    let mut contract = HurdlePayment::new(s("alice"));
    contract.register_new_account(s("alice"), 0).unwrap();
    assert_eq!(contract.get_account_info(s("alice")).unwrap().total_revenue, 0);
}

#[test]
fn test_send_to_contract() {
    let today: u64 = 0;
    let mut contract = HurdlePayment::new(s("alice"));
    contract.register_new_account(s("bob"), today).unwrap();
    contract
        .send_to_contract(s("alice"), s("bob"), to_yocto(1.0), 0, s("1"), s("1"), today)
        .unwrap();
    let account_info = contract.get_account_info(s("bob")).unwrap();
    assert_eq!(account_info.total_revenue, 999999999999999983222784);
    assert_eq!(account_info.locked_balance, 999999999999999983222784);
    assert_eq!(account_info.last_unlock_at, today);
    contract
        .send_to_contract(s("alice"), s("bob"), to_yocto(1.0), 0, s("1"), s("2"), today)
        .unwrap();
    let account_info = contract.get_account_info(s("bob")).unwrap();
    assert_eq!(account_info.total_revenue, 999999999999999983222784 * 2);
    assert_eq!(account_info.locked_balance, 999999999999999983222784 * 2);
}

#[test]
fn test_unlock_balance() {
    let today: u64 = 0;
    let mut contract = HurdlePayment::new(s("alice"));
    contract.register_new_account(s("bob"), today).unwrap();
    contract
        .send_to_contract(s("alice"), s("bob"), to_yocto(1.0), 0, s("1"), s("1"), today)
        .unwrap();
    let locked_amount = contract.get_account_info(s("bob")).unwrap().locked_balance;
    contract.claim_for_withdraw(s("bob"), today, today).unwrap();
    let info = contract.get_account_info(s("bob")).unwrap();
    assert_eq!(info.unlocked_balance, locked_amount);
    assert_eq!(info.locked_balance, 0);
    assert_eq!(info.total_revenue, locked_amount);

    let paid = contract.withdraw_unlocked_balance(s("bob"), to_yocto(1.0)).unwrap();
    assert_eq!(paid.receiver_id, s("bob"));
    assert_eq!(paid.amount, locked_amount);
    let info = contract.get_account_info(s("bob")).unwrap();
    assert_eq!(info.unlocked_balance, 0);
    assert_eq!(info.total_revenue, locked_amount);
}

#[test]
fn lock_records_transaction_in_its_bucket() {
    let mut p = ledger_with("R", 10);
    p.send_to_contract(s("S"), s("R"), 100, 2, s("c"), s("t1"), 10).unwrap();
    let txs = p.get_transactions_info(s("R"), 10, 10).unwrap();
    assert_eq!(txs.len(), 1);
    let t = &txs[0];
    assert_eq!(t.transaction_id, "t1");
    assert_eq!(t.sender_id, "S");
    assert_eq!(t.receiver_id, "R");
    assert_eq!(t.campaign_id, "c");
    assert_eq!(t.locked_balance, 100);
    assert_eq!(t.created_at, 10);
    assert_eq!(t.claimable_at, 12);
    assert_eq!(t.status, "LOCK");
    assert_eq!(p.get_account_info(s("R")).unwrap().locked_balance, 100);
}

#[test]
fn sweep_claims_when_hold_elapsed() {
    let mut p = ledger_with("R", 10);
    p.send_to_contract(s("S"), s("R"), 100, 2, s("c"), s("t1"), 10).unwrap();
    p.claim_for_withdraw(s("R"), 12, 12).unwrap();
    assert_eq!(status_of(&p, "R", 10, "t1"), "CLAIM");
    let info = p.get_account_info(s("R")).unwrap();
    assert_eq!(info.locked_balance, 0);
    assert_eq!(info.unlocked_balance, 100);
    assert_eq!(info.total_revenue, 100);
    assert_eq!(info.last_unlock_at, 12);
}

#[test]
fn refund_by_id_before_claimable() {
    let mut p = ledger_with("R", 10);
    p.send_to_contract(s("S"), s("R"), 70, 9, s("c"), s("t0"), 10).unwrap();
    p.send_to_contract(s("S"), s("R"), 50, 5, s("c"), s("t2"), 10).unwrap();
    let before = p.get_account_info(s("R")).unwrap();
    let paid = p.refund_to_sender(s("S"), s("R"), s("t2"), 10, 11).unwrap().unwrap();
    assert_eq!(paid.receiver_id, "S");
    assert_eq!(paid.amount, 50);
    assert_eq!(status_of(&p, "R", 10, "t2"), "REFUND");
    let after = p.get_account_info(s("R")).unwrap();
    assert_eq!(after.locked_balance, before.locked_balance - 50);
    assert_eq!(after.total_revenue, before.total_revenue - 50);
}

#[test]
fn duplicate_id_in_same_bucket_is_refused() {
    let mut p = ledger_with("R", 10);
    p.send_to_contract(s("S"), s("R"), 100, 2, s("c"), s("t1"), 10).unwrap();
    let before = p.get_account_info(s("R")).unwrap();
    let r = p.send_to_contract(s("S"), s("R"), 30, 4, s("c"), s("t1"), 10);
    assert_eq!(r, Err(LedgerError::DuplicateTransactionId));
    let after = p.get_account_info(s("R")).unwrap();
    assert_eq!(after.locked_balance, before.locked_balance);
    assert_eq!(after.total_revenue, before.total_revenue);
    assert_eq!(after.unlocked_balance, before.unlocked_balance);
    assert_eq!(p.get_transactions_info(s("R"), 0, 100).unwrap().len(), 1);
    // The same id in another bucket is a different transaction.
    p.send_to_contract(s("S"), s("R"), 30, 4, s("c"), s("t1"), 11).unwrap();
    assert_eq!(p.get_account_info(s("R")).unwrap().locked_balance, 130);
}

#[test]
fn claimable_bucket_is_inclusive() {
    let mut p = ledger_with("R", 10);
    p.send_to_contract(s("S"), s("R"), 40, 3, s("c"), s("a"), 10).unwrap();
    p.claim_for_withdraw(s("R"), 10, 12).unwrap();
    assert_eq!(status_of(&p, "R", 10, "a"), "LOCK");
    p.claim_for_withdraw(s("R"), 10, 13).unwrap();
    assert_eq!(status_of(&p, "R", 10, "a"), "CLAIM");
    // Once claimable, it can no longer be refunded.
    let mut q = ledger_with("R", 10);
    q.send_to_contract(s("S"), s("R"), 40, 3, s("c"), s("a"), 10).unwrap();
    assert!(q.refund_to_sender(s("S"), s("R"), s("a"), 10, 13).unwrap().is_none());
    assert_eq!(status_of(&q, "R", 10, "a"), "LOCK");
}

#[test]
fn sweep_twice_changes_nothing() {
    let mut p = ledger_with("R", 10);
    p.send_to_contract(s("S"), s("R"), 40, 1, s("c"), s("a"), 10).unwrap();
    p.send_to_contract(s("S"), s("R"), 60, 8, s("c"), s("b"), 11).unwrap();
    p.claim_for_withdraw(s("R"), 12, 12).unwrap();
    let first = p.get_account_info(s("R")).unwrap();
    p.claim_for_withdraw(s("R"), 12, 12).unwrap();
    let second = p.get_account_info(s("R")).unwrap();
    assert_eq!(first.locked_balance, 60);
    assert_eq!(first.unlocked_balance, 40);
    assert_eq!(second.locked_balance, first.locked_balance);
    assert_eq!(second.unlocked_balance, first.unlocked_balance);
    assert_eq!(second.total_revenue, first.total_revenue);
    assert_eq!(second.last_unlock_at, first.last_unlock_at);
}

#[test]
fn lock_then_refund_restores_balances() {
    let mut p = ledger_with("R", 5);
    p.send_to_contract(s("S"), s("R"), 25, 3, s("c"), s("x"), 5).unwrap();
    let before = p.get_account_info(s("R")).unwrap();
    p.send_to_contract(s("S"), s("R"), 77, 4, s("c"), s("y"), 5).unwrap();
    p.refund_to_sender(s("S"), s("R"), s("y"), 5, 5).unwrap().unwrap();
    let after = p.get_account_info(s("R")).unwrap();
    assert_eq!(after.locked_balance, before.locked_balance);
    assert_eq!(after.total_revenue, before.total_revenue);
}

#[test]
fn cursor_never_moves_back() {
    let mut p = ledger_with("R", 10);
    p.claim_for_withdraw(s("R"), 15, 15).unwrap();
    assert_eq!(p.get_account_info(s("R")).unwrap().last_unlock_at, 15);
    assert_eq!(p.claim_for_withdraw(s("R"), 14, 20), Err(LedgerError::InvalidCursor));
    assert_eq!(p.get_account_info(s("R")).unwrap().last_unlock_at, 15);
    p.claim_for_withdraw(s("R"), 15, 20).unwrap();
    assert_eq!(p.get_account_info(s("R")).unwrap().last_unlock_at, 15);
}

#[test]
fn locked_balance_is_sum_of_locked_transactions() {
    let mut p = ledger_with("R", 1);
    p.send_to_contract(s("S"), s("R"), 10, 1, s("c"), s("a"), 1).unwrap();
    p.send_to_contract(s("T"), s("R"), 20, 9, s("c"), s("b"), 1).unwrap();
    p.send_to_contract(s("S"), s("R"), 30, 9, s("c"), s("c"), 2).unwrap();
    p.claim_for_withdraw(s("R"), 2, 2).unwrap();
    p.refund_to_sender(s("T"), s("R"), s("b"), 1, 3).unwrap().unwrap();
    let txs = p.get_transactions_info(s("R"), 0, 10).unwrap();
    let locked: u128 = txs.iter().filter(|t| t.status == "LOCK").map(|t| t.locked_balance).sum();
    assert_eq!(locked, 30);
    assert_eq!(p.get_account_info(s("R")).unwrap().locked_balance, locked);
}

#[test]
fn sweep_only_covers_buckets_from_cursor() {
    let mut p = ledger_with("R", 10);
    p.send_to_contract(s("S"), s("R"), 5, 0, s("c"), s("a"), 10).unwrap();
    p.send_to_contract(s("S"), s("R"), 7, 0, s("c"), s("b"), 14).unwrap();
    p.claim_for_withdraw(s("R"), 12, 20).unwrap();
    assert_eq!(status_of(&p, "R", 10, "a"), "CLAIM");
    assert_eq!(status_of(&p, "R", 14, "b"), "LOCK");
    assert_eq!(p.get_account_info(s("R")).unwrap().unlocked_balance, 5);
}

#[test]
fn refund_by_id_misses_are_no_ops() {
    let mut p = ledger_with("R", 10);
    p.send_to_contract(s("S"), s("R"), 50, 5, s("c"), s("t"), 10).unwrap();
    assert!(p.refund_to_sender(s("S"), s("R"), s("t"), 9, 11).unwrap().is_none());
    assert!(p.refund_to_sender(s("S"), s("R"), s("u"), 10, 11).unwrap().is_none());
    p.refund_to_sender(s("S"), s("R"), s("t"), 10, 11).unwrap().unwrap();
    assert!(p.refund_to_sender(s("S"), s("R"), s("t"), 10, 11).unwrap().is_none());
    assert_eq!(p.get_account_info(s("R")).unwrap().locked_balance, 0);
}

#[test]
fn refund_by_window_pays_one_aggregate() {
    let mut p = ledger_with("R", 0);
    p.send_to_contract(s("S"), s("R"), 1, 1, s("c"), s("old"), 3).unwrap();
    p.send_to_contract(s("S"), s("R"), 10, 5, s("c"), s("a"), 6).unwrap();
    p.send_to_contract(s("S"), s("R"), 20, 5, s("c"), s("b"), 8).unwrap();
    p.send_to_contract(s("T"), s("R"), 40, 5, s("c"), s("c"), 8).unwrap();
    p.send_to_contract(s("S"), s("R"), 80, 1, s("c"), s("d"), 9).unwrap();
    // window: buckets 6..=10 for a hold period of 2
    let paid = p.refund_by_window(s("S"), s("R"), 2, 10).unwrap().unwrap();
    assert_eq!(paid.receiver_id, "S");
    assert_eq!(paid.amount, 30);
    assert_eq!(status_of(&p, "R", 6, "a"), "REFUND");
    assert_eq!(status_of(&p, "R", 8, "b"), "REFUND");
    assert_eq!(status_of(&p, "R", 8, "c"), "LOCK");
    assert_eq!(status_of(&p, "R", 9, "d"), "LOCK");
    assert_eq!(status_of(&p, "R", 3, "old"), "LOCK");
    let info = p.get_account_info(s("R")).unwrap();
    assert_eq!(info.locked_balance, 121);
    assert_eq!(info.total_revenue, 121);
    assert!(p.refund_by_window(s("S"), s("R"), 2, 10).unwrap().is_none());
}

#[test]
fn refund_by_window_start_saturates() {
    let mut p = ledger_with("R", 0);
    p.send_to_contract(s("S"), s("R"), 9, 100, s("c"), s("a"), 0).unwrap();
    let paid = p.refund_by_window(s("S"), s("R"), 50, 1).unwrap().unwrap();
    assert_eq!(paid.amount, 9);
}

#[test]
fn errors_for_unknown_accounts() {
    let mut p = HurdlePayment::new(s("owner"));
    assert_eq!(
        p.send_to_contract(s("S"), s("R"), 1, 1, s("c"), s("t"), 0),
        Err(LedgerError::AccountNotFound)
    );
    assert_eq!(p.claim_for_withdraw(s("R"), 1, 1), Err(LedgerError::AccountNotFound));
    assert!(matches!(
        p.refund_to_sender(s("S"), s("R"), s("t"), 0, 0),
        Err(LedgerError::AccountNotFound)
    ));
    assert!(matches!(p.refund_by_window(s("S"), s("R"), 1, 1), Err(LedgerError::AccountNotFound)));
    assert!(matches!(p.withdraw_unlocked_balance(s("R"), 1), Err(LedgerError::AccountNotFound)));
    assert!(matches!(p.get_account_info(s("R")), Err(LedgerError::AccountNotFound)));
    assert!(matches!(p.get_transactions_info(s("R"), 0, 1), Err(LedgerError::AccountNotFound)));
}

#[test]
fn register_twice_is_refused() {
    let mut p = ledger_with("R", 3);
    assert_eq!(p.register_new_account(s("R"), 9), Err(LedgerError::AlreadyRegistered));
    assert_eq!(p.get_account_info(s("R")).unwrap().last_unlock_at, 3);
}

#[test]
fn zero_amount_is_refused() {
    let mut p = ledger_with("R", 3);
    assert_eq!(
        p.send_to_contract(s("S"), s("R"), 0, 1, s("c"), s("t"), 3),
        Err(LedgerError::InvalidAmount)
    );
}

#[test]
fn overflow_is_refused() {
    let mut p = ledger_with("R", 3);
    assert_eq!(
        p.send_to_contract(s("S"), s("R"), 1, u64::MAX, s("c"), s("t"), 3),
        Err(LedgerError::ArithmeticOverflow)
    );
    p.send_to_contract(s("S"), s("R"), u128::MAX, 1, s("c"), s("a"), 3).unwrap();
    assert_eq!(
        p.send_to_contract(s("S"), s("R"), 1, 1, s("c"), s("b"), 3),
        Err(LedgerError::ArithmeticOverflow)
    );
    assert_eq!(p.get_account_info(s("R")).unwrap().locked_balance, u128::MAX);
}

#[test]
fn withdraw_more_than_unlocked_is_refused() {
    let mut p = ledger_with("R", 0);
    p.send_to_contract(s("S"), s("R"), 10, 0, s("c"), s("t"), 0).unwrap();
    assert!(matches!(
        p.withdraw_unlocked_balance(s("R"), 1),
        Err(LedgerError::InsufficientBalance)
    ));
    p.claim_for_withdraw(s("R"), 0, 0).unwrap();
    assert!(matches!(
        p.withdraw_unlocked_balance(s("R"), 11),
        Err(LedgerError::InsufficientBalance)
    ));
    let paid = p.withdraw_unlocked_balance(s("R"), 4).unwrap();
    assert_eq!(paid.amount, 4);
    assert_eq!(p.get_account_info(s("R")).unwrap().unlocked_balance, 6);
}

#[test]
fn transactions_listed_by_bucket_range() {
    let mut p = ledger_with("R", 0);
    p.send_to_contract(s("S"), s("R"), 1, 1, s("c"), s("a"), 1).unwrap();
    p.send_to_contract(s("S"), s("R"), 2, 1, s("c"), s("b"), 2).unwrap();
    p.send_to_contract(s("S"), s("R"), 3, 1, s("c"), s("c"), 2).unwrap();
    p.send_to_contract(s("S"), s("R"), 4, 1, s("c"), s("d"), 3).unwrap();
    let ids: Vec<String> = p
        .get_transactions_info(s("R"), 2, 3)
        .unwrap()
        .into_iter()
        .map(|t| t.transaction_id)
        .collect();
    assert_eq!(ids, vec![s("b"), s("c"), s("d")]);
    assert!(p.get_transactions_info(s("R"), 5, 9).unwrap().is_empty());
}

#[test]
fn views_copy_every_field() {
    let account = Account {
        unlocked_balance: 1,
        locked_balance: 2,
        total_revenue: 3,
        transactions: Vec::new(),
        last_unlock_at: 4,
    };
    let v = AccountJson::from(s("bob"), account);
    assert_eq!(v.account_id, "bob");
    assert_eq!((v.unlocked_balance, v.locked_balance, v.total_revenue, v.last_unlock_at), (1, 2, 3, 4));

    let t = TransferTransaction {
        sender_id: s("S"),
        receiver_id: s("R"),
        campaign_id: s("camp"),
        locked_balance: 9,
        created_at: 5,
        claimable_at: 8,
        status: TxStatus::Refund,
    };
    let v = TransferTransactionJson::from(s("id"), t);
    assert_eq!(v.transaction_id, "id");
    assert_eq!(v.campaign_id, "camp");
    assert_eq!((v.locked_balance, v.created_at, v.claimable_at), (9, 5, 8));
    assert_eq!(v.status, "REFUND");
    assert_eq!(TxStatus::Claim.to_label(), "CLAIM");
    assert_eq!(TxStatus::Lock.to_label(), "LOCK");
}

#[test]
fn older_bucket_is_placed_in_order() {
    let mut p = ledger_with("R", 0);
    p.send_to_contract(s("S"), s("R"), 1, 1, s("c"), s("late"), 10).unwrap();
    p.send_to_contract(s("S"), s("R"), 2, 1, s("c"), s("early"), 5).unwrap();
    p.send_to_contract(s("S"), s("R"), 4, 1, s("c"), s("mid"), 7).unwrap();
    let ids: Vec<String> = p
        .get_transactions_info(s("R"), 0, 20)
        .unwrap()
        .into_iter()
        .map(|t| t.transaction_id)
        .collect();
    assert_eq!(ids, vec![s("early"), s("mid"), s("late")]);
    p.claim_for_withdraw(s("R"), 7, 20).unwrap();
    let info = p.get_account_info(s("R")).unwrap();
    assert_eq!(info.unlocked_balance, 6);
    assert_eq!(info.locked_balance, 1);
}

#[test]
fn refund_by_id_pays_the_given_sender() {
    let mut p = ledger_with("R", 10);
    p.send_to_contract(s("S"), s("R"), 50, 5, s("c"), s("t"), 10).unwrap();
    let paid = p.refund_to_sender(s("X"), s("R"), s("t"), 10, 11).unwrap().unwrap();
    assert_eq!(paid.receiver_id, "X");
    assert_eq!(paid.amount, 50);
    assert_eq!(status_of(&p, "R", 10, "t"), "REFUND");
    let info = p.get_account_info(s("R")).unwrap();
    assert_eq!(info.locked_balance, 0);
    assert_eq!(info.total_revenue, 0);
}

fn stored_entry(id: &str, receiver: &str, amount: u128, at: u64, status: TxStatus) -> Entry {
    Entry {
        transaction_id: s(id),
        transaction: TransferTransaction {
            sender_id: s("S"),
            receiver_id: s(receiver),
            campaign_id: s("c"),
            locked_balance: amount,
            created_at: at,
            claimable_at: at + 1,
            status,
        },
    }
}

fn stored_account(buckets: Vec<Bucket>, locked: u128, unlocked: u128, total: u128) -> Account {
    Account {
        unlocked_balance: unlocked,
        locked_balance: locked,
        total_revenue: total,
        transactions: buckets,
        last_unlock_at: 0,
    }
}

#[test]
fn well_formed_after_operations() {
    let mut p = ledger_with("R", 0);
    assert!(p.is_well_formed());
    p.send_to_contract(s("S"), s("R"), 5, 1, s("c"), s("a"), 1).unwrap();
    p.send_to_contract(s("S"), s("R"), 7, 9, s("c"), s("b"), 2).unwrap();
    p.claim_for_withdraw(s("R"), 2, 2).unwrap();
    p.refund_to_sender(s("S"), s("R"), s("b"), 2, 3).unwrap().unwrap();
    assert!(p.is_well_formed());
}

#[test]
fn tampered_ledgers_are_not_well_formed() {
    let bucket = |at: u64, id: &str| Bucket {
        epoch: at,
        entries: vec![stored_entry(id, "R", 5, at, TxStatus::Lock)],
    };
    let ledger = |accounts: Vec<AccountRecord>| HurdlePayment { owner_id: s("o"), accounts };
    let record = |id: &str, account: Account| AccountRecord { account_id: s(id), account };

    let good = ledger(vec![record("R", stored_account(vec![bucket(1, "a"), bucket(2, "b")], 10, 0, 10))]);
    assert!(good.is_well_formed());

    let wrong_locked = ledger(vec![record("R", stored_account(vec![bucket(1, "a")], 4, 0, 5))]);
    assert!(!wrong_locked.is_well_formed());

    let unsorted = ledger(vec![record("R", stored_account(vec![bucket(2, "a"), bucket(1, "b")], 10, 0, 10))]);
    assert!(!unsorted.is_well_formed());

    let twin_ids = Bucket {
        epoch: 1,
        entries: vec![
            stored_entry("a", "R", 5, 1, TxStatus::Lock),
            stored_entry("a", "R", 5, 1, TxStatus::Lock),
        ],
    };
    assert!(!ledger(vec![record("R", stored_account(vec![twin_ids], 10, 0, 10))]).is_well_formed());

    let foreign = ledger(vec![record("Q", stored_account(vec![bucket(1, "a")], 5, 0, 5))]);
    assert!(!foreign.is_well_formed());

    let too_much_unlocked = ledger(vec![record("R", stored_account(vec![bucket(1, "a")], 5, 1, 5))]);
    assert!(!too_much_unlocked.is_well_formed());

    let twice = ledger(vec![
        record("R", stored_account(Vec::new(), 0, 0, 0)),
        record("R", stored_account(Vec::new(), 0, 0, 0)),
    ]);
    assert!(!twice.is_well_formed());
}
