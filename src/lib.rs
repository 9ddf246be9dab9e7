//! A time-locked escrow ledger. Funds locked for a receiver become claimable
//! after a hold period; until then the sender may take them back. Every
//! operation takes the current time bucket explicitly and returns the payments
//! it decides on instead of making them.
use vstd::prelude::*;

pub mod account;
pub mod laws;
pub mod payment;
pub mod transfer_transaction;
pub mod tx_log;

pub use account::{Account, AccountJson, AccountModel};
pub use payment::{AccountRecord, HurdlePayment, LedgerError, Transfer, REFUND_WINDOW_FACTOR};
pub use transfer_transaction::{TransferTransaction, TransferTransactionJson, TxStatus};
pub use tx_log::{Bucket, Entry};

verus! {

} // verus!
