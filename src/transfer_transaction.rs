use vstd::prelude::*;

verus! {

/// Where a transaction stands: it starts locked and moves exactly once, to
/// claimed or to refunded.
#[derive(Clone, Copy, Debug, PartialEq, Eq, Structural)]
pub enum TxStatus {
    Lock,
    Claim,
    Refund,
}

impl TxStatus {
    /// The label a status carries in the transaction views.
    pub open spec fn label(self) -> Seq<char> {
        match self {
            TxStatus::Lock => "LOCK"@,
            TxStatus::Claim => "CLAIM"@,
            TxStatus::Refund => "REFUND"@,
        }
    }

    pub fn to_label(&self) -> (r: String)
        ensures
            r@ == self.label(),
    {
        match self {
            TxStatus::Lock => {
                proof {
                    reveal_strlit("LOCK");
                }
                "LOCK".to_owned()
            },
            TxStatus::Claim => {
                proof {
                    reveal_strlit("CLAIM");
                }
                "CLAIM".to_owned()
            },
            TxStatus::Refund => {
                proof {
                    reveal_strlit("REFUND");
                }
                "REFUND".to_owned()
            },
        }
    }
}

/// One lock of funds from a sender in favour of a receiver.
pub struct TransferTransaction {
    pub sender_id: String,
    pub receiver_id: String,
    pub campaign_id: String,
    pub locked_balance: u128,
    pub created_at: u64,
    pub claimable_at: u64,
    pub status: TxStatus,
}

/// Mathematical picture of a transaction together with its id.
pub struct TxModel {
    pub id: Seq<char>,
    pub sender: Seq<char>,
    pub receiver: Seq<char>,
    pub campaign: Seq<char>,
    pub amount: u128,
    pub created_at: u64,
    pub claimable_at: u64,
    pub status: TxStatus,
}

impl TransferTransaction {
    pub open spec fn model(&self, id: Seq<char>) -> TxModel {
        TxModel {
            id,
            sender: self.sender_id@,
            receiver: self.receiver_id@,
            campaign: self.campaign_id@,
            amount: self.locked_balance,
            created_at: self.created_at,
            claimable_at: self.claimable_at,
            status: self.status,
        }
    }
}

/// Read-only view of a transaction, as handed out to callers.
pub struct TransferTransactionJson {
    pub transaction_id: String,
    pub sender_id: String,
    pub receiver_id: String,
    pub campaign_id: String,
    pub locked_balance: u128,
    pub created_at: u64,
    pub claimable_at: u64,
    pub status: String,
}

impl TransferTransactionJson {
    /// Whether this view shows exactly the transaction `t`.
    pub open spec fn shows(&self, t: TxModel) -> bool {
        &&& self.transaction_id@ == t.id
        &&& self.sender_id@ == t.sender
        &&& self.receiver_id@ == t.receiver
        &&& self.campaign_id@ == t.campaign
        &&& self.locked_balance == t.amount
        &&& self.created_at == t.created_at
        &&& self.claimable_at == t.claimable_at
        &&& self.status@ == t.status.label()
    }

    pub fn from(transaction_id: String, transaction: TransferTransaction) -> (r: Self)
        ensures
            r.shows(transaction.model(transaction_id@)),
    {
        let status = transaction.status.to_label();
        TransferTransactionJson {
            transaction_id,
            sender_id: transaction.sender_id,
            receiver_id: transaction.receiver_id,
            campaign_id: transaction.campaign_id,
            locked_balance: transaction.locked_balance,
            created_at: transaction.created_at,
            claimable_at: transaction.claimable_at,
            status,
        }
    }
}

} // verus!
