//! The normalized transaction record fed into the ledger.

use vstd::prelude::*;

verus! {

/// The five kinds of transaction the ledger understands.
///
/// `Deposit` and `Withdrawal` carry an amount of their own; the three
/// dispute-family kinds carry none and instead reference a prior deposit or
/// withdrawal through the record's transaction id.
#[derive(Clone, Copy, Debug, PartialEq, Eq, Structural)]
pub enum TransactionType {
    Dispute,
    Deposit,
    Withdrawal,
    Resolve,
    Chargeback,
}

/// One normalized transaction record.
///
/// For `Deposit` and `Withdrawal` the amount is present and is a nonnegative
/// fixed-point number of money ticks; for the dispute-family kinds
/// `transaction_id` names the referenced transaction and `amount` is ignored.
#[derive(Clone, Copy, Debug)]
pub struct Transaction {
    pub tx_type: TransactionType,
    pub client_id: u16,
    pub transaction_id: u32,
    pub amount: Option<i64>,
}

/// Well-formedness of a single record, as the input adapter guarantees it:
/// a deposit or withdrawal carries a present, nonnegative amount.
pub open spec fn tx_wf(t: Transaction) -> bool {
    (t.tx_type == TransactionType::Deposit || t.tx_type == TransactionType::Withdrawal) ==> (
        t.amount is Some && t.amount->0 >= 0
    )
}

} // verus!
