//! The balance calculator: a mathematical model of replaying one client's
//! transaction history, and the closing-balance snapshot it produces.
//!
//! The replay folds the history in arrival order over a running state of
//! available funds, held funds and a locked flag. Dispute-family records
//! carry no amount of their own: the amount is recovered by looking up the
//! referenced deposit or withdrawal in the client's full history, so a claim
//! can never dispute an amount different from what was actually deposited.

use vstd::prelude::*;

use crate::transaction::{Transaction, TransactionType, tx_wf};

verus! {

/// The derived closing snapshot for one client.
///
/// `total` always equals `available + held`; `held` is money frozen by an
/// open dispute, and `locked` records that a chargeback was confirmed.
#[derive(Clone, Copy, Debug, PartialEq, Eq, Structural)]
pub struct ClosingBalance {
    pub client: u16,
    pub held: i64,
    pub available: i64,
    pub total: i64,
    pub locked: bool,
}

/// Failure of a balance computation.
///
/// Replay arithmetic is exact fixed-point integer arithmetic; a history whose
/// running balances leave the representable range is reported as an error
/// rather than wrapped.
#[derive(Clone, Copy, Debug, PartialEq, Eq, Structural)]
pub enum BalanceError {
    Overflow,
}

/// The running state of a replay: the only data carried from one
/// transaction to the next. `total` is derived, never stored.
pub struct ReplayState {
    pub available: int,
    pub held: int,
    pub locked: bool,
}

/// The state every replay starts from.
pub open spec fn initial_state() -> ReplayState {
    ReplayState { available: 0, held: 0, locked: false }
}

/// Whether a record can be the target of a dispute-family reference:
/// only deposits and withdrawals hold funds that a dispute can name.
pub open spec fn is_fundable(t: Transaction) -> bool {
    t.tx_type == TransactionType::Deposit || t.tx_type == TransactionType::Withdrawal
}

/// The first deposit or withdrawal in `history` whose id is `tx_id`,
/// or `None` when the reference resolves to nothing.
pub open spec fn find_fundable(history: Seq<Transaction>, tx_id: u32) -> Option<Transaction>
    decreases history.len(),
{
    if history.len() == 0 {
        None
    } else if is_fundable(history[0]) && history[0].transaction_id == tx_id {
        Some(history[0])
    } else {
        find_fundable(history.subrange(1, history.len() as int), tx_id)
    }
}

/// The amount a dispute-family record referencing `tx_id` acts on: the
/// amount of the referenced deposit, or `None` when the reference is
/// missing, names a withdrawal, or names a record without an amount.
pub open spec fn disputed_deposit_amount(history: Seq<Transaction>, tx_id: u32) -> Option<int> {
    match find_fundable(history, tx_id) {
        Some(t) => {
            if t.tx_type == TransactionType::Deposit && t.amount is Some {
                Some(t.amount->0 as int)
            } else {
                None
            }
        },
        None => None,
    }
}

/// The effect of one transaction on the running state.
///
/// Lookups for the dispute family run over the client's full `history`, not
/// only over the records already replayed. A withdrawal that would overdraw
/// `available`, and a dispute-family record whose reference does not resolve
/// to a deposit, are no-ops. A locked account is still processed: `locked`
/// only annotates the snapshot, it does not gate later transactions.
pub open spec fn step(history: Seq<Transaction>, st: ReplayState, t: Transaction) -> ReplayState {
    match t.tx_type {
        TransactionType::Deposit => {
            if t.amount is Some {
                ReplayState { available: st.available + t.amount->0, held: st.held, locked: st.locked }
            } else {
                st
            }
        },
        TransactionType::Withdrawal => {
            if t.amount is Some && t.amount->0 <= st.available {
                ReplayState { available: st.available - t.amount->0, held: st.held, locked: st.locked }
            } else {
                st
            }
        },
        TransactionType::Dispute => {
            match disputed_deposit_amount(history, t.transaction_id) {
                Some(a) => ReplayState {
                    available: st.available - a,
                    held: st.held + a,
                    locked: st.locked,
                },
                None => st,
            }
        },
        TransactionType::Resolve => {
            match disputed_deposit_amount(history, t.transaction_id) {
                Some(a) => ReplayState {
                    available: st.available + a,
                    held: st.held - a,
                    locked: st.locked,
                },
                None => st,
            }
        },
        TransactionType::Chargeback => {
            match disputed_deposit_amount(history, t.transaction_id) {
                Some(a) => ReplayState { available: st.available, held: st.held - a, locked: true },
                None => st,
            }
        },
    }
}

/// The running state after the first `n` transactions of `history`.
pub open spec fn replay_prefix(history: Seq<Transaction>, n: int) -> ReplayState
    decreases n,
{
    if n <= 0 {
        initial_state()
    } else {
        step(history, replay_prefix(history, n - 1), history[n - 1])
    }
}

/// The state after replaying the whole history.
pub open spec fn replay(history: Seq<Transaction>) -> ReplayState {
    replay_prefix(history, history.len() as int)
}

/// The derived total after the first `n` transactions.
pub open spec fn total_at(history: Seq<Transaction>, n: int) -> int {
    replay_prefix(history, n).available + replay_prefix(history, n).held
}

/// Whether a mathematical amount is representable as fixed-point money.
pub open spec fn fits_money(v: int) -> bool {
    i64::MIN <= v <= i64::MAX
}

/// Every running state over the first `n` transactions is representable.
pub open spec fn prefix_states_fit(history: Seq<Transaction>, n: int) -> bool {
    forall|k: int|
        0 <= k <= n ==> fits_money(#[trigger] replay_prefix(history, k).available)
            && fits_money(replay_prefix(history, k).held)
}

/// The whole replay stays representable: every running state fits, and so
/// does the final derived total. Exactly the histories for which the
/// calculator returns a snapshot instead of an overflow error.
pub open spec fn replay_fits(history: Seq<Transaction>) -> bool {
    &&& prefix_states_fit(history, history.len() as int)
    &&& fits_money(total_at(history, history.len() as int))
}

/// What a correct closing snapshot for `client` with history `history` holds.
pub open spec fn closing_balance_ok(b: ClosingBalance, client: u16, history: Seq<Transaction>) -> bool {
    &&& b.client == client
    &&& b.available == replay(history).available
    &&& b.held == replay(history).held
    &&& b.total == b.available + b.held
    &&& b.locked == replay(history).locked
}

/// A single unrepresentable running state refutes `prefix_states_fit` for
/// every horizon that reaches it.
pub proof fn lemma_unfit_state(history: Seq<Transaction>, n: int, k: int)
    requires
        0 <= k <= n,
        !fits_money(replay_prefix(history, k).available) || !fits_money(
            replay_prefix(history, k).held,
        ),
    ensures
        !prefix_states_fit(history, n),
{
}

/// A resolved dispute-family reference points at a record of the history:
/// `find_fundable` only ever returns an element of its argument.
pub proof fn lemma_find_fundable_in(history: Seq<Transaction>, tx_id: u32)
    requires
        find_fundable(history, tx_id) is Some,
    ensures
        history.contains(find_fundable(history, tx_id)->0),
        is_fundable(find_fundable(history, tx_id)->0),
        find_fundable(history, tx_id)->0.transaction_id == tx_id,
    decreases history.len(),
{
    if history.len() == 0 {
    } else if is_fundable(history[0]) && history[0].transaction_id == tx_id {
        assert(history.contains(history[0]));
    } else {
        let rest = history.subrange(1, history.len() as int);
        lemma_find_fundable_in(rest, tx_id);
        let t = find_fundable(rest, tx_id)->0;
        let i = choose|i: int| 0 <= i < rest.len() && rest[i] == t;
        assert(history[i + 1] == t);
    }
}

/// In a well-formed history the amount a dispute acts on is nonnegative.
pub proof fn lemma_disputed_amount_nonneg(history: Seq<Transaction>, tx_id: u32)
    requires
        forall|i: int| 0 <= i < history.len() ==> tx_wf(#[trigger] history[i]),
        disputed_deposit_amount(history, tx_id) is Some,
    ensures
        disputed_deposit_amount(history, tx_id)->0 >= 0,
{
    lemma_find_fundable_in(history, tx_id);
    let t = find_fundable(history, tx_id)->0;
    let i = choose|i: int| 0 <= i < history.len() && history[i] == t;
    assert(tx_wf(history[i]));
}

} // verus!
