//! Proved laws of the ledger: properties of the replay state machine and of
//! the recording of transactions that hold for all inputs, stated over the
//! specification model that the executable functions are proved against.

use vstd::prelude::*;

use crate::balance::{
    disputed_deposit_amount, find_fundable, initial_state, lemma_disputed_amount_nonneg, replay,
    replay_prefix, step, total_at, ReplayState,
};
use crate::ledger::{client_history, spec_record};
use crate::transaction::{Transaction, TransactionType, tx_wf};

verus! {

/// A deposit record, as the adapter would hand it to the ledger.
pub open spec fn deposit_tx(client: u16, id: u32, amount: i64) -> Transaction {
    Transaction {
        tx_type: TransactionType::Deposit,
        client_id: client,
        transaction_id: id,
        amount: Some(amount),
    }
}

/// A dispute record referencing the transaction `id`.
pub open spec fn dispute_tx(client: u16, id: u32) -> Transaction {
    Transaction {
        tx_type: TransactionType::Dispute,
        client_id: client,
        transaction_id: id,
        amount: None,
    }
}

/// A resolve record referencing the transaction `id`.
pub open spec fn resolve_tx(client: u16, id: u32) -> Transaction {
    Transaction {
        tx_type: TransactionType::Resolve,
        client_id: client,
        transaction_id: id,
        amount: None,
    }
}

/// A chargeback record referencing the transaction `id`.
pub open spec fn chargeback_tx(client: u16, id: u32) -> Transaction {
    Transaction {
        tx_type: TransactionType::Chargeback,
        client_id: client,
        transaction_id: id,
        amount: None,
    }
}

/// Law: after every prefix of a history, the derived total is exactly
/// `available + held` of the running state reached there. The replay carries
/// no separate total accumulator that could drift from the two parts.
pub proof fn lemma_total_is_available_plus_held(history: Seq<Transaction>, n: int)
    requires
        0 <= n <= history.len(),
    ensures
        total_at(history, n) == replay_prefix(history, n).available + replay_prefix(
            history,
            n,
        ).held,
{
}

/// Law: a dispute or a resolve only moves funds between `available` and
/// `held`: whatever the history and the running state, the derived total is
/// unchanged by the step.
pub proof fn lemma_dispute_and_resolve_preserve_total(
    history: Seq<Transaction>,
    st: ReplayState,
    t: Transaction,
)
    requires
        t.tx_type == TransactionType::Dispute || t.tx_type == TransactionType::Resolve,
    ensures
        step(history, st, t).available + step(history, st, t).held == st.available + st.held,
{
}

/// Law: a withdrawal never drives `available` below zero, whatever the
/// history and the running state: one that would overdraw is a no-op.
pub proof fn lemma_withdrawal_never_overdraws(
    history: Seq<Transaction>,
    st: ReplayState,
    t: Transaction,
)
    requires
        st.available >= 0,
        t.tx_type == TransactionType::Withdrawal,
    ensures
        step(history, st, t).available >= 0,
{
}

/// Law: in a well-formed history with no dispute records, `available` is
/// nonnegative after every prefix. (A dispute moves already-withdrawn funds
/// into `held` and can drive `available` negative; nothing else can.)
pub proof fn lemma_available_nonnegative(history: Seq<Transaction>, n: int)
    requires
        0 <= n <= history.len(),
        forall|i: int| 0 <= i < history.len() ==> tx_wf(#[trigger] history[i]),
        forall|i: int|
            0 <= i < history.len() ==> (#[trigger] history[i]).tx_type
                != TransactionType::Dispute,
    ensures
        replay_prefix(history, n).available >= 0,
    decreases n,
{
    if n > 0 {
        lemma_available_nonnegative(history, n - 1);
        let t = history[n - 1];
        assert(tx_wf(t));
        if disputed_deposit_amount(history, t.transaction_id) is Some {
            lemma_disputed_amount_nonneg(history, t.transaction_id);
        }
    }
}

/// Law: depositing `x` and then disputing that deposit holds the full amount:
/// `available` drops to zero, `held` carries `x`, the total is unchanged at
/// `x`, and the account is not locked.
pub proof fn lemma_deposit_then_dispute(client: u16, id: u32, x: i64)
    requires
        x >= 0,
    ensures
        ({
            let h = seq![deposit_tx(client, id, x), dispute_tx(client, id)];
            &&& replay(h).available == 0
            &&& replay(h).held == x
            &&& total_at(h, 2) == x
            &&& !replay(h).locked
        }),
{
    let h = seq![deposit_tx(client, id, x), dispute_tx(client, id)];
    assert(find_fundable(h, id) == Some(h[0]));
    assert(replay_prefix(h, 0) == initial_state());
    assert(replay_prefix(h, 1) == step(h, replay_prefix(h, 0), h[0]));
    assert(replay_prefix(h, 2) == step(h, replay_prefix(h, 1), h[1]));
}

/// Law: disputing and then resolving the same deposit restores `available`
/// and zeroes `held` back to their pre-dispute values, with the total
/// unchanged at `x` throughout.
pub proof fn lemma_dispute_then_resolve(client: u16, id: u32, x: i64)
    requires
        x >= 0,
    ensures
        ({
            let h = seq![deposit_tx(client, id, x), dispute_tx(client, id), resolve_tx(client, id)];
            &&& replay_prefix(h, 1).available == x && replay_prefix(h, 1).held == 0
            &&& replay_prefix(h, 2).available == 0 && replay_prefix(h, 2).held == x
            &&& replay(h).available == x && replay(h).held == 0
            &&& total_at(h, 1) == x && total_at(h, 2) == x && total_at(h, 3) == x
            &&& !replay(h).locked
        }),
{
    let h = seq![deposit_tx(client, id, x), dispute_tx(client, id), resolve_tx(client, id)];
    assert(find_fundable(h, id) == Some(h[0]));
    assert(replay_prefix(h, 0) == initial_state());
    assert(replay_prefix(h, 1) == step(h, replay_prefix(h, 0), h[0]));
    assert(replay_prefix(h, 2) == step(h, replay_prefix(h, 1), h[1]));
    assert(replay_prefix(h, 3) == step(h, replay_prefix(h, 2), h[2]));
}

/// Law: disputing and then charging back the same deposit reduces the total
/// by the disputed amount, returns `held` to zero, and locks the account.
pub proof fn lemma_dispute_then_chargeback(client: u16, id: u32, x: i64)
    requires
        x >= 0,
    ensures
        ({
            let h = seq![
                deposit_tx(client, id, x),
                dispute_tx(client, id),
                chargeback_tx(client, id),
            ];
            &&& replay(h).held == 0
            &&& replay(h).available == 0
            &&& replay(h).locked
            &&& total_at(h, 2) == x
            &&& total_at(h, 3) == total_at(h, 2) - x
        }),
{
    let h = seq![deposit_tx(client, id, x), dispute_tx(client, id), chargeback_tx(client, id)];
    assert(find_fundable(h, id) == Some(h[0]));
    assert(replay_prefix(h, 0) == initial_state());
    assert(replay_prefix(h, 1) == step(h, replay_prefix(h, 0), h[0]));
    assert(replay_prefix(h, 2) == step(h, replay_prefix(h, 1), h[1]));
    assert(replay_prefix(h, 3) == step(h, replay_prefix(h, 2), h[2]));
}

/// The map of histories after recording a whole stream of transactions in
/// arrival order, starting from `m`.
pub open spec fn spec_record_all(m: Map<u16, Seq<Transaction>>, ts: Seq<Transaction>) -> Map<
    u16,
    Seq<Transaction>,
>
    decreases ts.len(),
{
    if ts.len() == 0 {
        m
    } else {
        spec_record(spec_record_all(m, ts.drop_last()), ts.last())
    }
}

/// The predicate selecting one client's records out of a mixed stream.
pub open spec fn for_client(c: u16) -> spec_fn(Transaction) -> bool {
    |t: Transaction| t.client_id == c
}

/// Recording a stream appends, to each client's prior history, exactly that
/// client's subsequence of the stream, in order.
pub proof fn lemma_record_all_filters(m: Map<u16, Seq<Transaction>>, ts: Seq<Transaction>, c: u16)
    ensures
        client_history(spec_record_all(m, ts), c) == client_history(m, c) + ts.filter(
            for_client(c),
        ),
    decreases ts.len(),
{
    reveal(Seq::filter);
    if ts.len() == 0 {
        assert(client_history(m, c) + ts.filter(for_client(c)) =~= client_history(m, c));
    } else {
        let prior = ts.drop_last();
        let last = ts.last();
        lemma_record_all_filters(m, prior, c);
        let rec = spec_record_all(m, prior);
        if last.client_id == c {
            assert(client_history(spec_record(rec, last), c) == client_history(rec, c).push(last));
            assert(client_history(m, c) + ts.filter(for_client(c)) =~= (client_history(m, c)
                + prior.filter(for_client(c))).push(last));
        } else {
            assert(client_history(spec_record(rec, last), c) == client_history(rec, c));
            assert(ts.filter(for_client(c)) == prior.filter(for_client(c)));
        }
    }
}

/// Law (client isolation, first half): starting from an empty ledger, the
/// history recorded for a client is exactly that client's subsequence of the
/// input stream.
pub proof fn lemma_client_history_is_own_subsequence(ts: Seq<Transaction>, c: u16)
    ensures
        client_history(spec_record_all(Map::empty(), ts), c) == ts.filter(for_client(c)),
{
    lemma_record_all_filters(Map::empty(), ts, c);
    assert(client_history(Map::<u16, Seq<Transaction>>::empty(), c) + ts.filter(for_client(c))
        =~= ts.filter(for_client(c)));
}

/// A stream already restricted to one predicate is unchanged by filtering
/// with it again.
proof fn lemma_filter_idempotent(ts: Seq<Transaction>, pred: spec_fn(Transaction) -> bool)
    ensures
        ts.filter(pred).filter(pred) == ts.filter(pred),
    decreases ts.len(),
{
    reveal(Seq::filter);
    if ts.len() == 0 {
    } else {
        lemma_filter_idempotent(ts.drop_last(), pred);
        if pred(ts.last()) {
            let f = ts.drop_last().filter(pred).push(ts.last());
            assert(f.drop_last() =~= ts.drop_last().filter(pred));
            assert(f.filter(pred) =~= f);
        }
    }
}

/// Law (client isolation): distinct clients never influence each other's
/// balances. Recording a mixed stream and recording only one client's
/// subsequence leave that client with the same history, and replaying it
/// therefore yields the same closing state.
pub proof fn lemma_clients_independent(ts: Seq<Transaction>, c: u16)
    ensures
        client_history(spec_record_all(Map::empty(), ts), c) == client_history(
            spec_record_all(Map::empty(), ts.filter(for_client(c))),
            c,
        ),
        replay(client_history(spec_record_all(Map::empty(), ts), c)) == replay(
            client_history(spec_record_all(Map::empty(), ts.filter(for_client(c))), c),
        ),
{
    lemma_client_history_is_own_subsequence(ts, c);
    lemma_client_history_is_own_subsequence(ts.filter(for_client(c)), c);
    lemma_filter_idempotent(ts, for_client(c));
}

} // verus!
