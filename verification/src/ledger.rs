//! The ledger: per-client transaction histories, append-only recording, and
//! the executable balance calculator proved against the replay model.

use vstd::prelude::*;

use crate::balance::{
    BalanceError, ClosingBalance, closing_balance_ok, find_fundable, fits_money,
    lemma_disputed_amount_nonneg, lemma_unfit_state, prefix_states_fit, replay_fits,
    replay_prefix, step, total_at,
};
use crate::transaction::{Transaction, TransactionType, tx_wf};

verus! {

/// One client's account: its id and the ordered history of its transactions
/// (insertion order is arrival order, which dispute resolution depends on).
pub struct Account {
    pub id: u16,
    pub transactions: Vec<Transaction>,
}

impl Account {
    /// Every stored record is well formed and belongs to this client.
    pub open spec fn wf(self) -> bool {
        forall|i: int|
            0 <= i < self.transactions@.len() ==> tx_wf(#[trigger] self.transactions@[i])
                && self.transactions@[i].client_id == self.id
    }

    /// Appends one transaction to this account's history.
    pub fn add_transaction(&mut self, tx: Transaction)
        ensures
            final(self).id == old(self).id,
            final(self).transactions@ == old(self).transactions@.push(tx),
    {
        self.transactions.push(tx);
    }

    /// Looks up the deposit or withdrawal a dispute-family record refers to:
    /// the first record in this account's history with the given id that is
    /// itself a deposit or withdrawal.
    pub fn get_disputed_transaction(&self, tx_id: u32) -> (r: Option<Transaction>)
        ensures
            r == find_fundable(self.transactions@, tx_id),
    {
        let ghost h = self.transactions@;
        let n = self.transactions.len();
        let mut i: usize = 0;
        proof {
            assert(h.subrange(0, n as int) =~= h);
        }
        while i < n
            invariant
                n == h.len(),
                0 <= i <= n,
                h == self.transactions@,
                find_fundable(h, tx_id) == find_fundable(
                    h.subrange(i as int, n as int),
                    tx_id,
                ),
            decreases n - i,
        {
            let t = self.transactions[i];
            proof {
                let tail = h.subrange(i as int, n as int);
                assert(tail[0] == h[i as int]);
                assert(tail.subrange(1, tail.len() as int) =~= h.subrange(
                    i + 1 as int,
                    n as int,
                ));
            }
            if (matches!(t.tx_type, TransactionType::Deposit)
                || matches!(t.tx_type, TransactionType::Withdrawal))
                && t.transaction_id == tx_id {
                return Some(t);
            }
            i = i + 1;
        }
        proof {
            assert(h.subrange(n as int, n as int) =~= Seq::<Transaction>::empty());
        }
        None
    }

    /// Replays this account's full history in arrival order and derives the
    /// closing snapshot, or reports overflow of the fixed-point accumulators.
    ///
    /// Returns `Ok` exactly when every running balance along the replay, and
    /// the final derived total, are representable.
    pub fn closing_balance(&self) -> (r: Result<ClosingBalance, BalanceError>)
        requires
            self.wf(),
        ensures
            r is Ok <==> replay_fits(self.transactions@),
            r matches Ok(b) ==> closing_balance_ok(b, self.id, self.transactions@),
    {
        let ghost h = self.transactions@;
        let mut available: i64 = 0;
        let mut held: i64 = 0;
        let mut locked: bool = false;
        let n = self.transactions.len();
        let mut i: usize = 0;
        while i < n
            invariant
                self.wf(),
                h == self.transactions@,
                n == h.len(),
                0 <= i <= n,
                prefix_states_fit(h, i as int),
                available == replay_prefix(h, i as int).available,
                held == replay_prefix(h, i as int).held,
                locked == replay_prefix(h, i as int).locked,
            decreases n - i,
        {
            let t = self.transactions[i];
            let ghost st = replay_prefix(h, i as int);
            proof {
                assert(replay_prefix(h, i + 1) == step(h, st, h[i as int]));
                assert(tx_wf(h[i as int]));
            }
            match t.tx_type {
                TransactionType::Deposit => {
                    let amt = t.amount.unwrap();
                    if available <= i64::MAX - amt {
                        available = available + amt;
                    } else {
                        proof {
                            lemma_unfit_state(h, n as int, i + 1);
                        }
                        return Err(BalanceError::Overflow);
                    }
                },
                TransactionType::Withdrawal => {
                    let amt = t.amount.unwrap();
                    if amt <= available {
                        available = available - amt;
                    }
                },
                TransactionType::Dispute => {
                    let found = self.get_disputed_transaction(t.transaction_id);
                    match found {
                        Some(f) => {
                            if matches!(f.tx_type, TransactionType::Deposit) {
                                match f.amount {
                                    Some(a) => {
                                        proof {
                                            lemma_disputed_amount_nonneg(h, t.transaction_id);
                                        }
                                        if available >= i64::MIN + a && held <= i64::MAX - a {
                                            available = available - a;
                                            held = held + a;
                                        } else {
                                            proof {
                                                lemma_unfit_state(h, n as int, i + 1);
                                            }
                                            return Err(BalanceError::Overflow);
                                        }
                                    },
                                    None => {},
                                }
                            }
                        },
                        None => {},
                    }
                },
                TransactionType::Resolve => {
                    let found = self.get_disputed_transaction(t.transaction_id);
                    match found {
                        Some(f) => {
                            if matches!(f.tx_type, TransactionType::Deposit) {
                                match f.amount {
                                    Some(a) => {
                                        proof {
                                            lemma_disputed_amount_nonneg(h, t.transaction_id);
                                        }
                                        if available <= i64::MAX - a && held >= i64::MIN + a {
                                            available = available + a;
                                            held = held - a;
                                        } else {
                                            proof {
                                                lemma_unfit_state(h, n as int, i + 1);
                                            }
                                            return Err(BalanceError::Overflow);
                                        }
                                    },
                                    None => {},
                                }
                            }
                        },
                        None => {},
                    }
                },
                TransactionType::Chargeback => {
                    let found = self.get_disputed_transaction(t.transaction_id);
                    match found {
                        Some(f) => {
                            if matches!(f.tx_type, TransactionType::Deposit) {
                                match f.amount {
                                    Some(a) => {
                                        proof {
                                            lemma_disputed_amount_nonneg(h, t.transaction_id);
                                        }
                                        if held >= i64::MIN + a {
                                            held = held - a;
                                            locked = true;
                                        } else {
                                            proof {
                                                lemma_unfit_state(h, n as int, i + 1);
                                            }
                                            return Err(BalanceError::Overflow);
                                        }
                                    },
                                    None => {},
                                }
                            }
                        },
                        None => {},
                    }
                },
            }
            i = i + 1;
        }
        let fits_total = if held >= 0 {
            available <= i64::MAX - held
        } else {
            available >= i64::MIN - held
        };
        if fits_total {
            Ok(
                ClosingBalance {
                    client: self.id,
                    held,
                    available,
                    total: available + held,
                    locked,
                },
            )
        } else {
            proof {
                assert(!fits_money(total_at(h, n as int)));
            }
            Err(BalanceError::Overflow)
        }
    }
}

/// The histories a sequence of accounts represents: a map from client id to
/// that client's ordered transaction history.
pub open spec fn histories_of(s: Seq<Account>) -> Map<u16, Seq<Transaction>>
    decreases s.len(),
{
    if s.len() == 0 {
        Map::empty()
    } else {
        histories_of(s.drop_last()).insert(s.last().id, s.last().transactions@)
    }
}

/// The history a map of histories holds for `c`: empty when `c` is unknown.
pub open spec fn client_history(m: Map<u16, Seq<Transaction>>, c: u16) -> Seq<Transaction> {
    if m.contains_key(c) {
        m[c]
    } else {
        Seq::empty()
    }
}

/// The effect of recording one transaction on a map of histories: it is
/// appended to its client's history, creating the client when absent.
pub open spec fn spec_record(m: Map<u16, Seq<Transaction>>, t: Transaction) -> Map<
    u16,
    Seq<Transaction>,
> {
    m.insert(t.client_id, client_history(m, t.client_id).push(t))
}

/// The account database: one account per known client, created on the first
/// transaction seen for a client id and never deleted during a run.
pub struct Accounts {
    pub accounts: Vec<Account>,
}

impl Accounts {
    /// The map of per-client histories this store represents.
    pub open spec fn histories(self) -> Map<u16, Seq<Transaction>> {
        histories_of(self.accounts@)
    }

    /// Account ids are distinct and every account is well formed.
    pub open spec fn wf(self) -> bool {
        &&& forall|p: int, q: int|
            #![trigger self.accounts@[p].id, self.accounts@[q].id]
            0 <= p < q < self.accounts@.len() ==> self.accounts@[p].id != self.accounts@[q].id
        &&& forall|i: int| 0 <= i < self.accounts@.len() ==> (#[trigger] self.accounts@[i]).wf()
    }

    /// Appends the transaction to its client's history, creating the account
    /// when the client is new. Never fails: the caller has already validated
    /// the record.
    pub fn add_transaction(&mut self, tx: Transaction)
        requires
            old(self).wf(),
            tx_wf(tx),
        ensures
            final(self).wf(),
            final(self).histories() == spec_record(old(self).histories(), tx),
    {
        let c = tx.client_id;
        let n = self.accounts.len();
        let mut i: usize = 0;
        while i < n
            invariant
                self.accounts@ == old(self).accounts@,
                self.wf(),
                n == self.accounts@.len(),
                0 <= i <= n,
                c == tx.client_id,
                tx_wf(tx),
                forall|k: int| 0 <= k < i ==> (#[trigger] self.accounts@[k]).id != c,
            decreases n - i,
        {
            if self.accounts[i].id == c {
                proof {
                    lemma_histories_at(self.accounts@, i as int);
                }
                self.accounts[i].transactions.push(tx);
                proof {
                    let s0 = old(self).accounts@;
                    let acc = self.accounts@[i as int];
                    assert(self.accounts@ =~= s0.update(i as int, acc));
                    lemma_histories_update(s0, i as int, acc);
                    assert(acc.transactions@ == s0[i as int].transactions@.push(tx));
                    assert forall|j: int|
                        0 <= j < acc.transactions@.len() implies tx_wf(
                        #[trigger] acc.transactions@[j],
                    ) && acc.transactions@[j].client_id == acc.id by {
                        if j < acc.transactions@.len() - 1 {
                            assert(s0[i as int].wf());
                            assert(acc.transactions@[j] == s0[i as int].transactions@[j]);
                            assert(tx_wf(s0[i as int].transactions@[j]));
                        } else {
                            assert(acc.transactions@[j] == tx);
                            assert(tx_wf(acc.transactions@[j]));
                        }
                    }
                    assert(acc.wf());
                    assert forall|k: int|
                        0 <= k < self.accounts@.len() implies (#[trigger] self.accounts@[k]).wf() by {
                        if k != i as int {
                            assert(self.accounts@[k] == s0[k]);
                            assert(s0[k].wf());
                        }
                    }
                }
                return ;
            }
            i = i + 1;
        }
        proof {
            lemma_histories_contains(self.accounts@, c);
        }
        let mut txs: Vec<Transaction> = Vec::new();
        txs.push(tx);
        self.accounts.push(Account { id: c, transactions: txs });
        proof {
            let s0 = old(self).accounts@;
            assert(self.accounts@.drop_last() =~= s0);
            assert(self.accounts@.last().transactions@ =~= Seq::<Transaction>::empty().push(tx));
            assert(final(self).histories() =~= spec_record(old(self).histories(), tx));
        }
    }

    /// Derives one closing snapshot per known account, or the first overflow
    /// any account's replay runs into. Succeeds exactly when every account's
    /// replay stays representable. The order of the snapshots is
    /// unspecified; callers needing a deterministic report must sort.
    pub fn generate_closing_balances(&self) -> (r: Result<Vec<ClosingBalance>, BalanceError>)
        requires
            self.wf(),
        ensures
            r is Ok <==> (forall|k: int|
                0 <= k < self.accounts@.len() ==> replay_fits(
                    (#[trigger] self.accounts@[k]).transactions@,
                )),
            r is Ok <==> (forall|c: u16|
                #[trigger] self.histories().contains_key(c) ==> replay_fits(self.histories()[c])),
            r matches Ok(v) ==> v@.len() == self.accounts@.len(),
            r matches Ok(v) ==> v@.len() == self.histories().dom().len(),
            r matches Ok(v) ==> (forall|k: int|
                0 <= k < v@.len() ==> closing_balance_ok(
                    #[trigger] v@[k],
                    self.accounts@[k].id,
                    self.accounts@[k].transactions@,
                )),
            r matches Ok(v) ==> (forall|c: u16|
                self.histories().contains_key(c) ==> exists|j: int|
                    0 <= j < v@.len() && closing_balance_ok(
                        #[trigger] v@[j],
                        c,
                        self.histories()[c],
                    )),
            r is Err ==> r->Err_0 == BalanceError::Overflow,
    {
        let mut out: Vec<ClosingBalance> = Vec::new();
        let n = self.accounts.len();
        let mut i: usize = 0;
        while i < n
            invariant
                self.wf(),
                n == self.accounts@.len(),
                0 <= i <= n,
                out@.len() == i,
                forall|k: int|
                    0 <= k < i ==> replay_fits((#[trigger] self.accounts@[k]).transactions@),
                forall|k: int|
                    0 <= k < i ==> closing_balance_ok(
                        #[trigger] out@[k],
                        self.accounts@[k].id,
                        self.accounts@[k].transactions@,
                    ),
            decreases n - i,
        {
            match self.accounts[i].closing_balance() {
                Ok(b) => {
                    out.push(b);
                },
                Err(e) => {
                    proof {
                        lemma_histories_at(self.accounts@, i as int);
                        let c = self.accounts@[i as int].id;
                        assert(self.histories().contains_key(c) && !replay_fits(
                            self.histories()[c],
                        ));
                    }
                    return Err(e);
                },
            }
            i = i + 1;
        }
        proof {
            lemma_histories_dom_len(self.accounts@);
            assert forall|c: u16| #[trigger] self.histories().contains_key(c) implies replay_fits(
                self.histories()[c],
            ) by {
                lemma_histories_contains(self.accounts@, c);
                let k = choose|k: int| 0 <= k < self.accounts@.len() && self.accounts@[k].id == c;
                lemma_histories_at(self.accounts@, k);
            }
            assert forall|c: u16| self.histories().contains_key(c) implies exists|j: int|
                0 <= j < out@.len() && closing_balance_ok(
                    #[trigger] out@[j],
                    c,
                    self.histories()[c],
                ) by {
                lemma_histories_contains(self.accounts@, c);
                let k = choose|k: int| 0 <= k < self.accounts@.len() && self.accounts@[k].id == c;
                lemma_histories_at(self.accounts@, k);
                assert(closing_balance_ok(out@[k], c, self.histories()[c]));
            }
        }
        Ok(out)
    }
}

impl Default for Accounts {
    /// An empty store: no clients, no histories.
    fn default() -> (r: Self)
        ensures
            r.wf(),
            r.histories() == Map::<u16, Seq<Transaction>>::empty(),
    {
        Accounts { accounts: Vec::new() }
    }
}

/// A client id is in the represented map exactly when some account has it.
pub proof fn lemma_histories_contains(s: Seq<Account>, c: u16)
    ensures
        histories_of(s).contains_key(c) <==> exists|i: int| 0 <= i < s.len() && s[i].id == c,
    decreases s.len(),
{
    if s.len() == 0 {
    } else {
        lemma_histories_contains(s.drop_last(), c);
        if s.last().id == c {
            assert(s[s.len() - 1].id == c);
        } else {
            if exists|i: int| 0 <= i < s.len() && s[i].id == c {
                let i = choose|i: int| 0 <= i < s.len() && s[i].id == c;
                assert(s.drop_last()[i].id == c);
            }
            if exists|i: int| 0 <= i < s.drop_last().len() && s.drop_last()[i].id == c {
                let i = choose|i: int| 0 <= i < s.drop_last().len() && s.drop_last()[i].id == c;
                assert(s[i].id == c);
            }
        }
    }
}

/// With distinct account ids, the represented map sends each account's id to
/// exactly that account's history.
pub proof fn lemma_histories_at(s: Seq<Account>, i: int)
    requires
        0 <= i < s.len(),
        forall|p: int, q: int| #![trigger s[p].id, s[q].id] 0 <= p < q < s.len() ==> s[p].id != s[q].id,
    ensures
        histories_of(s).contains_key(s[i].id),
        histories_of(s)[s[i].id] == s[i].transactions@,
    decreases s.len(),
{
    if i == s.len() - 1 {
    } else {
        assert(s.drop_last()[i] == s[i]);
        assert(forall|p: int, q: int|
            #![trigger s.drop_last()[p].id, s.drop_last()[q].id]
            0 <= p < q < s.drop_last().len() ==> s.drop_last()[p].id != s.drop_last()[q].id);
        lemma_histories_at(s.drop_last(), i);
        assert(s[i].id != s[s.len() - 1].id);
    }
}

/// With distinct ids the represented map has exactly one entry per account.
pub proof fn lemma_histories_dom_len(s: Seq<Account>)
    requires
        forall|p: int, q: int| #![trigger s[p].id, s[q].id] 0 <= p < q < s.len() ==> s[p].id != s[q].id,
    ensures
        histories_of(s).dom().finite(),
        histories_of(s).dom().len() == s.len(),
    decreases s.len(),
{
    if s.len() == 0 {
        assert(histories_of(s).dom() =~= Set::<u16>::empty());
    } else {
        let prior = s.drop_last();
        assert(forall|p: int, q: int|
            #![trigger prior[p].id, prior[q].id]
            0 <= p < q < prior.len() ==> prior[p].id != prior[q].id);
        lemma_histories_dom_len(prior);
        lemma_histories_contains(prior, s.last().id);
        assert forall|i: int| 0 <= i < prior.len() implies (#[trigger] prior[i]).id != s.last().id by {
            assert(s[i].id != s[s.len() - 1].id);
        }
        assert(!histories_of(prior).dom().contains(s.last().id));
        assert(histories_of(s).dom() =~= histories_of(prior).dom().insert(s.last().id));
    }
}

/// Replacing one account's history, with distinct ids, updates exactly that
/// client's entry of the represented map.
pub proof fn lemma_histories_update(s: Seq<Account>, i: int, acc: Account)
    requires
        0 <= i < s.len(),
        acc.id == s[i].id,
        forall|p: int, q: int| #![trigger s[p].id, s[q].id] 0 <= p < q < s.len() ==> s[p].id != s[q].id,
    ensures
        histories_of(s.update(i, acc)) == histories_of(s).insert(acc.id, acc.transactions@),
    decreases s.len(),
{
    let su = s.update(i, acc);
    if i == s.len() - 1 {
        assert(su.drop_last() =~= s.drop_last());
        assert(su.last() == acc);
        assert(histories_of(su) =~= histories_of(s).insert(acc.id, acc.transactions@));
    } else {
        assert(su.drop_last() =~= s.drop_last().update(i, acc));
        assert(su.last() == s.last());
        assert(forall|p: int, q: int|
            #![trigger s.drop_last()[p].id, s.drop_last()[q].id]
            0 <= p < q < s.drop_last().len() ==> s.drop_last()[p].id != s.drop_last()[q].id);
        assert(s.drop_last()[i] == s[i]);
        lemma_histories_update(s.drop_last(), i, acc);
        assert(acc.id != s[s.len() - 1].id);
        assert(histories_of(su) =~= histories_of(s).insert(acc.id, acc.transactions@));
    }
}

} // verus!
