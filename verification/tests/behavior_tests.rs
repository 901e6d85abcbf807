use ledger::balance::{BalanceError, ClosingBalance};
use ledger::ledger::Accounts;
use ledger::transaction::{Transaction, TransactionType};

/// Converts a decimal amount of currency units into fixed-point money ticks.
fn money(units: f64) -> i64 {
    (units * 10_000.0).round() as i64
}

fn deposit(client: u16, tx: u32, units: f64) -> Transaction {
    Transaction {
        tx_type: TransactionType::Deposit,
        client_id: client,
        transaction_id: tx,
        amount: Some(money(units)),
    }
}

fn withdrawal(client: u16, tx: u32, units: f64) -> Transaction {
    Transaction {
        tx_type: TransactionType::Withdrawal,
        client_id: client,
        transaction_id: tx,
        amount: Some(money(units)),
    }
}

fn referencing(tx_type: TransactionType, client: u16, tx: u32) -> Transaction {
    Transaction {
        tx_type,
        client_id: client,
        transaction_id: tx,
        amount: None,
    }
}

fn sole_balance(accounts: &Accounts) -> ClosingBalance {
    let balances = accounts
        .generate_closing_balances()
        .expect("balances stay in range");
    assert_eq!(balances.len(), 1);
    *balances.get(0).unwrap()
}

fn balance_of(accounts: &Accounts, client: u16) -> ClosingBalance {
    let balances = accounts
        .generate_closing_balances()
        .expect("balances stay in range");
    *balances.iter().find(|b| b.client == client).unwrap()
}

#[test]
fn test_empty_ledger_has_no_balances() {
    let accounts: Accounts = Default::default();
    let balances = accounts.generate_closing_balances().unwrap();
    assert_eq!(balances.len(), 0);
}

#[test]
fn test_withdrawal_of_exact_balance_succeeds() {
    let mut accounts: Accounts = Default::default();
    accounts.add_transaction(deposit(1, 1, 10.0));
    accounts.add_transaction(withdrawal(1, 2, 10.0));
    let b = sole_balance(&accounts);
    assert_eq!(b.available, 0);
    assert_eq!(b.held, 0);
    assert_eq!(b.total, 0);
    assert!(!b.locked);
}

#[test]
fn test_chargeback_reduces_total_and_locks() {
    let mut accounts: Accounts = Default::default();
    accounts.add_transaction(deposit(1, 1, 10.5));
    accounts.add_transaction(referencing(TransactionType::Dispute, 1, 1));
    accounts.add_transaction(referencing(TransactionType::Chargeback, 1, 1));
    let b = sole_balance(&accounts);
    assert_eq!(b.available, 0);
    assert_eq!(b.held, 0);
    assert_eq!(b.total, 0);
    assert!(b.locked);
}

#[test]
fn test_dispute_of_unknown_reference_is_noop() {
    let mut accounts: Accounts = Default::default();
    accounts.add_transaction(deposit(1, 1, 10.5));
    accounts.add_transaction(referencing(TransactionType::Dispute, 1, 99));
    let b = sole_balance(&accounts);
    assert_eq!(b.available, money(10.5));
    assert_eq!(b.held, 0);
    assert_eq!(b.total, money(10.5));
    assert!(!b.locked);
}

#[test]
fn test_dispute_of_withdrawal_is_noop() {
    let mut accounts: Accounts = Default::default();
    accounts.add_transaction(deposit(1, 1, 20.0));
    accounts.add_transaction(withdrawal(1, 2, 5.0));
    accounts.add_transaction(referencing(TransactionType::Dispute, 1, 2));
    let b = sole_balance(&accounts);
    assert_eq!(b.available, money(15.0));
    assert_eq!(b.held, 0);
    assert_eq!(b.total, money(15.0));
}

// The replay keeps no per-transaction dispute flag, so a resolve whose
// reference was never disputed still moves the referenced amount; this
// records that deliberate policy.
#[test]
fn test_resolve_without_dispute_still_mutates() {
    let mut accounts: Accounts = Default::default();
    accounts.add_transaction(deposit(1, 1, 10.5));
    accounts.add_transaction(referencing(TransactionType::Resolve, 1, 1));
    let b = sole_balance(&accounts);
    assert_eq!(b.available, money(21.0));
    assert_eq!(b.held, money(-10.5));
    assert_eq!(b.total, money(10.5));
}

// A locked account is still processed: locking only annotates the report.
#[test]
fn test_locked_account_still_processed() {
    let mut accounts: Accounts = Default::default();
    accounts.add_transaction(deposit(1, 1, 10.5));
    accounts.add_transaction(referencing(TransactionType::Dispute, 1, 1));
    accounts.add_transaction(referencing(TransactionType::Chargeback, 1, 1));
    accounts.add_transaction(deposit(1, 2, 3.0));
    let b = sole_balance(&accounts);
    assert_eq!(b.available, money(3.0));
    assert_eq!(b.held, 0);
    assert_eq!(b.total, money(3.0));
    assert!(b.locked);
}

#[test]
fn test_available_overflow_is_reported() {
    let mut accounts: Accounts = Default::default();
    accounts.add_transaction(Transaction {
        tx_type: TransactionType::Deposit,
        client_id: 1,
        transaction_id: 1,
        amount: Some(i64::MAX),
    });
    assert!(accounts.generate_closing_balances().is_ok());
    accounts.add_transaction(Transaction {
        tx_type: TransactionType::Deposit,
        client_id: 1,
        transaction_id: 2,
        amount: Some(i64::MAX),
    });
    assert_eq!(
        accounts.generate_closing_balances(),
        Err(BalanceError::Overflow)
    );
}

#[test]
fn test_total_overflow_is_reported() {
    let mut accounts: Accounts = Default::default();
    accounts.add_transaction(Transaction {
        tx_type: TransactionType::Deposit,
        client_id: 1,
        transaction_id: 1,
        amount: Some(5),
    });
    accounts.add_transaction(referencing(TransactionType::Dispute, 1, 1));
    accounts.add_transaction(Transaction {
        tx_type: TransactionType::Deposit,
        client_id: 1,
        transaction_id: 2,
        amount: Some(i64::MAX),
    });
    assert_eq!(
        accounts.generate_closing_balances(),
        Err(BalanceError::Overflow)
    );
}

#[test]
fn test_interleaved_clients_match_isolated_runs() {
    let first = [
        deposit(1, 1, 10.0),
        deposit(1, 3, 2.5),
        withdrawal(1, 5, 4.0),
        referencing(TransactionType::Dispute, 1, 1),
    ];
    let second = [
        deposit(2, 2, 7.0),
        withdrawal(2, 4, 3.0),
        referencing(TransactionType::Dispute, 2, 2),
        referencing(TransactionType::Resolve, 2, 2),
    ];

    let mut interleaved: Accounts = Default::default();
    for i in 0..4 {
        interleaved.add_transaction(first[i]);
        interleaved.add_transaction(second[i]);
    }

    let mut only_first: Accounts = Default::default();
    for tx in first {
        only_first.add_transaction(tx);
    }
    let mut only_second: Accounts = Default::default();
    for tx in second {
        only_second.add_transaction(tx);
    }

    assert_eq!(balance_of(&interleaved, 1), balance_of(&only_first, 1));
    assert_eq!(balance_of(&interleaved, 2), balance_of(&only_second, 2));
}

// Dispute references resolve against the client's full history, restricted
// to deposits and withdrawals: a dispute that arrives before the deposit it
// names still finds it, and is never satisfied by a dispute-family record
// that happens to carry the same id.
#[test]
fn test_dispute_reference_skips_dispute_records() {
    let mut accounts: Accounts = Default::default();
    accounts.add_transaction(referencing(TransactionType::Dispute, 1, 1));
    accounts.add_transaction(deposit(1, 1, 10.5));
    let b = sole_balance(&accounts);
    assert_eq!(b.available, 0);
    assert_eq!(b.held, money(10.5));
    assert_eq!(b.total, money(10.5));
}

#[test]
fn test_dispute_holds_exact_deposit_amount() {
    let mut accounts: Accounts = Default::default();
    accounts.add_transaction(deposit(7, 11, 3.25));
    accounts.add_transaction(referencing(TransactionType::Dispute, 7, 11));
    let b = sole_balance(&accounts);
    assert_eq!(b.client, 7);
    assert_eq!(b.available, 0);
    assert_eq!(b.held, money(3.25));
    assert_eq!(b.total, money(3.25));
    assert!(!b.locked);
}
