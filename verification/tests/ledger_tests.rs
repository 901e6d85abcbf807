use ledger::balance::ClosingBalance;
use ledger::ledger::Accounts;
use ledger::transaction::{Transaction, TransactionType};

/// Converts a decimal amount of currency units into fixed-point money ticks.
fn money(units: f64) -> i64 {
    (units * 10_000.0).round() as i64
}

fn balances(accounts: &Accounts) -> Vec<ClosingBalance> {
    accounts
        .generate_closing_balances()
        .expect("balances stay in range")
}

#[test]
fn test_deposits_and_withdrawals() {
    let mut accounts: Accounts = Default::default();

    // Make an initial deposit
    accounts.add_transaction(Transaction {
        tx_type: TransactionType::Deposit,
        client_id: 1,
        transaction_id: 1,
        amount: Some(money(10.5)),
    });

    let closing_balances = balances(&accounts);

    assert_eq!(closing_balances.len(), 1);

    assert_eq!(closing_balances.get(0).unwrap().total, money(10.5));

    // Make another deposit
    accounts.add_transaction(Transaction {
        tx_type: TransactionType::Deposit,
        client_id: 1,
        transaction_id: 2,
        amount: Some(money(20.5)),
    });

    let closing_balances = balances(&accounts);
    assert_eq!(closing_balances.get(0).unwrap().total, money(31.0));

    // Make a withdrawal for more money than we have
    accounts.add_transaction(Transaction {
        tx_type: TransactionType::Withdrawal,
        client_id: 1,
        transaction_id: 2,
        amount: Some(money(40.0)),
    });

    let closing_balances = balances(&accounts);
    assert_eq!(closing_balances.get(0).unwrap().total, money(31.0));

    // Make a withdrawal for funds we have
    accounts.add_transaction(Transaction {
        tx_type: TransactionType::Withdrawal,
        client_id: 1,
        transaction_id: 2,
        amount: Some(money(10.5)),
    });

    let closing_balances = balances(&accounts);
    assert_eq!(closing_balances.get(0).unwrap().total, money(20.5));

    // Some more just in case
    accounts.add_transaction(Transaction {
        tx_type: TransactionType::Deposit,
        client_id: 1,
        transaction_id: 2,
        amount: Some(money(50.5)),
    });
    accounts.add_transaction(Transaction {
        tx_type: TransactionType::Withdrawal,
        client_id: 1,
        transaction_id: 2,
        amount: Some(money(40.5)),
    });

    let closing_balances = balances(&accounts);
    assert_eq!(closing_balances.get(0).unwrap().total, money(30.5));
}

#[test]
fn test_multiple_clients() {
    let mut accounts: Accounts = Default::default();

    accounts.add_transaction(Transaction {
        tx_type: TransactionType::Deposit,
        client_id: 1,
        transaction_id: 1,
        amount: Some(money(10.5)),
    });
    accounts.add_transaction(Transaction {
        tx_type: TransactionType::Deposit,
        client_id: 2,
        transaction_id: 2,
        amount: Some(money(10.5)),
    });
    accounts.add_transaction(Transaction {
        tx_type: TransactionType::Deposit,
        client_id: 3,
        transaction_id: 3,
        amount: Some(money(10.5)),
    });
    accounts.add_transaction(Transaction {
        tx_type: TransactionType::Deposit,
        client_id: 4,
        transaction_id: 4,
        amount: Some(money(10.5)),
    });
    accounts.add_transaction(Transaction {
        tx_type: TransactionType::Deposit,
        client_id: 1,
        transaction_id: 5,
        amount: Some(money(10.5)),
    });
    accounts.add_transaction(Transaction {
        tx_type: TransactionType::Deposit,
        client_id: 1,
        transaction_id: 6,
        amount: Some(money(10.5)),
    });
    accounts.add_transaction(Transaction {
        tx_type: TransactionType::Deposit,
        client_id: 1,
        transaction_id: 7,
        amount: Some(money(10.5)),
    });
    accounts.add_transaction(Transaction {
        tx_type: TransactionType::Deposit,
        client_id: 1,
        transaction_id: 8,
        amount: Some(money(10.5)),
    });

    let closing_balances = balances(&accounts);
    assert_eq!(closing_balances.len(), 4);
}

#[test]
fn test_dispute_and_resolve() {
    let mut accounts: Accounts = Default::default();
    accounts.add_transaction(Transaction {
        tx_type: TransactionType::Deposit,
        client_id: 1,
        transaction_id: 1,
        amount: Some(money(10.5)),
    });
    accounts.add_transaction(Transaction {
        tx_type: TransactionType::Dispute,
        client_id: 1,
        transaction_id: 1,
        amount: None,
    });

    let closing_balances = balances(&accounts);
    assert_eq!(closing_balances.len(), 1);
    assert_eq!(closing_balances.get(0).unwrap().total, money(10.5));
    assert_eq!(closing_balances.get(0).unwrap().held, money(10.5));
    assert_eq!(closing_balances.get(0).unwrap().available, money(0.0));

    // Keep adding money see what happens
    accounts.add_transaction(Transaction {
        tx_type: TransactionType::Deposit,
        client_id: 1,
        transaction_id: 3,
        amount: Some(money(10.5)),
    });
    accounts.add_transaction(Transaction {
        tx_type: TransactionType::Deposit,
        client_id: 1,
        transaction_id: 4,
        amount: Some(money(10.5)),
    });

    let closing_balances = balances(&accounts);
    assert_eq!(closing_balances.len(), 1);
    assert_eq!(closing_balances.get(0).unwrap().total, money(31.5));
    assert_eq!(closing_balances.get(0).unwrap().held, money(10.5));
    assert_eq!(closing_balances.get(0).unwrap().available, money(21.0));

    accounts.add_transaction(Transaction {
        tx_type: TransactionType::Resolve,
        client_id: 1,
        transaction_id: 1,
        amount: None,
    });

    let closing_balances = balances(&accounts);
    assert_eq!(closing_balances.len(), 1);
    assert_eq!(closing_balances.get(0).unwrap().total, money(31.5));
    assert_eq!(closing_balances.get(0).unwrap().held, money(0.0));
    assert_eq!(closing_balances.get(0).unwrap().available, money(31.5));
}
