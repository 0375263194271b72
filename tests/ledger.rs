use contract_cli::hash::hash_owner;
use contract_cli::ledger::{Contract, LedgerError, HISTORY_LEN};
use contract_cli::store::{Store, Transaction, TxKind};

fn tx(id: u64, kind: TxKind, amount: u64) -> Transaction {
    Transaction { contract_id: id, kind, amount }
}

fn replayed(store: &Store, id: u64) -> i128 {
    let mut sum: i128 = 0;
    for t in &store.log {
        if t.contract_id == id {
            match t.kind {
                TxKind::Deposit => sum += t.amount as i128,
                TxKind::Withdraw => sum -= t.amount as i128,
            }
        }
    }
    sum
}

#[test]
fn alice_deposit_withdraw_scenario() {
    let mut store = Store::new();
    let id = hash_owner("alice");
    let mut c = Contract::load_or_create(&mut store, id, "alice");
    assert_eq!(c.balance, 0);
    c.deposit(&mut store, 100).unwrap();
    assert_eq!(c.balance, 100);
    assert_eq!(c.show_history(&store), vec![tx(id, TxKind::Deposit, 100)]);
    c.withdraw(&mut store, 30).unwrap();
    assert_eq!(c.balance, 70);
    assert_eq!(
        c.show_history(&store),
        vec![tx(id, TxKind::Withdraw, 30), tx(id, TxKind::Deposit, 100)]
    );
    assert_eq!(c.withdraw(&mut store, 1000), Err(LedgerError::InsufficientFunds));
    assert_eq!(c.balance, 70);
    assert_eq!(store.balance_of(id), Some(70));
}

#[test]
fn balance_equals_replayed_log() {
    let mut store = Store::new();
    let a = hash_owner("alice");
    let b = hash_owner("bob");
    let mut ca = Contract::load_or_create(&mut store, a, "alice");
    let mut cb = Contract::load_or_create(&mut store, b, "bob");
    ca.deposit(&mut store, 50).unwrap();
    cb.deposit(&mut store, 7).unwrap();
    ca.withdraw(&mut store, 20).unwrap();
    let _ = cb.withdraw(&mut store, 8);
    let _ = ca.deposit(&mut store, 0);
    cb.withdraw(&mut store, 7).unwrap();
    assert_eq!(replayed(&store, a), 30);
    assert_eq!(replayed(&store, b), 0);
    assert_eq!(store.balance_of(a), Some(30));
    assert_eq!(store.balance_of(b), Some(0));
}

#[test]
fn overdraft_leaves_balance_and_log() {
    let mut store = Store::new();
    let mut c = Contract::load_or_create(&mut store, 9, "carol");
    c.deposit(&mut store, 10).unwrap();
    let before = store.log.clone();
    assert_eq!(c.withdraw(&mut store, 11), Err(LedgerError::InsufficientFunds));
    assert_eq!(c.balance, 10);
    assert_eq!(store.log, before);
    c.withdraw(&mut store, 10).unwrap();
    assert_eq!(c.balance, 0);
}

#[test]
fn zero_amounts_are_invalid() {
    let mut store = Store::new();
    let mut c = Contract::load_or_create(&mut store, 1, "dave");
    assert_eq!(c.deposit(&mut store, 0), Err(LedgerError::InvalidAmount));
    assert_eq!(c.withdraw(&mut store, 0), Err(LedgerError::InvalidAmount));
    assert!(store.log.is_empty());
    assert!(c.show_history(&store).is_empty());
}

#[test]
fn deposit_past_u64_is_invalid() {
    let mut store = Store::new();
    let mut c = Contract::load_or_create(&mut store, 1, "erin");
    c.deposit(&mut store, u64::MAX).unwrap();
    assert_eq!(c.deposit(&mut store, 1), Err(LedgerError::InvalidAmount));
    assert_eq!(c.balance, u64::MAX);
    assert_eq!(store.log.len(), 1);
}

#[test]
fn load_twice_keeps_id_and_balance() {
    let mut store = Store::new();
    let id = hash_owner("alice");
    let mut c = Contract::load_or_create(&mut store, id, "alice");
    c.deposit(&mut store, 42).unwrap();
    let again = Contract::load_or_create(&mut store, id, "alice");
    assert_eq!(again.id, id);
    assert_eq!(again.balance, 42);
    assert_eq!(again.owner, "alice");
    assert_eq!(store.contracts.len(), 1);
    let third = Contract::load_or_create(&mut store, hash_owner("alice"), "alice");
    assert_eq!(third.balance, 42);
    assert_eq!(store.contracts.len(), 1);
}

#[test]
fn history_shows_last_five_newest_first() {
    let mut store = Store::new();
    let mut c = Contract::load_or_create(&mut store, 3, "frank");
    let mut other = Contract::load_or_create(&mut store, 4, "grace");
    for amount in 1..=7u64 {
        c.deposit(&mut store, amount).unwrap();
        other.deposit(&mut store, 100 + amount).unwrap();
    }
    let h = c.show_history(&store);
    assert_eq!(h.len(), HISTORY_LEN);
    let expected: Vec<Transaction> = (3..=7u64).rev().map(|a| tx(3, TxKind::Deposit, a)).collect();
    assert_eq!(h, expected);
}

#[test]
fn history_of_few_entries_shows_all() {
    let mut store = Store::new();
    let mut c = Contract::load_or_create(&mut store, 5, "heidi");
    c.deposit(&mut store, 8).unwrap();
    c.withdraw(&mut store, 3).unwrap();
    assert_eq!(
        c.show_history(&store),
        vec![tx(5, TxKind::Withdraw, 3), tx(5, TxKind::Deposit, 8)]
    );
}

#[test]
fn status_reports_owner_and_balance() {
    let mut store = Store::new();
    let mut c = Contract::load_or_create(&mut store, 6, "ivan");
    c.deposit(&mut store, 12).unwrap();
    assert_eq!(c.status(), (String::from("ivan"), 12));
}

#[test]
fn owner_hash_is_fnv1a() {
    assert_eq!(hash_owner(""), 0xcbf29ce484222325);
    assert_eq!(hash_owner("a"), 0xaf63dc4c8601ec8c);
    assert_eq!(hash_owner("alice"), hash_owner("alice"));
    assert_ne!(hash_owner("alice"), hash_owner("bob"));
}
