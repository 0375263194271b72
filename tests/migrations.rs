use contract_cli::ledger::Contract;
use contract_cli::migration::{
    lookup, migration_key, run_migrations, FailureCause, Migration, MigrationError,
};
use contract_cli::store::{Store, TxKind};

fn store_with_alice(amount: u64) -> (Store, Contract) {
    let mut store = Store::new();
    let mut c = Contract::load_or_create(&mut store, 1, "alice");
    c.deposit(&mut store, amount).unwrap();
    (store, c)
}

#[test]
fn unknown_migration_leaves_store() {
    let (mut store, _) = store_with_alice(5);
    assert_eq!(
        run_migrations(&mut store, "m_20990101_999_nothing.rs", 1),
        Err(MigrationError::UnknownMigration)
    );
    assert!(store.applied.is_empty());
    assert_eq!(store.balance_of(1), Some(5));
    assert_eq!(store.log.len(), 1);
}

#[test]
fn migration_runs_at_most_once() {
    let (mut store, _) = store_with_alice(7);
    run_migrations(&mut store, "m_20240414_002_data_transform.rs", 10).unwrap();
    assert_eq!(store.balance_of(1), Some(700));
    assert_eq!(store.log[0].amount, 700);
    assert_eq!(
        run_migrations(&mut store, "m_20240414_002_data_transform.rs", 11),
        Err(MigrationError::AlreadyApplied)
    );
    assert_eq!(store.balance_of(1), Some(700));
    assert_eq!(store.applied.len(), 1);
    assert_eq!(store.applied[0].migration, Migration::ScaleToCents);
    assert_eq!(store.applied[0].applied_at, 10);
}

#[test]
fn create_tables_marks_without_changing_data() {
    let (mut store, _) = store_with_alice(3);
    run_migrations(&mut store, "migrations/m_20240414_001_create_tables.rs", 4).unwrap();
    assert_eq!(store.balance_of(1), Some(3));
    assert_eq!(store.applied[0].migration, Migration::CreateTables);
    assert_eq!(
        run_migrations(&mut store, "m_20240414_001_create_tables", 5),
        Err(MigrationError::AlreadyApplied)
    );
}

#[test]
fn failed_migration_rolls_back() {
    let (mut store, _) = store_with_alice(u64::MAX / 50);
    assert_eq!(
        run_migrations(&mut store, "m_20240414_002_data_transform.rs", 1),
        Err(MigrationError::MigrationFailed {
            migration: Migration::ScaleToCents,
            cause: FailureCause::Overflow
        })
    );
    assert_eq!(store.balance_of(1), Some(u64::MAX / 50));
    assert_eq!(store.log[0].amount, u64::MAX / 50);
    assert!(store.applied.is_empty());
}

#[test]
fn ledger_keeps_working_after_scaling() {
    let (mut store, _) = store_with_alice(2);
    run_migrations(&mut store, "m_20240414_002_data_transform.rs", 1).unwrap();
    let mut c = Contract::load_or_create(&mut store, 1, "alice");
    assert_eq!(c.balance, 200);
    c.withdraw(&mut store, 150).unwrap();
    assert_eq!(c.balance, 50);
    assert_eq!(store.log[1].kind, TxKind::Withdraw);
}

#[test]
fn migration_key_strips_directory_and_suffix() {
    assert_eq!(migration_key("a/b/m_1.rs"), "m_1");
    assert_eq!(migration_key("m_1.rs"), "m_1");
    assert_eq!(migration_key("m_1"), "m_1");
    assert_eq!(migration_key("dir/"), "");
    assert_eq!(migration_key(".rs"), "");
    assert_eq!(migration_key("x.rsx"), "x.rsx");
}

#[test]
fn registry_lookup() {
    assert_eq!(lookup("m_20240414_001_create_tables"), Some(Migration::CreateTables));
    assert_eq!(lookup("m_20240414_002_data_transform"), Some(Migration::ScaleToCents));
    assert_eq!(lookup("m_20240414_002_data_transform.rs"), None);
    assert_eq!(Migration::ScaleToCents.name(), "m_20240414_002_data_transform");
}
