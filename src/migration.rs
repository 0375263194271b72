use vstd::prelude::*;
use vstd::string::*;

use crate::store::{
    deposited, has_id, lemma_same_ids, replayed, withdrawn, AppliedMigration, ContractRow, RowView,
    Store, StoreView, Transaction,
};

verus! {

/// Factor by which the unit migration multiplies every amount.
pub const CENTS_PER_UNIT: u64 = 100;

/// The registered migrations.
#[derive(Clone, Copy, Debug, PartialEq, Eq, Structural)]
pub enum Migration {
    /// Brings the three tables into being; they always exist in this store,
    /// so the data stays as it is.
    CreateTables,
    /// Moves every balance and amount from whole units to cents.
    ScaleToCents,
}

/// Why a registered transformation failed.
#[derive(Clone, Copy, Debug, PartialEq, Eq, Structural)]
pub enum FailureCause {
    /// A scaled value would not fit in 64 bits.
    Overflow,
}

/// Why a migration was not applied.
#[derive(Clone, Copy, Debug, PartialEq, Eq, Structural)]
pub enum MigrationError {
    /// The file name names no registered migration.
    UnknownMigration,
    /// The migration's marker is already in the store.
    AlreadyApplied,
    /// The transformation failed; nothing was written.
    MigrationFailed { migration: Migration, cause: FailureCause },
}

/// The registry key of each migration.
pub open spec fn migration_name(m: Migration) -> Seq<char> {
    match m {
        Migration::CreateTables => "m_20240414_001_create_tables"@,
        Migration::ScaleToCents => "m_20240414_002_data_transform"@,
    }
}

/// The migration registered under `key`, if any.
pub open spec fn registered(key: Seq<char>) -> Option<Migration> {
    if key == migration_name(Migration::CreateTables) {
        Some(Migration::CreateTables)
    } else if key == migration_name(Migration::ScaleToCents) {
        Some(Migration::ScaleToCents)
    } else {
        None
    }
}

/// What follows the last `/` of `f` (all of `f` where it has none).
pub open spec fn basename(f: Seq<char>) -> Seq<char>
    decreases f.len(),
{
    if f.len() == 0 {
        f
    } else if f.last() == '/' {
        Seq::empty()
    } else {
        basename(f.drop_last()).push(f.last())
    }
}

/// `s` without a trailing `.rs`.
pub open spec fn strip_rs(s: Seq<char>) -> Seq<char> {
    if s.len() >= 3 && s.subrange(s.len() - 3, s.len() as int) == seq!['.', 'r', 's'] {
        s.subrange(0, s.len() - 3)
    } else {
        s
    }
}

/// The registry key that a migration file name stands for.
pub open spec fn key_of(filename: Seq<char>) -> Seq<char> {
    strip_rs(basename(filename))
}

/// A row with its balance scaled to cents.
pub open spec fn scaled_row(r: RowView) -> RowView {
    RowView { id: r.id, owner: r.owner, balance: (r.balance * CENTS_PER_UNIT) as u64 }
}

/// A transaction with its amount scaled to cents.
pub open spec fn scaled_tx(t: Transaction) -> Transaction {
    Transaction { contract_id: t.contract_id, kind: t.kind, amount: (t.amount * CENTS_PER_UNIT) as u64 }
}

/// Whether every balance and amount of `v` can be scaled to cents in 64 bits.
pub open spec fn scale_fits(v: StoreView) -> bool {
    &&& forall|i: int|
        0 <= i < v.contracts.len() ==> #[trigger] v.contracts[i].balance * CENTS_PER_UNIT
            <= u64::MAX
    &&& forall|k: int| 0 <= k < v.log.len() ==> #[trigger] v.log[k].amount * CENTS_PER_UNIT <= u64::MAX
}

/// What the transformation of `m` makes of the store, markers aside.
pub open spec fn transformed(m: Migration, v: StoreView) -> Result<StoreView, FailureCause> {
    match m {
        Migration::CreateTables => Ok(v),
        Migration::ScaleToCents => {
            if scale_fits(v) {
                Ok(
                    StoreView {
                        contracts: v.contracts.map_values(|r: RowView| scaled_row(r)),
                        log: v.log.map_values(|t: Transaction| scaled_tx(t)),
                        applied: v.applied,
                    },
                )
            } else {
                Err(FailureCause::Overflow)
            }
        },
    }
}

/// The outcome of running the migration named by `filename` at time `now`:
/// an unknown or already applied one is refused, a failing one leaves the
/// store as it was, a successful one is applied and marked together.
pub open spec fn after_migrate(v: StoreView, filename: Seq<char>, now: u64) -> Result<
    StoreView,
    MigrationError,
> {
    match registered(key_of(filename)) {
        None => Err(MigrationError::UnknownMigration),
        Some(m) => {
            if v.is_applied(m) {
                Err(MigrationError::AlreadyApplied)
            } else {
                match transformed(m, v) {
                    Err(cause) => Err(MigrationError::MigrationFailed { migration: m, cause }),
                    Ok(w) => Ok(
                        StoreView {
                            contracts: w.contracts,
                            log: w.log,
                            applied: w.applied.push(
                                AppliedMigration { migration: m, applied_at: now },
                            ),
                        },
                    ),
                }
            }
        },
    }
}

/// Scaling every amount of the log scales each replayed sum alike.
pub proof fn lemma_scaled_replay(log: Seq<Transaction>, id: u64)
    requires
        forall|k: int| 0 <= k < log.len() ==> #[trigger] log[k].amount * CENTS_PER_UNIT <= u64::MAX,
    ensures
        deposited(log.map_values(|t: Transaction| scaled_tx(t)), id) == deposited(log, id)
            * CENTS_PER_UNIT,
        withdrawn(log.map_values(|t: Transaction| scaled_tx(t)), id) == withdrawn(log, id)
            * CENTS_PER_UNIT,
    decreases log.len(),
{
    if log.len() > 0 {
        let pre = log.drop_last();
        let m = log.map_values(|t: Transaction| scaled_tx(t));
        assert(m.drop_last() =~= pre.map_values(|t: Transaction| scaled_tx(t)));
        assert forall|k: int| 0 <= k < pre.len() implies #[trigger] pre[k].amount * CENTS_PER_UNIT
            <= u64::MAX by {
            assert(pre[k] == log[k]);
        }
        assert(log.last().amount * CENTS_PER_UNIT <= u64::MAX);
        lemma_scaled_replay(pre, id);
        assert(m.last() == scaled_tx(log.last()));
    }
}

/// A successful transformation keeps the store's invariant.
pub proof fn lemma_transformed_wf(m: Migration, v: StoreView)
    requires
        v.wf(),
    ensures
        transformed(m, v) matches Ok(w) ==> w.wf() && w.applied == v.applied,
{
    if let Ok(w) = transformed(m, v) {
        if m == Migration::ScaleToCents {
            assert forall|i: int| 0 <= i < v.contracts.len() implies #[trigger] w.contracts[i].id
                == v.contracts[i].id by {}
            lemma_same_ids(v.contracts, w.contracts);
            assert forall|i: int|
                0 <= i < w.contracts.len() implies w.contracts[i].balance == replayed(
                w.log,
                #[trigger] w.contracts[i].id,
            ) by {
                lemma_scaled_replay(v.log, v.contracts[i].id);
                assert(v.contracts[i].balance * CENTS_PER_UNIT <= u64::MAX);
            }
            assert forall|k: int|
                0 <= k < w.log.len() implies #[trigger] w.log[k].amount > 0 && has_id(
                w.contracts,
                w.log[k].contract_id,
            ) by {
                assert(v.log[k].amount > 0 && has_id(v.contracts, v.log[k].contract_id));
                assert(v.log[k].amount * CENTS_PER_UNIT <= u64::MAX);
            }
        }
    }
}

impl Migration {
    /// The registry key of this migration.
    pub fn name(&self) -> (r: &'static str)
        ensures
            r@ == migration_name(*self),
    {
        match self {
            Migration::CreateTables => "m_20240414_001_create_tables",
            Migration::ScaleToCents => "m_20240414_002_data_transform",
        }
    }
}

/// Looks `key` up in the registry.
pub fn lookup(key: &str) -> (r: Option<Migration>)
    ensures
        r == registered(key@),
{
    let k = key.to_owned();
    if k == Migration::CreateTables.name().to_owned() {
        Some(Migration::CreateTables)
    } else if k == Migration::ScaleToCents.name().to_owned() {
        Some(Migration::ScaleToCents)
    } else {
        None
    }
}

/// Where the chars of `f` from `j` on hold no `/`, and `j` is at the start or
/// just after a `/`, the base name is what stands from `j` on.
proof fn lemma_basename(f: Seq<char>, j: int)
    requires
        0 <= j <= f.len(),
        j == 0 || f[j - 1] == '/',
        forall|k: int| j <= k < f.len() ==> f[k] != '/',
    ensures
        basename(f) == f.subrange(j, f.len() as int),
    decreases f.len(),
{
    if f.len() == 0 {
        assert(f.subrange(j, 0) =~= f);
    } else if j == f.len() {
        assert(f.subrange(j, j) =~= Seq::<char>::empty());
    } else {
        let pre = f.drop_last();
        assert forall|k: int| j <= k < pre.len() implies pre[k] != '/' by {
            assert(pre[k] == f[k]);
        }
        if j > 0 {
            assert(pre[j - 1] == f[j - 1]);
        }
        lemma_basename(pre, j);
        assert(f.subrange(j, f.len() as int) =~= pre.subrange(j, pre.len() as int).push(f.last()));
    }
}

/// The registry key that `filename` stands for: its base name without `.rs`.
pub fn migration_key(filename: &str) -> (r: String)
    ensures
        r@ == key_of(filename@),
{
    let n = filename.unicode_len();
    let mut j: usize = n;
    while j > 0 && filename.get_char(j - 1) != '/'
        invariant
            n == filename@.len(),
            j <= n,
            forall|k: int| j <= k < n ==> filename@[k] != '/',
        decreases j,
    {
        j = j - 1;
    }
    proof {
        lemma_basename(filename@, j as int);
    }
    let base = filename.substring_char(j, n);
    let m = n - j;
    if m >= 3 && base.get_char(m - 3) == '.' && base.get_char(m - 2) == 'r' && base.get_char(m - 1)
        == 's' {
        assert(base@.subrange(m - 3, m as int) =~= seq!['.', 'r', 's']);
        base.substring_char(0, m - 3).to_owned()
    } else {
        proof {
            if m >= 3 && base@.subrange(m - 3, m as int) == seq!['.', 'r', 's'] {
                assert(base@[m - 3] == base@.subrange(m - 3, m as int)[0]);
                assert(base@[m - 2] == base@.subrange(m - 3, m as int)[1]);
                assert(base@[m - 1] == base@.subrange(m - 3, m as int)[2]);
            }
        }
        base.to_owned()
    }
}

/// The rows and the log of `store` scaled to cents, or the overflow that
/// prevents it.
fn scale_to_cents(store: &Store) -> (r: Result<(Vec<ContractRow>, Vec<Transaction>), FailureCause>)
    ensures
        match r {
            Ok((c, l)) => scale_fits(store@) && c@.map_values(|x: ContractRow| x@)
                == store@.contracts.map_values(|x: RowView| scaled_row(x)) && l@
                == store@.log.map_values(|t: Transaction| scaled_tx(t)),
            Err(e) => !scale_fits(store@) && e == FailureCause::Overflow,
        },
{
    let mut rows: Vec<ContractRow> = Vec::new();
    let mut i: usize = 0;
    while i < store.contracts.len()
        invariant
            i <= store.contracts@.len(),
            rows@.len() == i,
            forall|j: int| 0 <= j < i ==> #[trigger] rows@[j]@ == scaled_row(store@.contracts[j]),
            forall|j: int| 0 <= j < i ==> #[trigger] store@.contracts[j].balance * CENTS_PER_UNIT <= u64::MAX,
        decreases store.contracts@.len() - i,
    {
        let row = &store.contracts[i];
        match row.balance.checked_mul(CENTS_PER_UNIT) {
            Some(b) => {
                rows.push(ContractRow { id: row.id, owner: row.owner.clone(), balance: b });
            },
            None => {
                assert(store@.contracts[i as int].balance * CENTS_PER_UNIT > u64::MAX);
                return Err(FailureCause::Overflow);
            },
        }
        i = i + 1;
    }
    let mut log: Vec<Transaction> = Vec::new();
    let mut k: usize = 0;
    while k < store.log.len()
        invariant
            k <= store.log@.len(),
            log@.len() == k,
            forall|j: int| 0 <= j < k ==> #[trigger] log@[j] == scaled_tx(store@.log[j]),
            forall|j: int| 0 <= j < k ==> #[trigger] store@.log[j].amount * CENTS_PER_UNIT <= u64::MAX,
        decreases store.log@.len() - k,
    {
        let t = store.log[k];
        match t.amount.checked_mul(CENTS_PER_UNIT) {
            Some(a) => {
                log.push(Transaction { contract_id: t.contract_id, kind: t.kind, amount: a });
            },
            None => {
                assert(store@.log[k as int].amount * CENTS_PER_UNIT > u64::MAX);
                return Err(FailureCause::Overflow);
            },
        }
        k = k + 1;
    }
    assert(rows@.map_values(|x: ContractRow| x@) =~= store@.contracts.map_values(
        |x: RowView| scaled_row(x),
    ));
    assert(log@ =~= store@.log.map_values(|t: Transaction| scaled_tx(t)));
    Ok((rows, log))
}

/// Runs the migration that `filename` names at time `now`: the
/// transformation and its marker are committed together or not at all.
pub fn run_migrations(store: &mut Store, filename: &str, now: u64) -> (r: Result<(), MigrationError>)
    requires
        old(store)@.wf(),
    ensures
        match after_migrate(old(store)@, filename@, now) {
            Ok(v) => r is Ok && final(store)@ == v,
            Err(e) => r == Err::<(), MigrationError>(e) && final(store)@ == old(store)@,
        },
        final(store)@.wf(),
{
    let key = migration_key(filename);
    let m = match lookup(key.as_str()) {
        Some(m) => m,
        None => return Err(MigrationError::UnknownMigration),
    };
    if store.is_applied(m) {
        return Err(MigrationError::AlreadyApplied);
    }
    let ghost v = store@;
    proof {
        lemma_transformed_wf(m, v);
    }
    match m {
        Migration::CreateTables => {},
        Migration::ScaleToCents => {
            match scale_to_cents(store) {
                Ok((rows, log)) => {
                    store.contracts = rows;
                    store.log = log;
                },
                Err(cause) => {
                    return Err(MigrationError::MigrationFailed { migration: m, cause });
                },
            }
        },
    }
    store.applied.push(AppliedMigration { migration: m, applied_at: now });
    proof {
        let w = store@;
        assert forall|i: int, j: int|
            0 <= i < j < w.applied.len() implies w.applied[i].migration
            != w.applied[j].migration by {
            if j == v.applied.len() {
                assert(w.applied[i] == v.applied[i]);
            } else {
                assert(w.applied[i] == v.applied[i]);
                assert(w.applied[j] == v.applied[j]);
            }
        }
        assert(w.applied =~= v.applied.push(AppliedMigration { migration: m, applied_at: now }));
    }
    Ok(())
}

} // verus!
