use vstd::prelude::*;

use crate::migration::Migration;

verus! {

/// Whether a transaction adds to a balance or takes from it.
#[derive(Clone, Copy, Debug, PartialEq, Eq, Structural)]
pub enum TxKind {
    Deposit,
    Withdraw,
}

/// One immutable, balance-affecting event of the transaction log.
#[derive(Clone, Copy, Debug, PartialEq, Eq, Structural)]
pub struct Transaction {
    pub contract_id: u64,
    pub kind: TxKind,
    pub amount: u64,
}

/// The stored row of one contract.
#[derive(Debug)]
pub struct ContractRow {
    pub id: u64,
    pub owner: String,
    pub balance: u64,
}

/// The marker that a migration was committed, and when.
#[derive(Clone, Copy, Debug, PartialEq, Eq, Structural)]
pub struct AppliedMigration {
    pub migration: Migration,
    pub applied_at: u64,
}

/// A contract row as a mathematical value.
pub struct RowView {
    pub id: u64,
    pub owner: Seq<char>,
    pub balance: u64,
}

/// The whole store as a mathematical value.
pub struct StoreView {
    pub contracts: Seq<RowView>,
    pub log: Seq<Transaction>,
    pub applied: Seq<AppliedMigration>,
}

/// The three tables: contracts by id, the transaction log in order of
/// insertion, and the markers of applied migrations.
#[derive(Debug)]
pub struct Store {
    pub contracts: Vec<ContractRow>,
    pub log: Vec<Transaction>,
    pub applied: Vec<AppliedMigration>,
}

impl View for ContractRow {
    type V = RowView;

    open spec fn view(&self) -> RowView {
        RowView { id: self.id, owner: self.owner@, balance: self.balance }
    }
}

impl View for Store {
    type V = StoreView;

    open spec fn view(&self) -> StoreView {
        StoreView {
            contracts: self.contracts@.map_values(|r: ContractRow| r@),
            log: self.log@,
            applied: self.applied@,
        }
    }
}

/// Sum of the deposits of contract `id` in `log`.
pub open spec fn deposited(log: Seq<Transaction>, id: u64) -> int
    decreases log.len(),
{
    if log.len() == 0 {
        0
    } else {
        let t = log.last();
        deposited(log.drop_last(), id) + if t.contract_id == id && t.kind == TxKind::Deposit {
            t.amount as int
        } else {
            0
        }
    }
}

/// Sum of the withdrawals of contract `id` in `log`.
pub open spec fn withdrawn(log: Seq<Transaction>, id: u64) -> int
    decreases log.len(),
{
    if log.len() == 0 {
        0
    } else {
        let t = log.last();
        withdrawn(log.drop_last(), id) + if t.contract_id == id && t.kind == TxKind::Withdraw {
            t.amount as int
        } else {
            0
        }
    }
}

/// The balance that replaying the log gives contract `id`.
pub open spec fn replayed(log: Seq<Transaction>, id: u64) -> int {
    deposited(log, id) - withdrawn(log, id)
}

/// Whether some row has id `id`.
pub open spec fn has_id(rows: Seq<RowView>, id: u64) -> bool {
    exists|i: int| 0 <= i < rows.len() && rows[i].id == id
}

/// The position of the row with id `id` (meaningful where `has_id` holds).
pub open spec fn index_of(rows: Seq<RowView>, id: u64) -> int {
    choose|i: int| 0 <= i < rows.len() && rows[i].id == id
}

/// The row with id `id` (meaningful where `has_id` holds).
pub open spec fn row_of(rows: Seq<RowView>, id: u64) -> RowView {
    rows[index_of(rows, id)]
}

impl StoreView {
    /// The store's invariant: ids and migration markers are unique, every
    /// logged amount is positive, and each balance equals its replayed log.
    pub open spec fn wf(self) -> bool {
        &&& forall|i: int, j: int|
            0 <= i < j < self.contracts.len() ==> self.contracts[i].id != self.contracts[j].id
        &&& forall|i: int|
            0 <= i < self.contracts.len() ==> self.contracts[i].balance == replayed(
                self.log,
                #[trigger] self.contracts[i].id,
            )
        &&& forall|k: int|
            0 <= k < self.log.len() ==> #[trigger] self.log[k].amount > 0 && has_id(
                self.contracts,
                self.log[k].contract_id,
            )
        &&& forall|i: int, j: int|
            0 <= i < j < self.applied.len() ==> self.applied[i].migration
                != self.applied[j].migration
    }

    /// Whether migration `m` has a marker.
    pub open spec fn is_applied(self, m: Migration) -> bool {
        exists|i: int| 0 <= i < self.applied.len() && #[trigger] self.applied[i].migration == m
    }
}

/// Appending a transaction of another contract leaves a replayed balance as it was;
/// appending one of the contract moves it by the signed amount.
pub proof fn lemma_replayed_push(log: Seq<Transaction>, t: Transaction, id: u64)
    ensures
        replayed(log.push(t), id) == replayed(log, id) + if t.contract_id != id {
            0
        } else if t.kind == TxKind::Deposit {
            t.amount as int
        } else {
            -(t.amount as int)
        },
{
    assert(log.push(t).drop_last() =~= log);
}

/// A contract with no entry in the log has a replayed balance of zero.
pub proof fn lemma_replayed_absent(log: Seq<Transaction>, id: u64)
    requires
        forall|k: int| 0 <= k < log.len() ==> #[trigger] log[k].contract_id != id,
    ensures
        deposited(log, id) == 0,
        withdrawn(log, id) == 0,
    decreases log.len(),
{
    if log.len() > 0 {
        let pre = log.drop_last();
        assert forall|k: int| 0 <= k < pre.len() implies #[trigger] pre[k].contract_id != id by {
            assert(pre[k] == log[k]);
        }
        lemma_replayed_absent(pre, id);
    }
}

/// In rows with unique ids, the row at `i` is the one found by its id.
pub proof fn lemma_index_unique(rows: Seq<RowView>, i: int)
    requires
        0 <= i < rows.len(),
        forall|a: int, b: int| 0 <= a < b < rows.len() ==> rows[a].id != rows[b].id,
    ensures
        has_id(rows, rows[i].id),
        index_of(rows, rows[i].id) == i,
{
    assert(has_id(rows, rows[i].id));
    let k = index_of(rows, rows[i].id);
    if k < i {
        assert(rows[k].id != rows[i].id);
    } else if k > i {
        assert(rows[i].id != rows[k].id);
    }
}

/// Rows that hold the same ids at the same positions hold the same ids.
pub proof fn lemma_same_ids(a: Seq<RowView>, b: Seq<RowView>)
    requires
        a.len() == b.len(),
        forall|i: int| 0 <= i < a.len() ==> #[trigger] a[i].id == b[i].id,
    ensures
        forall|x: u64| #[trigger] has_id(a, x) == has_id(b, x),
{
    assert forall|x: u64| #[trigger] has_id(a, x) == has_id(b, x) by {
        if has_id(a, x) {
            let i = choose|i: int| 0 <= i < a.len() && a[i].id == x;
            assert(b[i].id == x);
        }
        if has_id(b, x) {
            let i = choose|i: int| 0 <= i < b.len() && b[i].id == x;
            assert(a[i].id == x);
        }
    }
}

impl Store {
    /// An empty store.
    pub fn new() -> (s: Store)
        ensures
            s@.contracts.len() == 0,
            s@.log.len() == 0,
            s@.applied.len() == 0,
            s@.wf(),
    {
        Store { contracts: Vec::new(), log: Vec::new(), applied: Vec::new() }
    }

    /// The position of the row with id `id`, if there is one.
    pub fn find(&self, id: u64) -> (r: Option<usize>)
        requires
            self@.wf(),
        ensures
            r is None <==> !has_id(self@.contracts, id),
            r matches Some(i) ==> i < self@.contracts.len() && i == index_of(self@.contracts, id),
    {
        let mut i: usize = 0;
        while i < self.contracts.len()
            invariant
                self@.wf(),
                i <= self.contracts@.len(),
                forall|j: int| 0 <= j < i ==> self@.contracts[j].id != id,
            decreases self.contracts@.len() - i,
        {
            if self.contracts[i].id == id {
                proof {
                    lemma_index_unique(self@.contracts, i as int);
                }
                return Some(i);
            }
            i = i + 1;
        }
        None
    }

    /// The balance of contract `id`, if it exists.
    pub fn balance_of(&self, id: u64) -> (r: Option<u64>)
        requires
            self@.wf(),
        ensures
            r is None <==> !has_id(self@.contracts, id),
            r matches Some(b) ==> b == row_of(self@.contracts, id).balance,
    {
        match self.find(id) {
            Some(i) => Some(self.contracts[i].balance),
            None => None,
        }
    }

    /// Whether migration `m` was applied.
    pub fn is_applied(&self, m: Migration) -> (r: bool)
        ensures
            r == self@.is_applied(m),
    {
        let mut i: usize = 0;
        while i < self.applied.len()
            invariant
                i <= self.applied@.len(),
                forall|j: int| 0 <= j < i ==> self.applied@[j].migration != m,
            decreases self.applied@.len() - i,
        {
            if self.applied[i].migration == m {
                assert(self.applied@[i as int].migration == m);
                return true;
            }
            i = i + 1;
        }
        false
    }
}

} // verus!
