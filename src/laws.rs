use vstd::prelude::*;

use crate::ledger::{after_deposit, after_load, after_withdraw, recent, LedgerError};
use crate::migration::{after_migrate, key_of, registered, MigrationError};
use crate::store::{
    deposited, has_id, lemma_index_unique, row_of, withdrawn, StoreView, Transaction,
};

verus! {

/// The transactions of contract `id`, oldest first.
pub open spec fn entries_of(log: Seq<Transaction>, id: u64) -> Seq<Transaction>
    decreases log.len(),
{
    if log.len() == 0 {
        Seq::empty()
    } else if log.last().contract_id == id {
        entries_of(log.drop_last(), id).push(log.last())
    } else {
        entries_of(log.drop_last(), id)
    }
}

/// In a well-formed store the balance of every contract is the sum of its
/// deposits minus the sum of its withdrawals, replayed over the log.
pub proof fn balance_is_replayed_log(v: StoreView, id: u64)
    requires
        v.wf(),
        has_id(v.contracts, id),
    ensures
        row_of(v.contracts, id).balance == deposited(v.log, id) - withdrawn(v.log, id),
{
    let i = choose|i: int| 0 <= i < v.contracts.len() && v.contracts[i].id == id;
    lemma_index_unique(v.contracts, i);
}

/// A withdrawal larger than the balance is refused as insufficient funds.
pub proof fn overdraft_is_refused(v: StoreView, id: u64, amount: u64)
    requires
        amount > row_of(v.contracts, id).balance,
    ensures
        after_withdraw(v, id, amount) == Err::<StoreView, _>(LedgerError::InsufficientFunds),
{
}

/// A zero deposit and a zero withdrawal are both refused as invalid amounts.
pub proof fn zero_amount_is_refused(v: StoreView, id: u64)
    ensures
        after_deposit(v, id, 0) == Err::<StoreView, _>(LedgerError::InvalidAmount),
        after_withdraw(v, id, 0) == Err::<StoreView, _>(LedgerError::InvalidAmount),
{
}

/// Loading the same contract twice gives the same contract and leaves the
/// store as the first load left it.
pub proof fn load_is_idempotent(v: StoreView, id: u64, owner: Seq<char>)
    requires
        v.wf(),
    ensures
        ({
            let (v1, c1) = after_load(v, id, owner);
            let (v2, c2) = after_load(v1, id, owner);
            v2 == v1 && c2 == c1 && c1.id == id
        }),
{
    let (v1, c1) = after_load(v, id, owner);
    if has_id(v.contracts, id) {
        let i = choose|i: int| 0 <= i < v.contracts.len() && v.contracts[i].id == id;
        lemma_index_unique(v.contracts, i);
    } else {
        let n = v.contracts.len() as int;
        assert(v1.contracts[n].id == id);
        assert(has_id(v1.contracts, id));
        let k = choose|k: int| 0 <= k < v1.contracts.len() && v1.contracts[k].id == id;
        if k < n {
            assert(v.contracts[k].id == id);
        }
    }
}

/// Loading a contract after a deposit into it gives the accumulated balance.
pub proof fn load_keeps_deposits(v: StoreView, id: u64, owner: Seq<char>, amount: u64)
    requires
        v.wf(),
        has_id(v.contracts, id),
    ensures
        after_deposit(v, id, amount) matches Ok(w) ==> after_load(w, id, owner).1.balance
            == row_of(v.contracts, id).balance + amount,
{
    if let Ok(w) = after_deposit(v, id, amount) {
        let i = choose|i: int| 0 <= i < v.contracts.len() && v.contracts[i].id == id;
        lemma_index_unique(v.contracts, i);
        assert(w.contracts[i].id == id);
        assert forall|a: int, b: int| 0 <= a < b < w.contracts.len() implies w.contracts[a].id
            != w.contracts[b].id by {
            assert(v.contracts[a].id == w.contracts[a].id);
            assert(v.contracts[b].id == w.contracts[b].id);
        }
        lemma_index_unique(w.contracts, i);
    }
}

/// The history holds the newest `k` transactions of the contract, newest
/// first, or all of them where there are fewer.
pub proof fn history_is_newest_first(log: Seq<Transaction>, id: u64, k: nat)
    ensures
        recent(log, id, k).len() == if k < entries_of(log, id).len() {
            k as int
        } else {
            entries_of(log, id).len() as int
        },
        forall|j: int|
            0 <= j < recent(log, id, k).len() ==> #[trigger] recent(log, id, k)[j] == entries_of(
                log,
                id,
            )[entries_of(log, id).len() - 1 - j],
    decreases log.len(),
{
    if log.len() > 0 && k > 0 {
        let pre = log.drop_last();
        if log.last().contract_id == id {
            history_is_newest_first(pre, id, (k - 1) as nat);
            let e = entries_of(log, id);
            let r = recent(log, id, k);
            assert forall|j: int| 0 <= j < r.len() implies #[trigger] r[j] == e[e.len() - 1 - j] by {
                if j > 0 {
                    assert(r[j] == recent(pre, id, (k - 1) as nat)[j - 1]);
                }
            }
        } else {
            history_is_newest_first(pre, id, k);
        }
    }
}

/// Once there are at least five transactions of a contract, its history holds
/// exactly the last five inserted, newest first.
pub proof fn history_holds_last_five(log: Seq<Transaction>, id: u64)
    requires
        entries_of(log, id).len() >= 5,
    ensures
        recent(log, id, 5).len() == 5,
        forall|j: int|
            0 <= j < 5 ==> #[trigger] recent(log, id, 5)[j] == entries_of(log, id)[entries_of(
                log,
                id,
            ).len() - 1 - j],
{
    history_is_newest_first(log, id, 5);
}

/// A migration that was applied is refused on a second run, so its
/// transformation takes effect once.
pub proof fn migration_runs_once(v: StoreView, filename: Seq<char>, first: u64, second: u64)
    requires
        v.wf(),
    ensures
        after_migrate(v, filename, first) matches Ok(w) ==> after_migrate(w, filename, second)
            == Err::<StoreView, _>(MigrationError::AlreadyApplied),
{
    if let Ok(w) = after_migrate(v, filename, first) {
        let n = w.applied.len() - 1;
        assert(w.applied[n].migration == registered(key_of(filename))->Some_0);
    }
}

} // verus!
