use vstd::prelude::*;

use crate::store::{
    has_id, index_of, lemma_index_unique, lemma_replayed_absent, lemma_replayed_push,
    lemma_same_ids, replayed, row_of, ContractRow, RowView, Store, StoreView,
    Transaction, TxKind,
};

verus! {

/// How many transactions the history shows.
pub const HISTORY_LEN: usize = 5;

/// Why a deposit or a withdrawal was refused.
#[derive(Clone, Copy, Debug, PartialEq, Eq, Structural)]
pub enum LedgerError {
    /// A zero amount, or one that the balance cannot hold.
    InvalidAmount,
    /// A withdrawal larger than the balance.
    InsufficientFunds,
}

/// The in-memory view of one contract: its identity and cached balance.
#[derive(Debug)]
pub struct Contract {
    pub id: u64,
    pub owner: String,
    pub balance: u64,
}

impl View for Contract {
    type V = RowView;

    open spec fn view(&self) -> RowView {
        RowView { id: self.id, owner: self.owner@, balance: self.balance }
    }
}

/// Whether `c` agrees with the stored row of its id.
pub open spec fn tracks(v: StoreView, c: RowView) -> bool {
    has_id(v.contracts, c.id) && row_of(v.contracts, c.id) == c
}

/// The store and the contract that loading `id` for `owner` gives: the stored
/// row where one exists, else a new row with a zero balance.
pub open spec fn after_load(v: StoreView, id: u64, owner: Seq<char>) -> (StoreView, RowView) {
    if has_id(v.contracts, id) {
        (v, row_of(v.contracts, id))
    } else {
        let r = RowView { id, owner, balance: 0 };
        (StoreView { contracts: v.contracts.push(r), log: v.log, applied: v.applied }, r)
    }
}

/// The store with the balance of contract `id` set to `balance` and `t` logged.
pub open spec fn with_entry(v: StoreView, id: u64, balance: u64, t: Transaction) -> StoreView {
    let r = row_of(v.contracts, id);
    StoreView {
        contracts: v.contracts.update(
            index_of(v.contracts, id),
            RowView { id: r.id, owner: r.owner, balance },
        ),
        log: v.log.push(t),
        applied: v.applied,
    }
}

/// The outcome of depositing `amount` into contract `id`.
pub open spec fn after_deposit(v: StoreView, id: u64, amount: u64) -> Result<
    StoreView,
    LedgerError,
> {
    let b = row_of(v.contracts, id).balance;
    if amount == 0 || b + amount > u64::MAX {
        Err(LedgerError::InvalidAmount)
    } else {
        Ok(
            with_entry(
                v,
                id,
                (b + amount) as u64,
                Transaction { contract_id: id, kind: TxKind::Deposit, amount },
            ),
        )
    }
}

/// The outcome of withdrawing `amount` from contract `id`.
pub open spec fn after_withdraw(v: StoreView, id: u64, amount: u64) -> Result<
    StoreView,
    LedgerError,
> {
    let b = row_of(v.contracts, id).balance;
    if amount == 0 {
        Err(LedgerError::InvalidAmount)
    } else if amount > b {
        Err(LedgerError::InsufficientFunds)
    } else {
        Ok(
            with_entry(
                v,
                id,
                (b - amount) as u64,
                Transaction { contract_id: id, kind: TxKind::Withdraw, amount },
            ),
        )
    }
}

/// Up to `k` transactions of contract `id`, newest first.
pub open spec fn recent(log: Seq<Transaction>, id: u64, k: nat) -> Seq<Transaction>
    decreases log.len(),
{
    if k == 0 || log.len() == 0 {
        Seq::empty()
    } else if log.last().contract_id == id {
        seq![log.last()] + recent(log.drop_last(), id, (k - 1) as nat)
    } else {
        recent(log.drop_last(), id, k)
    }
}

/// Logging `t` against the row at `i` and setting that row's balance to its
/// new replayed value keeps the store's invariant.
proof fn lemma_entry_keeps_wf(v: StoreView, i: int, balance: u64, t: Transaction)
    requires
        v.wf(),
        0 <= i < v.contracts.len(),
        t.contract_id == v.contracts[i].id,
        t.amount > 0,
        balance == replayed(v.log.push(t), t.contract_id),
    ensures
        with_entry(v, t.contract_id, balance, t).wf(),
        index_of(v.contracts, t.contract_id) == i,
        tracks(
            with_entry(v, t.contract_id, balance, t),
            RowView { id: t.contract_id, owner: v.contracts[i].owner, balance },
        ),
{
    let id = t.contract_id;
    lemma_index_unique(v.contracts, i);
    let w = with_entry(v, id, balance, t);
    assert forall|j: int| 0 <= j < w.contracts.len() implies #[trigger] w.contracts[j].id
        == v.contracts[j].id by {}
    lemma_same_ids(v.contracts, w.contracts);
    assert forall|j: int|
        0 <= j < w.contracts.len() implies w.contracts[j].balance == replayed(
        w.log,
        #[trigger] w.contracts[j].id,
    ) by {
        lemma_replayed_push(v.log, t, w.contracts[j].id);
        if j != i {
            assert(v.contracts[j].id != id);
        }
    }
    assert forall|k: int| 0 <= k < w.log.len() implies #[trigger] w.log[k].amount > 0 && has_id(
        w.contracts,
        w.log[k].contract_id,
    ) by {
        if k < v.log.len() {
            assert(w.log[k] == v.log[k]);
        } else {
            assert(w.log[k] == t);
        }
    }
    lemma_index_unique(w.contracts, i);
}

impl Contract {
    /// Loads the contract `id` from the store, or creates it for `owner` with
    /// a zero balance.
    pub fn load_or_create(store: &mut Store, id: u64, owner: &str) -> (c: Contract)
        requires
            old(store)@.wf(),
        ensures
            (final(store)@, c@) == after_load(old(store)@, id, owner@),
            final(store)@.wf(),
            tracks(final(store)@, c@),
    {
        match store.find(id) {
            Some(i) => {
                let row = &store.contracts[i];
                Contract { id: row.id, owner: row.owner.clone(), balance: row.balance }
            },
            None => {
                let ghost v = store@;
                assert(v.wf());
                let owned = owner.to_owned();
                store.contracts.push(ContractRow { id, owner: owned.clone(), balance: 0 });
                proof {
                    let w = store@;
                    assert(w.contracts =~= v.contracts.push(RowView { id, owner: owner@, balance: 0 }));
                    assert(w.log == v.log);
                    let n = v.contracts.len() as int;
                    assert forall|k: int| 0 <= k < v.log.len() implies #[trigger] v.log[k].contract_id
                        != id by {
                        assert(v.log[k].amount > 0 && has_id(v.contracts, v.log[k].contract_id));
                    }
                    lemma_replayed_absent(v.log, id);
                    assert forall|j: int| 0 <= j < n implies #[trigger] w.contracts[j].id
                        == v.contracts[j].id by {}
                    assert forall|x: u64| has_id(v.contracts, x) implies #[trigger] has_id(
                        w.contracts,
                        x,
                    ) by {
                        let j = choose|j: int| 0 <= j < n && v.contracts[j].id == x;
                        assert(w.contracts[j].id == x);
                    }
                    assert forall|a: int, b: int|
                        0 <= a < b < w.contracts.len() implies w.contracts[a].id
                        != w.contracts[b].id by {
                        if b == n {
                            assert(v.contracts[a].id == w.contracts[a].id);
                        }
                    }
                    assert forall|k: int|
                        0 <= k < w.log.len() implies #[trigger] w.log[k].amount > 0 && has_id(
                        w.contracts,
                        w.log[k].contract_id,
                    ) by {
                        assert(v.log[k].amount > 0 && has_id(v.contracts, v.log[k].contract_id));
                    }
                    lemma_index_unique(w.contracts, n);
                }
                Contract { id, owner: owned, balance: 0 }
            },
        }
    }

    /// The owner and the balance.
    pub fn status(&self) -> (r: (String, u64))
        ensures
            r.0@ == self.owner@,
            r.1 == self.balance,
    {
        (self.owner.clone(), self.balance)
    }

    /// Adds `amount` to the balance and logs a deposit; on an error nothing changes.
    pub fn deposit(&mut self, store: &mut Store, amount: u64) -> (r: Result<(), LedgerError>)
        requires
            old(store)@.wf(),
            tracks(old(store)@, old(self)@),
        ensures
            match after_deposit(old(store)@, old(self).id, amount) {
                Ok(v) => r is Ok && final(store)@ == v,
                Err(e) => r == Err::<(), LedgerError>(e) && final(store)@ == old(store)@
                    && final(self)@ == old(self)@,
            },
            final(store)@.wf(),
            tracks(final(store)@, final(self)@),
            final(self).id == old(self).id,
    {
        if amount == 0 {
            return Err(LedgerError::InvalidAmount);
        }
        let i = store.find(self.id).unwrap();
        let nb = match self.balance.checked_add(amount) {
            Some(nb) => nb,
            None => return Err(LedgerError::InvalidAmount),
        };
        let ghost v = store@;
        let t = Transaction { contract_id: self.id, kind: TxKind::Deposit, amount };
        proof {
            lemma_replayed_push(v.log, t, self.id);
            lemma_entry_keeps_wf(v, i as int, nb, t);
        }
        let row = ContractRow { id: self.id, owner: store.contracts[i].owner.clone(), balance: nb };
        store.contracts.set(i, row);
        store.log.push(t);
        self.balance = nb;
        assert(store@.contracts =~= with_entry(v, self.id, nb, t).contracts);
        Ok(())
    }

    /// Takes `amount` from the balance and logs a withdrawal; on an error
    /// nothing changes.
    pub fn withdraw(&mut self, store: &mut Store, amount: u64) -> (r: Result<(), LedgerError>)
        requires
            old(store)@.wf(),
            tracks(old(store)@, old(self)@),
        ensures
            match after_withdraw(old(store)@, old(self).id, amount) {
                Ok(v) => r is Ok && final(store)@ == v,
                Err(e) => r == Err::<(), LedgerError>(e) && final(store)@ == old(store)@
                    && final(self)@ == old(self)@,
            },
            final(store)@.wf(),
            tracks(final(store)@, final(self)@),
            final(self).id == old(self).id,
    {
        if amount == 0 {
            return Err(LedgerError::InvalidAmount);
        }
        if amount > self.balance {
            return Err(LedgerError::InsufficientFunds);
        }
        let i = store.find(self.id).unwrap();
        let nb = self.balance - amount;
        let ghost v = store@;
        let t = Transaction { contract_id: self.id, kind: TxKind::Withdraw, amount };
        proof {
            lemma_replayed_push(v.log, t, self.id);
            lemma_entry_keeps_wf(v, i as int, nb, t);
        }
        let row = ContractRow { id: self.id, owner: store.contracts[i].owner.clone(), balance: nb };
        store.contracts.set(i, row);
        store.log.push(t);
        self.balance = nb;
        assert(store@.contracts =~= with_entry(v, self.id, nb, t).contracts);
        Ok(())
    }

    /// The most recent transactions of this contract, newest first, at most
    /// `HISTORY_LEN` of them.
    pub fn show_history(&self, store: &Store) -> (r: Vec<Transaction>)
        ensures
            r@ == recent(store@.log, self.id, HISTORY_LEN as nat),
    {
        let mut out: Vec<Transaction> = Vec::new();
        let mut i: usize = store.log.len();
        assert(store.log@.subrange(0, i as int) =~= store.log@);
        assert(out@ + recent(store.log@, self.id, HISTORY_LEN as nat) =~= recent(
            store.log@,
            self.id,
            HISTORY_LEN as nat,
        ));
        while i > 0 && out.len() < HISTORY_LEN
            invariant
                i <= store.log@.len(),
                out@.len() <= HISTORY_LEN,
                out@ + recent(
                    store.log@.subrange(0, i as int),
                    self.id,
                    (HISTORY_LEN - out@.len()) as nat,
                ) == recent(store.log@, self.id, HISTORY_LEN as nat),
            decreases i,
        {
            let ghost pre = store.log@.subrange(0, i as int);
            assert(pre.drop_last() =~= store.log@.subrange(0, i - 1));
            let t = store.log[i - 1];
            if t.contract_id == self.id {
                assert(out@.push(t) + recent(
                    pre.drop_last(),
                    self.id,
                    (HISTORY_LEN - out@.len() - 1) as nat,
                ) =~= out@ + (seq![t] + recent(
                    pre.drop_last(),
                    self.id,
                    (HISTORY_LEN - out@.len() - 1) as nat,
                )));
                out.push(t);
            }
            i = i - 1;
        }
        assert(recent(store.log@.subrange(0, i as int), self.id, (HISTORY_LEN - out@.len()) as nat)
            =~= Seq::<Transaction>::empty());
        assert(out@ + Seq::<Transaction>::empty() =~= out@);
        out
    }
}

} // verus!
