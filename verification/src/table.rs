use crate::key::{key_lt, lemma_key_lt_transitive, PublicKey};
use crate::rows::{
    ascending, lemma_absent, lemma_insert_row, lemma_row_of_key, lemma_rows_of, lemma_update_row,
    listed, map_of, rows_of, supply_of, total, Row,
};
use crate::wallet::{Wallet, WalletView};
use vstd::prelude::*;

verus! {

struct Entry {
    key: PublicKey,
    wallet: Wallet,
}

/// The table of wallets by public key. It keeps its rows in ascending order
/// of key.
pub struct WalletTable {
    entries: Vec<Entry>,
}

impl View for WalletTable {
    type V = Map<PublicKey, WalletView>;

    /// The wallets of the table by key.
    open spec fn view(&self) -> Map<PublicKey, WalletView> {
        map_of(self.rows())
    }
}

impl WalletTable {
    /// The rows of the table in the order in which it keeps them.
    pub closed spec fn rows(&self) -> Seq<Row> {
        self.entries@.map_values(|e: Entry| (e.key, e.wallet@))
    }

    /// What holds of every table: its keys ascend.
    #[verifier::type_invariant]
    pub open spec fn wf(&self) -> bool {
        ascending(self.rows())
    }

    /// The wallets of a table are finitely many, and their rows in ascending
    /// order are the rows of the table.
    pub proof fn lemma_listed(&self)
        requires
            self.wf(),
        ensures
            listed(self@),
            rows_of(self@) == self.rows(),
    {
        lemma_rows_of(self.rows());
    }

    /// Every balance of a table is that of a wallet: not negative, and no
    /// more than the greatest balance that a wallet can have.
    pub proof fn lemma_balances(&self)
        ensures
            forall|i: int|
                0 <= i < self.rows().len() ==> 0 <= (#[trigger] self.rows()[i]).1.balance <= u64::MAX,
            forall|key: PublicKey|
                self@.dom().contains(key) ==> 0 <= (#[trigger] self@[key]).balance <= u64::MAX,
    {
    }

    /// An empty table.
    pub fn new() -> (table: WalletTable)
        ensures
            table@ == Map::<PublicKey, WalletView>::empty(),
    {
        let table = WalletTable { entries: Vec::new() };
        assert(table.rows() =~= Seq::<Row>::empty());
        assert(table@ =~= Map::<PublicKey, WalletView>::empty());
        table
    }

    /// The place of `key` among the rows: the number of rows whose key comes
    /// before it.
    fn position(&self, key: &PublicKey) -> (at: usize)
        ensures
            at <= self.rows().len(),
            forall|i: int| 0 <= i < at ==> key_lt(#[trigger] self.rows()[i].0, *key),
            forall|i: int| at <= i < self.rows().len() ==> !key_lt(#[trigger] self.rows()[i].0, *key),
    {
        proof {
            use_type_invariant(self);
        }
        let mut lo: usize = 0;
        let mut hi: usize = self.entries.len();
        while lo < hi
            invariant
                0 <= lo <= hi <= self.rows().len(),
                self.rows().len() == self.entries@.len(),
                ascending(self.rows()),
                forall|i: int| 0 <= i < lo ==> key_lt(#[trigger] self.rows()[i].0, *key),
                forall|i: int| hi <= i < self.rows().len() ==> !key_lt(#[trigger] self.rows()[i].0, *key),
            decreases hi - lo,
        {
            let mid: usize = lo + (hi - lo) / 2;
            let ghost rows = self.rows();
            assert(rows[mid as int].0 == self.entries@[mid as int].key);
            if self.entries[mid].key.precedes(key) {
                assert forall|i: int| 0 <= i < mid + 1 implies key_lt(#[trigger] rows[i].0, *key) by {
                    if i < mid {
                        lemma_key_lt_transitive(rows[i].0, rows[mid as int].0, *key);
                    }
                }
                lo = mid + 1;
            } else {
                assert forall|i: int| mid <= i < rows.len() implies !key_lt(#[trigger] rows[i].0, *key) by {
                    if mid < i && key_lt(rows[i].0, *key) {
                        lemma_key_lt_transitive(rows[mid as int].0, rows[i].0, *key);
                    }
                }
                hi = mid;
            }
        }
        lo
    }

    /// The wallet kept under `key`, if there is one.
    pub fn get(&self, key: &PublicKey) -> (found: Option<Wallet>)
        ensures
            match found {
                Some(wallet) => self@.dom().contains(*key) && wallet@ == self@[*key],
                None => !self@.dom().contains(*key),
            },
    {
        proof {
            use_type_invariant(self);
        }
        let at = self.position(key);
        if at < self.entries.len() && self.entries[at].key == *key {
            proof {
                lemma_row_of_key(self.rows(), at as int);
            }
            Some(self.entries[at].wallet.clone())
        } else {
            proof {
                lemma_absent(self.rows(), *key, at as int);
            }
            None
        }
    }

    /// Keeps `wallet` under `key`, in place of the wallet that was kept there
    /// if there was one.
    pub fn put(&mut self, key: &PublicKey, wallet: Wallet)
        ensures
            final(self)@ == old(self)@.insert(*key, wallet@),
    {
        proof {
            use_type_invariant(&*self);
        }
        let ghost rows = self.rows();
        let at = self.position(key);
        let found = at < self.entries.len() && self.entries[at].key == *key;
        let entry = Entry { key: *key, wallet };
        let mut entries = Vec::new();
        std::mem::swap(&mut entries, &mut self.entries);
        if found {
            proof {
                lemma_row_of_key(rows, at as int);
                lemma_update_row(rows, at as int, entry.wallet@);
            }
            entries[at] = entry;
            assert(entries@.map_values(|e: Entry| (e.key, e.wallet@)) =~= rows.update(
                at as int,
                (*key, entry.wallet@),
            ));
        } else {
            proof {
                lemma_absent(rows, *key, at as int);
                lemma_insert_row(rows, at as int, (*key, entry.wallet@));
            }
            entries.insert(at, entry);
            assert(entries@.map_values(|e: Entry| (e.key, e.wallet@)) =~= rows.insert(
                at as int,
                (*key, entry.wallet@),
            ));
        }
        self.entries = entries;
    }

    /// The sum of all balances of the table.
    pub fn total_supply(&self) -> (sum: u128)
        ensures
            sum == supply_of(self@),
    {
        proof {
            use_type_invariant(self);
            self.lemma_listed();
        }
        let ghost rows = self.rows();
        let mut sum: u128 = 0;
        let mut i: usize = 0;
        assert(rows.take(0) =~= Seq::<Row>::empty());
        while i < self.entries.len()
            invariant
                0 <= i <= self.entries@.len(),
                rows == self.rows(),
                rows.len() == self.entries@.len(),
                sum == total(rows.take(i as int)),
                sum <= i * u64::MAX,
            decreases self.entries@.len() - i,
        {
            proof {
                assert(rows.take(i + 1).drop_last() =~= rows.take(i as int));
                assert((i + 1) * u64::MAX <= u128::MAX) by (nonlinear_arith)
                    requires
                        i + 1 <= u64::MAX,
                ;
            }
            sum = sum + self.entries[i].wallet.balance as u128;
            i += 1;
        }
        assert(rows.take(i as int) =~= rows);
        sum
    }

    /// All wallets of the table, in ascending order of the keys that they
    /// are kept under.
    pub fn values(&self) -> (wallets: Vec<Wallet>)
        ensures
            listed(self@),
            wallets@.len() == rows_of(self@).len(),
            forall|i: int| 0 <= i < wallets@.len() ==> (#[trigger] wallets@[i])@ == rows_of(self@)[i].1,
    {
        proof {
            use_type_invariant(self);
            self.lemma_listed();
        }
        let mut wallets: Vec<Wallet> = Vec::new();
        let mut i: usize = 0;
        while i < self.entries.len()
            invariant
                0 <= i <= self.entries@.len(),
                self.rows().len() == self.entries@.len(),
                wallets@.len() == i,
                forall|j: int| 0 <= j < i ==> (#[trigger] wallets@[j])@ == self.rows()[j].1,
            decreases self.entries@.len() - i,
        {
            wallets.push(self.entries[i].wallet.clone());
            i += 1;
        }
        wallets
    }
}

} // verus!
