use crate::history::{all_fit, lemma_issuance};
use crate::key::PublicKey;
use crate::rows::supply_of;
use crate::table::WalletTable;
use crate::transactions::AuthoredTransaction;
use crate::wallet::{Wallet, WalletView, INIT_BALANCE};
use vstd::prelude::*;

verus! {

/// The store of the service. A shared reference to it is a snapshot, which any
/// number of readers may hold; an exclusive reference is a fork, which
/// the one transaction that is being executed writes to.
pub struct Ledger {
    /// The table of wallets.
    pub wallets: WalletTable,
}

impl View for Ledger {
    type V = Map<PublicKey, WalletView>;

    /// The wallets of the ledger by key.
    open spec fn view(&self) -> Map<PublicKey, WalletView> {
        self.wallets@
    }
}

impl Ledger {
    /// A ledger without wallets.
    pub fn new() -> (ledger: Ledger)
        ensures
            ledger@ == Map::<PublicKey, WalletView>::empty(),
    {
        Ledger { wallets: WalletTable::new() }
    }

    /// True if the sum of all balances leaves room for `count` new wallets
    /// within the greatest balance that a wallet can have. Any `count`
    /// transactions, or fewer, can then be executed one after the other:
    /// every transfer among them fits.
    pub fn has_room(&self, count: usize) -> (ok: bool)
        ensures
            ok == (supply_of(self@) + INIT_BALANCE * count <= u64::MAX),
            ok ==> forall|txs: Seq<AuthoredTransaction>|
                txs.len() <= count ==> #[trigger] all_fit(self@, txs),
    {
        let supply = self.wallets.total_supply();
        let ok = supply <= u64::MAX as u128 && INIT_BALANCE as u128 * (count as u128) <= u64::MAX as u128
            - supply;
        proof {
            use_type_invariant(&self.wallets);
            self.wallets.lemma_listed();
            self.wallets.lemma_balances();
            if ok {
                assert forall|txs: Seq<AuthoredTransaction>| txs.len() <= count implies #[trigger] all_fit(
                    self@,
                    txs,
                ) by {
                    lemma_issuance(self@, txs);
                }
            }
        }
        ok
    }
}

/// A view of the store: something that a ledger can be read through. A
/// snapshot is one, and so is a fork.
pub trait AsLedger {
    /// The ledger as it is now.
    spec fn ledger(&self) -> Ledger;

    /// The ledger, to read.
    fn as_ledger(&self) -> (ledger: &Ledger)
        ensures
            *ledger == self.ledger(),
    ;
}

impl<'a> AsLedger for &'a Ledger {
    open spec fn ledger(&self) -> Ledger {
        **self
    }

    fn as_ledger(&self) -> (ledger: &Ledger) {
        *self
    }
}

impl<'a> AsLedger for &'a mut Ledger {
    open spec fn ledger(&self) -> Ledger {
        **self
    }

    fn as_ledger(&self) -> (ledger: &Ledger) {
        &**self
    }
}

/// Access to the wallets of the service through a view of the store.
pub struct CurrencySchema<T> {
    /// The view that the schema reads through.
    pub view: T,
}

impl<T: AsLedger> CurrencySchema<T> {
    /// The schema over a view of the store.
    pub fn new(view: T) -> (schema: Self)
        ensures
            schema.view == view,
    {
        CurrencySchema { view }
    }

    /// The table of all wallets.
    pub fn wallets(&self) -> (table: &WalletTable)
        ensures
            *table == self.view.ledger().wallets,
    {
        &self.view.as_ledger().wallets
    }

    /// The wallet of `pub_key`, if it has one.
    pub fn wallet(&self, pub_key: &PublicKey) -> (found: Option<Wallet>)
        ensures
            match found {
                Some(wallet) => self.view.ledger()@.dom().contains(*pub_key) && wallet@
                    == self.view.ledger()@[*pub_key],
                None => !self.view.ledger()@.dom().contains(*pub_key),
            },
    {
        self.wallets().get(pub_key)
    }
}

impl<'a> CurrencySchema<&'a mut Ledger> {
    /// The table of all wallets, to write to. It is the table of the fork as
    /// the fork holds it now; what the caller leaves in it is what the fork
    /// holds afterwards; and the fork that the schema was made over ends as
    /// the schema's view ends.
    pub fn wallets_mut(&mut self) -> (table: &mut WalletTable)
        ensures
            *table == old(self).view.wallets,
            final(self).view.wallets == *final(table),
            *final(final(self).view) == *final(old(self).view),
    {
        &mut self.view.wallets
    }
}

} // verus!
