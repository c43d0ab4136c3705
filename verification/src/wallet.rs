use crate::key::PublicKey;
use vstd::prelude::*;

verus! {

/// Balance that every newly created wallet starts with.
pub const INIT_BALANCE: u64 = 100;

/// A wallet: the key of its owner, a display name and a balance.
#[derive(Debug, PartialEq, Eq)]
pub struct Wallet {
    /// The key of the owner.
    pub pub_key: PublicKey,
    /// The name of the wallet.
    pub name: String,
    /// What the wallet holds.
    pub balance: u64,
}

/// What a wallet holds, as mathematical values.
pub struct WalletView {
    /// The key of the owner.
    pub pub_key: PublicKey,
    /// The name of the wallet.
    pub name: Seq<char>,
    /// What the wallet holds.
    pub balance: int,
}

impl View for Wallet {
    type V = WalletView;

    open spec fn view(&self) -> WalletView {
        WalletView { pub_key: self.pub_key, name: self.name@, balance: self.balance as int }
    }
}

impl WalletView {
    /// The same wallet with `amount` more on it.
    pub open spec fn increase(self, amount: int) -> WalletView {
        WalletView { balance: self.balance + amount, ..self }
    }

    /// The same wallet with `amount` less on it.
    pub open spec fn decrease(self, amount: int) -> WalletView {
        WalletView { balance: self.balance - amount, ..self }
    }
}

impl Clone for Wallet {
    fn clone(&self) -> (wallet: Wallet)
        ensures
            wallet == *self,
    {
        Wallet { pub_key: self.pub_key, name: self.name.clone(), balance: self.balance }
    }
}

impl Wallet {
    /// Makes a wallet of a key, a name and a balance.
    pub fn new(pub_key: &PublicKey, name: &str, balance: u64) -> (wallet: Wallet)
        ensures
            wallet@ == (WalletView { pub_key: *pub_key, name: name@, balance: balance as int }),
    {
        Wallet { pub_key: *pub_key, name: name.to_owned(), balance }
    }

    /// Returns the wallet with `amount` added to its balance.
    pub fn increase(self, amount: u64) -> (wallet: Wallet)
        requires
            self.balance + amount <= u64::MAX,
        ensures
            wallet@ == self@.increase(amount as int),
    {
        let balance = self.balance + amount;
        Self::new(&self.pub_key, &self.name, balance)
    }

    /// Returns the wallet with `amount` taken from its balance.
    pub fn decrease(self, amount: u64) -> (wallet: Wallet)
        requires
            self.balance >= amount,
        ensures
            wallet@ == self@.decrease(amount as int),
    {
        let balance = self.balance - amount;
        Self::new(&self.pub_key, &self.name, balance)
    }
}

} // verus!
