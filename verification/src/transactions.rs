use crate::error::Error;
use crate::key::PublicKey;
use crate::rows::{count_of, lemma_supply_insert, listed, supply_of};
use crate::schema::{CurrencySchema, Ledger};
use crate::wallet::{Wallet, WalletView, INIT_BALANCE};
use vstd::prelude::*;

verus! {

/// The wallet that `wallets` holds for `key`, if it holds one.
pub open spec fn lookup(wallets: Map<PublicKey, WalletView>, key: PublicKey) -> Option<WalletView> {
    if wallets.dom().contains(key) {
        Some(wallets[key])
    } else {
        None
    }
}

/// What a wallet that may be missing holds, as mathematical values.
pub open spec fn shown(wallet: Option<Wallet>) -> Option<WalletView> {
    match wallet {
        Some(wallet) => Some(wallet@),
        None => None,
    }
}

/// Creates the wallet of the author of the transaction.
#[derive(Debug, PartialEq, Eq)]
pub struct TxCreateWallet {
    /// The name of the new wallet.
    pub name: String,
}

/// Moves an amount from the wallet of the author of the transaction to
/// another wallet.
#[derive(Clone, Copy, Debug, PartialEq, Eq)]
pub struct TxTransfer {
    /// The key of the receiver.
    pub to: PublicKey,
    /// The amount to move.
    pub amount: u64,
    /// A number that tells transfers apart that are otherwise the same.
    pub seed: u64,
}

impl Clone for TxCreateWallet {
    fn clone(&self) -> (tx: TxCreateWallet)
        ensures
            tx == *self,
    {
        TxCreateWallet { name: self.name.clone() }
    }
}

impl TxCreateWallet {
    /// The wallet that the transaction creates for `author`.
    pub open spec fn created(&self, author: PublicKey) -> WalletView {
        WalletView { pub_key: author, name: self.name@, balance: INIT_BALANCE as int }
    }

    /// Why the transaction of `author` is refused, if it is, where `existing`
    /// is the wallet that the author has: it is refused where the author has
    /// one.
    pub open spec fn refusal(&self, existing: Option<WalletView>) -> Option<Error> {
        if existing is Some {
            Some(Error::WalletAlreadyExists)
        } else {
            None
        }
    }

    /// What executing the transaction of `author` on `wallets` returns.
    pub open spec fn outcome(&self, wallets: Map<PublicKey, WalletView>, author: PublicKey) -> Result<
        (),
        Error,
    > {
        match self.refusal(lookup(wallets, author)) {
            Some(error) => Err(error),
            None => Ok(()),
        }
    }

    /// The wallets after the transaction of `author` was executed on
    /// `wallets`: with the new wallet where it is accepted, and unchanged
    /// where it is refused.
    pub open spec fn wallets_after(&self, wallets: Map<PublicKey, WalletView>, author: PublicKey) -> Map<
        PublicKey,
        WalletView,
    > {
        if self.outcome(wallets, author) is Ok {
            wallets.insert(author, self.created(author))
        } else {
            wallets
        }
    }

    /// The transaction by which `pk` asks for a wallet with the name `name`.
    pub fn authored(name: &str, pk: &PublicKey) -> (tx: AuthoredTransaction)
        ensures
            tx.author == *pk,
            tx.payload is CreateWallet,
            tx.payload->CreateWallet_0.name@ == name@,
    {
        AuthoredTransaction {
            author: *pk,
            payload: CurrencyTransactions::CreateWallet(TxCreateWallet { name: name.to_owned() }),
        }
    }

    /// An accepted transaction adds one wallet, and its balance to the sum of
    /// all balances; a refused one adds nothing.
    pub proof fn lemma_supply(&self, wallets: Map<PublicKey, WalletView>, author: PublicKey)
        requires
            listed(wallets),
        ensures
            listed(self.wallets_after(wallets, author)),
            self.outcome(wallets, author) is Ok ==> {
                &&& supply_of(self.wallets_after(wallets, author)) == supply_of(wallets) + INIT_BALANCE
                &&& count_of(self.wallets_after(wallets, author)) == count_of(wallets) + 1
            },
            self.outcome(wallets, author) is Err ==> self.wallets_after(wallets, author) == wallets,
    {
        lemma_supply_insert(wallets, author, self.created(author));
    }

    /// Decides on the transaction of `author`, where `existing` is the wallet
    /// that the store holds for the author: the wallet to keep under the
    /// author's key, or the reason for the refusal.
    pub fn create(&self, author: &PublicKey, existing: Option<Wallet>) -> (result: Result<Wallet, Error>)
        ensures
            match result {
                Ok(wallet) => existing is None && wallet@ == self.created(*author),
                Err(error) => self.refusal(shown(existing)) == Some(error),
            },
    {
        match existing {
            None => Ok(Wallet::new(author, &self.name, INIT_BALANCE)),
            Some(_) => Err(Error::WalletAlreadyExists),
        }
    }

    /// Executes the transaction of `author` on `fork`.
    pub fn execute(&self, author: &PublicKey, fork: &mut Ledger) -> (result: Result<(), Error>)
        ensures
            result == self.outcome(old(fork)@, *author),
            final(fork)@ == self.wallets_after(old(fork)@, *author),
            result is Ok ==> supply_of(final(fork)@) == supply_of(old(fork)@) + INIT_BALANCE,
            result is Err ==> *final(fork) == *old(fork),
    {
        proof {
            use_type_invariant(&fork.wallets);
            fork.wallets.lemma_listed();
            self.lemma_supply(fork@, *author);
        }
        let mut schema = CurrencySchema::new(fork);
        let existing = schema.wallet(author);
        match self.create(author, existing) {
            Ok(wallet) => {
                schema.wallets_mut().put(author, wallet);
                Ok(())
            },
            Err(error) => Err(error),
        }
    }
}

impl TxTransfer {
    /// Why the transfer of `author` is refused, if it is, where `sender` and
    /// `receiver` are the wallets that the author and the receiver have. The
    /// reasons are tried in this order, and the first that holds is given.
    pub open spec fn refusal(
        &self,
        author: PublicKey,
        sender: Option<WalletView>,
        receiver: Option<WalletView>,
    ) -> Option<Error> {
        if author == self.to {
            Some(Error::SenderSameAsReceiver)
        } else if sender is None {
            Some(Error::SenderNotFound)
        } else if receiver is None {
            Some(Error::ReceiverNotFound)
        } else if sender->0.balance < self.amount {
            Some(Error::InsufficientCurrencyAmount)
        } else {
            None
        }
    }

    /// What executing the transfer of `author` on `wallets` returns.
    pub open spec fn outcome(&self, wallets: Map<PublicKey, WalletView>, author: PublicKey) -> Result<
        (),
        Error,
    > {
        match self.refusal(author, lookup(wallets, author), lookup(wallets, self.to)) {
            Some(error) => Err(error),
            None => Ok(()),
        }
    }

    /// The wallets after the transfer of `author` was executed on `wallets`:
    /// with the amount moved where it is accepted, and unchanged where it is
    /// refused.
    pub open spec fn wallets_after(&self, wallets: Map<PublicKey, WalletView>, author: PublicKey) -> Map<
        PublicKey,
        WalletView,
    > {
        if self.outcome(wallets, author) is Ok {
            wallets.insert(author, wallets[author].decrease(self.amount as int)).insert(
                self.to,
                wallets[self.to].increase(self.amount as int),
            )
        } else {
            wallets
        }
    }

    /// The balance of `receiver` can take the amount.
    pub open spec fn fits(&self, receiver: WalletView) -> bool {
        receiver.balance + self.amount <= u64::MAX
    }

    /// Where the transfer of `author` is accepted on `wallets`, the balance
    /// of the receiver can take the amount.
    pub open spec fn fits_in(&self, wallets: Map<PublicKey, WalletView>, author: PublicKey) -> bool {
        self.outcome(wallets, author) is Ok ==> self.fits(wallets[self.to])
    }

    /// The transaction by which `pk` asks to move `amount` to the wallet of
    /// `to`.
    pub fn authored(to: &PublicKey, amount: u64, seed: u64, pk: &PublicKey) -> (tx: AuthoredTransaction)
        ensures
            tx == (AuthoredTransaction {
                author: *pk,
                payload: CurrencyTransactions::Transfer(TxTransfer { to: *to, amount, seed }),
            }),
    {
        AuthoredTransaction {
            author: *pk,
            payload: CurrencyTransactions::Transfer(TxTransfer { to: *to, amount, seed }),
        }
    }

    /// An accepted transfer takes from the sender what it gives to the
    /// receiver: the sum of their two balances stays as it was, and no other
    /// wallet changes.
    pub proof fn lemma_conserves(&self, wallets: Map<PublicKey, WalletView>, author: PublicKey)
        requires
            self.outcome(wallets, author) is Ok,
        ensures
            self.wallets_after(wallets, author).dom() == wallets.dom(),
            self.wallets_after(wallets, author)[author] == wallets[author].decrease(self.amount as int),
            self.wallets_after(wallets, author)[self.to] == wallets[self.to].increase(
                self.amount as int,
            ),
            self.wallets_after(wallets, author)[author].balance + self.wallets_after(
                wallets,
                author,
            )[self.to].balance == wallets[author].balance + wallets[self.to].balance,
            forall|key: PublicKey|
                wallets.dom().contains(key) && key != author && key != self.to
                    ==> #[trigger] self.wallets_after(wallets, author)[key] == wallets[key],
    {
        assert(self.wallets_after(wallets, author).dom() =~= wallets.dom());
    }

    /// A transfer leaves the sum of all balances, and the number of wallets,
    /// as they were.
    pub proof fn lemma_supply(&self, wallets: Map<PublicKey, WalletView>, author: PublicKey)
        requires
            listed(wallets),
        ensures
            listed(self.wallets_after(wallets, author)),
            supply_of(self.wallets_after(wallets, author)) == supply_of(wallets),
            count_of(self.wallets_after(wallets, author)) == count_of(wallets),
    {
        if self.outcome(wallets, author) is Ok {
            let debited = wallets[author].decrease(self.amount as int);
            let credited = wallets[self.to].increase(self.amount as int);
            lemma_supply_insert(wallets, author, debited);
            lemma_supply_insert(wallets.insert(author, debited), self.to, credited);
        }
    }

    /// Decides on the transfer of `author`, where `sender` and `receiver` are
    /// the wallets that the store holds for the author and for the receiver:
    /// the two wallets to keep under their keys, the sender's first, or the
    /// reason for the refusal. It decides nothing, and returns `None`, where
    /// the transfer would be accepted and the balance of the receiver cannot
    /// take the amount.
    pub fn checked_transfer(
        &self,
        author: &PublicKey,
        sender: Option<Wallet>,
        receiver: Option<Wallet>,
    ) -> (result: Option<Result<(Wallet, Wallet), Error>>)
        ensures
            match result {
                Some(Ok((debited, credited))) => {
                    &&& self.refusal(*author, shown(sender), shown(receiver)) is None
                    &&& self.fits(receiver->0@)
                    &&& debited@ == sender->0@.decrease(self.amount as int)
                    &&& credited@ == receiver->0@.increase(self.amount as int)
                },
                Some(Err(error)) => self.refusal(*author, shown(sender), shown(receiver)) == Some(error),
                None => {
                    &&& self.refusal(*author, shown(sender), shown(receiver)) is None
                    &&& !self.fits(receiver->0@)
                },
            },
    {
        if *author == self.to {
            return Some(Err(Error::SenderSameAsReceiver));
        }
        let sender = match sender {
            Some(wallet) => wallet,
            None => {
                return Some(Err(Error::SenderNotFound));
            },
        };
        let receiver = match receiver {
            Some(wallet) => wallet,
            None => {
                return Some(Err(Error::ReceiverNotFound));
            },
        };
        let amount = self.amount;
        if sender.balance >= amount {
            if amount <= u64::MAX - receiver.balance {
                let sender = sender.decrease(amount);
                let receiver = receiver.increase(amount);
                Some(Ok((sender, receiver)))
            } else {
                None
            }
        } else {
            Some(Err(Error::InsufficientCurrencyAmount))
        }
    }

    /// Decides on the transfer of `author` as `checked_transfer` does, where
    /// the balance of the receiver can take the amount.
    pub fn transfer(&self, author: &PublicKey, sender: Option<Wallet>, receiver: Option<Wallet>) -> (result:
        Result<(Wallet, Wallet), Error>)
        requires
            self.refusal(*author, shown(sender), shown(receiver)) is None ==> self.fits(receiver->0@),
        ensures
            match result {
                Ok((debited, credited)) => {
                    &&& self.refusal(*author, shown(sender), shown(receiver)) is None
                    &&& debited@ == sender->0@.decrease(self.amount as int)
                    &&& credited@ == receiver->0@.increase(self.amount as int)
                },
                Err(error) => self.refusal(*author, shown(sender), shown(receiver)) == Some(error),
            },
    {
        match self.checked_transfer(author, sender, receiver) {
            Some(result) => result,
            None => unreached(),
        }
    }

    /// Executes the transfer of `author` on `fork`. Where the transfer is
    /// accepted, the balance of the receiver must be able to take the amount.
    /// It can wherever the sum of all balances is no more than the greatest
    /// balance that a wallet can have.
    pub fn execute(&self, author: &PublicKey, fork: &mut Ledger) -> (result: Result<(), Error>)
        requires
            self.fits_in(old(fork)@, *author),
        ensures
            result == self.outcome(old(fork)@, *author),
            final(fork)@ == self.wallets_after(old(fork)@, *author),
            supply_of(final(fork)@) == supply_of(old(fork)@),
            result is Ok ==> final(fork)@[*author].balance + final(fork)@[self.to].balance == old(
                fork,
            )@[*author].balance + old(fork)@[self.to].balance,
            result is Err ==> *final(fork) == *old(fork),
    {
        proof {
            use_type_invariant(&fork.wallets);
            fork.wallets.lemma_listed();
            self.lemma_supply(fork@, *author);
        }
        let mut schema = CurrencySchema::new(fork);
        let sender = schema.wallet(author);
        let receiver = schema.wallet(&self.to);
        match self.transfer(author, sender, receiver) {
            Ok((sender, receiver)) => {
                let wallets = schema.wallets_mut();
                wallets.put(author, sender);
                wallets.put(&self.to, receiver);
                Ok(())
            },
            Err(error) => Err(error),
        }
    }
}

/// The transactions of the service.
#[derive(Debug, PartialEq, Eq)]
pub enum CurrencyTransactions {
    /// Creates the wallet of the author.
    CreateWallet(TxCreateWallet),
    /// Moves an amount from the author's wallet to another.
    Transfer(TxTransfer),
}

impl Clone for CurrencyTransactions {
    fn clone(&self) -> (tx: CurrencyTransactions)
        ensures
            tx == *self,
    {
        match self {
            CurrencyTransactions::CreateWallet(tx) => CurrencyTransactions::CreateWallet(tx.clone()),
            CurrencyTransactions::Transfer(tx) => CurrencyTransactions::Transfer(*tx),
        }
    }
}

impl CurrencyTransactions {
    /// What executing the transaction of `author` on `wallets` returns.
    pub open spec fn outcome(&self, wallets: Map<PublicKey, WalletView>, author: PublicKey) -> Result<
        (),
        Error,
    > {
        match self {
            CurrencyTransactions::CreateWallet(tx) => tx.outcome(wallets, author),
            CurrencyTransactions::Transfer(tx) => tx.outcome(wallets, author),
        }
    }

    /// The wallets after the transaction of `author` was executed on
    /// `wallets`.
    pub open spec fn wallets_after(&self, wallets: Map<PublicKey, WalletView>, author: PublicKey) -> Map<
        PublicKey,
        WalletView,
    > {
        match self {
            CurrencyTransactions::CreateWallet(tx) => tx.wallets_after(wallets, author),
            CurrencyTransactions::Transfer(tx) => tx.wallets_after(wallets, author),
        }
    }

    /// Where the transaction of `author` is a transfer that is accepted on
    /// `wallets`, the balance of the receiver can take the amount.
    pub open spec fn fits_in(&self, wallets: Map<PublicKey, WalletView>, author: PublicKey) -> bool {
        match self {
            CurrencyTransactions::CreateWallet(_) => true,
            CurrencyTransactions::Transfer(tx) => tx.fits_in(wallets, author),
        }
    }

    /// What the transaction of `author` adds to the sum of all balances where
    /// it is executed on `wallets`: the balance of a new wallet where it
    /// creates one, and nothing else.
    pub open spec fn issued(&self, wallets: Map<PublicKey, WalletView>, author: PublicKey) -> int {
        match self {
            CurrencyTransactions::CreateWallet(tx) => if tx.outcome(wallets, author) is Ok {
                INIT_BALANCE as int
            } else {
                0
            },
            CurrencyTransactions::Transfer(_) => 0,
        }
    }

    /// Executes the transaction of `author` on `fork`.
    pub fn execute(&self, author: &PublicKey, fork: &mut Ledger) -> (result: Result<(), Error>)
        requires
            self.fits_in(old(fork)@, *author),
        ensures
            result == self.outcome(old(fork)@, *author),
            final(fork)@ == self.wallets_after(old(fork)@, *author),
            supply_of(final(fork)@) == supply_of(old(fork)@) + self.issued(old(fork)@, *author),
            result is Err ==> *final(fork) == *old(fork),
    {
        match self {
            CurrencyTransactions::CreateWallet(tx) => tx.execute(author, fork),
            CurrencyTransactions::Transfer(tx) => tx.execute(author, fork),
        }
    }
}

/// A transaction together with the key of its author, as the host hands it
/// over once it has checked the author's signature.
#[derive(Debug, PartialEq, Eq)]
pub struct AuthoredTransaction {
    /// The key of the author.
    pub author: PublicKey,
    /// What the author asks for.
    pub payload: CurrencyTransactions,
}

impl Clone for AuthoredTransaction {
    fn clone(&self) -> (tx: AuthoredTransaction)
        ensures
            tx == *self,
    {
        AuthoredTransaction { author: self.author, payload: self.payload.clone() }
    }
}

impl AuthoredTransaction {
    /// What executing the transaction on `wallets` returns.
    pub open spec fn outcome(&self, wallets: Map<PublicKey, WalletView>) -> Result<(), Error> {
        self.payload.outcome(wallets, self.author)
    }

    /// The wallets after the transaction was executed on `wallets`.
    pub open spec fn wallets_after(&self, wallets: Map<PublicKey, WalletView>) -> Map<PublicKey, WalletView> {
        self.payload.wallets_after(wallets, self.author)
    }

    /// Where the transaction is a transfer that is accepted on `wallets`, the
    /// balance of the receiver can take the amount.
    pub open spec fn fits_in(&self, wallets: Map<PublicKey, WalletView>) -> bool {
        self.payload.fits_in(wallets, self.author)
    }
}

} // verus!
