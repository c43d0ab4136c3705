//! The state-transition function of a small cryptocurrency ledger.
//!
//! A ledger holds one wallet per public key. Two kinds of transaction change
//! it: one creates the wallet of its author, the other moves an amount from the
//! author's wallet to another. Every function that changes the ledger states
//! the new ledger as a function of the old one and of the transaction, so that
//! all replicas that run the same transactions hold the same wallets.
//!
//! - `key`, `wallet`: public keys, ordered by their bytes, and wallets.
//! - `rows`: the wallets as a map, as rows in ascending order of key, and the
//!   sum of their balances.
//! - `table`, `schema`: the table that keeps the wallets, the ledger that
//!   holds the table, and the schema through which it is read and written.
//! - `error`: the reasons for which a transaction is refused, and their codes.
//! - `transactions`: the two transactions, what each of them returns and what
//!   it does to the wallets.
//! - `service`: the service, which executes transactions one after the other.
//! - `history`: what holds of the wallets whatever transactions are executed.
//! - `api`: the read-only queries.

pub mod api;
pub mod error;
pub mod history;
pub mod key;
pub mod rows;
pub mod schema;
pub mod service;
pub mod table;
pub mod transactions;
pub mod wallet;

pub use api::{ApiError, CryptocurrencyApi, WalletQuery};
pub use error::{Error, ExecutionError};
pub use key::PublicKey;
pub use schema::{AsLedger, CurrencySchema, Ledger};
pub use service::{CurrencyService, SERVICE_ID};
pub use table::WalletTable;
pub use transactions::{AuthoredTransaction, CurrencyTransactions, TxCreateWallet, TxTransfer};
pub use wallet::{Wallet, WalletView, INIT_BALANCE};
