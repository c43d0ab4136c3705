use crate::key::PublicKey;
use crate::rows::{listed, rows_of};
use crate::schema::{CurrencySchema, Ledger};
use crate::wallet::Wallet;
use vstd::prelude::*;

verus! {

/// Why a query was not answered.
#[derive(Debug, PartialEq, Eq)]
pub enum ApiError {
    /// What was asked for is not there. The message says what.
    NotFound(String),
}

impl Clone for ApiError {
    fn clone(&self) -> (error: ApiError)
        ensures
            error == *self,
    {
        match self {
            ApiError::NotFound(message) => ApiError::NotFound(message.clone()),
        }
    }
}

/// The query for one wallet.
#[derive(Clone, Copy, Debug)]
pub struct WalletQuery {
    /// Public key of the requested wallet.
    pub pub_key: PublicKey,
}

/// The read-only queries of the service. They take a snapshot and cannot
/// write.
#[derive(Clone, Copy, Debug)]
pub struct CryptocurrencyApi;

impl CryptocurrencyApi {
    /// The wallet of the key in the query.
    pub fn get_wallet(snapshot: &Ledger, query: WalletQuery) -> (result: Result<Wallet, ApiError>)
        ensures
            match result {
                Ok(wallet) => snapshot@.dom().contains(query.pub_key) && wallet@
                    == snapshot@[query.pub_key],
                Err(ApiError::NotFound(message)) => !snapshot@.dom().contains(query.pub_key)
                    && message@ == "\"Wallet not found\""@,
            },
    {
        let schema = CurrencySchema::new(snapshot);
        match schema.wallet(&query.pub_key) {
            Some(wallet) => Ok(wallet),
            None => Err(ApiError::NotFound("\"Wallet not found\"".to_owned())),
        }
    }

    /// All wallets, in ascending order of their keys.
    pub fn get_wallets(snapshot: &Ledger, _query: ()) -> (result: Result<Vec<Wallet>, ApiError>)
        ensures
            result is Ok,
            listed(snapshot@),
            result->Ok_0@.len() == rows_of(snapshot@).len(),
            forall|i: int|
                0 <= i < result->Ok_0@.len() ==> (#[trigger] result->Ok_0@[i])@ == rows_of(snapshot@)[i].1,
    {
        let schema = CurrencySchema::new(snapshot);
        let idx = schema.wallets();
        let wallets = idx.values();
        Ok(wallets)
    }
}

} // verus!
