use crate::error::Error;
use crate::history::{all_fit, lemma_one_more, outcomes, wallets_after_all};
use crate::rows::supply_of;
use crate::schema::Ledger;
use crate::transactions::AuthoredTransaction;
use vstd::prelude::*;

verus! {

/// The number of the service.
pub const SERVICE_ID: u16 = 1;

/// The cryptocurrency service.
#[derive(Clone, Copy, Debug)]
pub struct CurrencyService;

impl CurrencyService {
    /// The name of the service.
    pub fn service_name(&self) -> (name: &'static str)
        ensures
            name == "cryptocurrency",
    {
        "cryptocurrency"
    }

    /// The number of the service.
    pub fn service_id(&self) -> (id: u16)
        ensures
            id == SERVICE_ID,
    {
        SERVICE_ID
    }

    /// Executes one transaction on `fork`.
    pub fn execute(&self, tx: &AuthoredTransaction, fork: &mut Ledger) -> (result: Result<(), Error>)
        requires
            tx.fits_in(old(fork)@),
        ensures
            result == tx.outcome(old(fork)@),
            final(fork)@ == tx.wallets_after(old(fork)@),
            supply_of(final(fork)@) == supply_of(old(fork)@) + tx.payload.issued(old(fork)@, tx.author),
            result is Err ==> *final(fork) == *old(fork),
    {
        tx.payload.execute(&tx.author, fork)
    }

    /// Executes the transactions `txs` on `fork`, one after the other, and
    /// returns what each of them returned. Each transfer that is accepted must
    /// find that the balance of its receiver can take the amount: all do
    /// where `has_room` of the fork is true for the number of transactions.
    pub fn execute_all(&self, txs: &Vec<AuthoredTransaction>, fork: &mut Ledger) -> (results: Vec<
        Result<(), Error>,
    >)
        requires
            all_fit(old(fork)@, txs@),
        ensures
            final(fork)@ == wallets_after_all(old(fork)@, txs@),
            results@ == outcomes(old(fork)@, txs@),
    {
        let mut results: Vec<Result<(), Error>> = Vec::new();
        let mut i: usize = 0;
        assert(outcomes(old(fork)@, txs@.take(0)) =~= Seq::<Result<(), Error>>::empty());
        while i < txs.len()
            invariant
                0 <= i <= txs@.len(),
                all_fit(old(fork)@, txs@),
                fork@ == wallets_after_all(old(fork)@, txs@.take(i as int)),
                results@ == outcomes(old(fork)@, txs@.take(i as int)),
            decreases txs@.len() - i,
        {
            proof {
                lemma_one_more(old(fork)@, txs@, i as int);
            }
            let result = self.execute(&txs[i], fork);
            results.push(result);
            i += 1;
        }
        assert(txs@.take(i as int) =~= txs@);
        results
    }
}

} // verus!
