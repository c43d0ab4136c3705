use cryptocurrency::{
    AuthoredTransaction, CryptocurrencyApi, CurrencyService, Error, Ledger, PublicKey,
    TxCreateWallet, TxTransfer,
};

fn key(byte: u8) -> PublicKey {
    PublicKey::new([byte; 32])
}

fn history() -> Vec<AuthoredTransaction> {
    let alice = key(1);
    let bob = key(2);
    let carol = key(3);
    vec![
        TxCreateWallet::authored("Alice", &alice),
        TxTransfer::authored(&bob, 10, 0, &alice),
        TxCreateWallet::authored("Bob", &bob),
        TxTransfer::authored(&bob, 10, 1, &alice),
        TxCreateWallet::authored("Alice again", &alice),
        TxTransfer::authored(&alice, 111, 2, &bob),
        TxTransfer::authored(&alice, 110, 3, &bob),
        TxTransfer::authored(&carol, 1, 4, &carol),
        TxTransfer::authored(&alice, 1, 5, &carol),
        TxCreateWallet::authored("Carol", &carol),
        TxTransfer::authored(&carol, 200, 6, &alice),
        TxCreateWallet::authored("Bob again", &bob),
    ]
}

fn balances(ledger: &Ledger) -> Vec<(PublicKey, u64)> {
    CryptocurrencyApi::get_wallets(ledger, ())
        .unwrap()
        .iter()
        .map(|w| (w.pub_key, w.balance))
        .collect()
}

#[test]
fn a_history_gives_these_results_and_balances() {
    let mut ledger = Ledger::new();
    let results = CurrencyService.execute_all(&history(), &mut ledger);
    assert_eq!(
        results,
        vec![
            Ok(()),
            Err(Error::ReceiverNotFound),
            Ok(()),
            Ok(()),
            Err(Error::WalletAlreadyExists),
            Err(Error::InsufficientCurrencyAmount),
            Ok(()),
            Err(Error::SenderSameAsReceiver),
            Err(Error::SenderNotFound),
            Ok(()),
            Ok(()),
            Err(Error::WalletAlreadyExists),
        ]
    );
    assert_eq!(balances(&ledger), vec![(key(1), 0), (key(2), 0), (key(3), 300)]);
}

#[test]
fn two_replicas_agree() {
    let mut one = Ledger::new();
    let mut other = Ledger::new();
    let first = CurrencyService.execute_all(&history(), &mut one);
    // The other replica executes the same transactions one by one.
    let mut second = Vec::new();
    for tx in history() {
        second.push(CurrencyService.execute(&tx, &mut other));
    }
    assert_eq!(first, second);
    let codes = |results: &Vec<Result<(), Error>>| -> Vec<Option<u8>> {
        results.iter().map(|r| r.err().map(|e| e.code())).collect()
    };
    assert_eq!(codes(&first), codes(&second));
    assert_eq!(
        CryptocurrencyApi::get_wallets(&one, ()),
        CryptocurrencyApi::get_wallets(&other, ())
    );
}

#[test]
fn an_accepted_transfer_conserves_the_sum_of_the_two_balances() {
    let mut ledger = Ledger::new();
    let alice = key(1);
    let bob = key(2);
    CurrencyService.execute_all(
        &vec![TxCreateWallet::authored("Alice", &alice), TxCreateWallet::authored("Bob", &bob)],
        &mut ledger,
    );
    for amount in [0u64, 1, 37, 62, 0] {
        let before = ledger.wallets.get(&alice).unwrap().balance
            + ledger.wallets.get(&bob).unwrap().balance;
        let tx = TxTransfer { to: bob, amount, seed: amount };
        assert_eq!(tx.execute(&alice, &mut ledger), Ok(()));
        let after = ledger.wallets.get(&alice).unwrap().balance
            + ledger.wallets.get(&bob).unwrap().balance;
        assert_eq!(before, after);
        assert_eq!(after, 200);
    }
    assert_eq!(ledger.wallets.get(&alice).unwrap().balance, 0);
    assert_eq!(ledger.wallets.get(&bob).unwrap().balance, 200);
}

#[test]
fn the_sum_of_all_balances_grows_by_new_wallets_only() {
    let mut ledger = Ledger::new();
    let mut wallets: u128 = 0;
    for tx in history() {
        let before = ledger.wallets.total_supply();
        let result = CurrencyService.execute(&tx, &mut ledger);
        let after = ledger.wallets.total_supply();
        let created = result.is_ok()
            && matches!(tx.payload, cryptocurrency::CurrencyTransactions::CreateWallet(_));
        if created {
            wallets += 1;
            assert_eq!(after, before + 100);
        } else {
            assert_eq!(after, before);
        }
        assert_eq!(after, 100 * wallets);
    }
    assert_eq!(wallets, 3);
}

#[test]
fn a_wallet_is_created_once() {
    let mut ledger = Ledger::new();
    let alice = key(1);
    let mut accepted = 0;
    for name in ["Alice", "Alice", "Someone else", ""] {
        match (TxCreateWallet { name: name.to_owned() }).execute(&alice, &mut ledger) {
            Ok(()) => accepted += 1,
            Err(error) => assert_eq!(error, Error::WalletAlreadyExists),
        }
    }
    assert_eq!(accepted, 1);
    assert_eq!(ledger.wallets.get(&alice).unwrap().name, "Alice");
    assert_eq!(ledger.wallets.get(&alice).unwrap().balance, 100);
}

#[test]
fn a_refused_transaction_changes_nothing() {
    let mut ledger = Ledger::new();
    let alice = key(1);
    let bob = key(2);
    let carol = key(3);
    CurrencyService.execute_all(
        &vec![TxCreateWallet::authored("Alice", &alice), TxCreateWallet::authored("Bob", &bob)],
        &mut ledger,
    );
    let before = CryptocurrencyApi::get_wallets(&ledger, ()).unwrap();
    let refused = vec![
        TxTransfer::authored(&bob, 101, 0, &alice),
        TxTransfer::authored(&carol, 1, 0, &alice),
        TxTransfer::authored(&alice, 1, 0, &carol),
        TxTransfer::authored(&alice, 1, 0, &alice),
        TxCreateWallet::authored("Bob", &bob),
    ];
    for tx in &refused {
        assert!(CurrencyService.execute(tx, &mut ledger).is_err());
        assert_eq!(CryptocurrencyApi::get_wallets(&ledger, ()).unwrap(), before);
    }
    let results = CurrencyService.execute_all(&refused, &mut ledger);
    assert!(results.iter().all(|r| r.is_err()));
    assert_eq!(CryptocurrencyApi::get_wallets(&ledger, ()).unwrap(), before);
}

#[test]
fn no_balance_goes_below_zero() {
    let mut ledger = Ledger::new();
    let alice = key(1);
    let bob = key(2);
    CurrencyService.execute_all(
        &vec![TxCreateWallet::authored("Alice", &alice), TxCreateWallet::authored("Bob", &bob)],
        &mut ledger,
    );
    assert_eq!(
        TxTransfer { to: bob, amount: 100, seed: 0 }.execute(&alice, &mut ledger),
        Ok(())
    );
    assert_eq!(
        TxTransfer { to: bob, amount: 1, seed: 1 }.execute(&alice, &mut ledger),
        Err(Error::InsufficientCurrencyAmount)
    );
    assert_eq!(
        TxTransfer { to: bob, amount: u64::MAX, seed: 2 }.execute(&alice, &mut ledger),
        Err(Error::InsufficientCurrencyAmount)
    );
    assert_eq!(balances(&ledger), vec![(alice, 0), (bob, 200)]);
}
