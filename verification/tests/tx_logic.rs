use cryptocurrency::{
    CurrencySchema, CurrencyService, Error, Ledger, PublicKey, TxCreateWallet, TxTransfer,
};

fn init_testkit() -> Ledger {
    Ledger::new()
}

fn key(byte: u8) -> PublicKey {
    PublicKey::new([byte; 32])
}

#[test]
fn test_create_wallet() {
    let mut testkit = init_testkit();
    let pub_key = key(1);
    let results = CurrencyService
        .execute_all(&vec![TxCreateWallet::authored("Alice", &pub_key)], &mut testkit);
    assert_eq!(results, vec![Ok(())]);
    let snapshot = &testkit;
    let wallet = CurrencySchema::new(snapshot).wallet(&pub_key).expect("No wallet");

    assert_eq!(wallet.pub_key, pub_key);
    assert_eq!(wallet.name, "Alice");
    assert_eq!(wallet.balance, 100);
}

#[test]
fn test_transfer() {
    let mut testkit = init_testkit();
    let alice_pubkey = key(1);
    let bob_pubkey = key(2);
    let results = CurrencyService.execute_all(
        &vec![
            TxCreateWallet::authored("Alice", &alice_pubkey),
            TxCreateWallet::authored("Bob", &bob_pubkey),
            TxTransfer::authored(
                &bob_pubkey,   // receiver
                10,            // amount
                0,             // seed
                &alice_pubkey, // sender
            ),
        ],
        &mut testkit,
    );
    assert_eq!(results, vec![Ok(()), Ok(()), Ok(())]);

    let wallets = {
        let snapshot = &testkit;
        let schema = CurrencySchema::new(snapshot);
        (schema.wallet(&alice_pubkey), schema.wallet(&bob_pubkey))
    };

    if let (Some(alice_wallet), Some(bob_wallet)) = wallets {
        assert_eq!(alice_wallet.balance, 90);
        assert_eq!(bob_wallet.balance, 110);
    } else {
        panic!("Wallets not persisted");
    }
}

#[test]
fn test_transfer_to_nonexisting_wallet() {
    let mut testkit = init_testkit();
    let alice_pubkey = key(1);
    let bob_pubkey = key(2);
    let results = CurrencyService.execute_all(
        &vec![
            TxCreateWallet::authored("Alice", &alice_pubkey),
            TxTransfer::authored(&bob_pubkey, 10, 0, &alice_pubkey),
            TxCreateWallet::authored("Bob", &bob_pubkey),
        ],
        &mut testkit,
    );
    assert_eq!(results, vec![Ok(()), Err(Error::ReceiverNotFound), Ok(())]);

    let wallets = {
        let snapshot = &testkit;
        let schema = CurrencySchema::new(snapshot);
        (schema.wallet(&alice_pubkey), schema.wallet(&bob_pubkey))
    };

    if let (Some(alice_wallet), Some(bob_wallet)) = wallets {
        assert_eq!(alice_wallet.balance, 100);
        assert_eq!(bob_wallet.balance, 100);
    } else {
        panic!("Wallets not persisted");
    }
}

#[test]
fn create_wallet_on_empty_ledger_gives_initial_balance() {
    let mut fork = Ledger::new();
    let alice = key(0xA1);
    let tx = TxCreateWallet { name: "Alice".to_owned() };
    assert_eq!(tx.execute(&alice, &mut fork), Ok(()));
    let wallet = CurrencySchema::new(&fork).wallet(&alice).unwrap();
    assert_eq!(wallet.balance, 100);
    assert_eq!(wallet.name, "Alice");
    assert_eq!(wallet.pub_key, alice);
    assert_eq!(fork.wallets.total_supply(), 100);
}

#[test]
fn second_create_wallet_is_refused_and_changes_nothing() {
    let mut fork = Ledger::new();
    let alice = key(0xA1);
    let tx = TxCreateWallet { name: "Alice".to_owned() };
    assert_eq!(tx.execute(&alice, &mut fork), Ok(()));
    assert_eq!(tx.execute(&alice, &mut fork), Err(Error::WalletAlreadyExists));
    let again = TxCreateWallet { name: "Alice the second".to_owned() };
    assert_eq!(again.execute(&alice, &mut fork), Err(Error::WalletAlreadyExists));
    let wallet = CurrencySchema::new(&fork).wallet(&alice).unwrap();
    assert_eq!(wallet.balance, 100);
    assert_eq!(wallet.name, "Alice");
    assert_eq!(fork.wallets.values().len(), 1);
}

#[test]
fn transfer_moves_the_amount() {
    let mut fork = Ledger::new();
    let alice = key(0xA1);
    let bob = key(0xB0);
    assert_eq!(TxCreateWallet { name: "Alice".to_owned() }.execute(&alice, &mut fork), Ok(()));
    assert_eq!(TxCreateWallet { name: "Bob".to_owned() }.execute(&bob, &mut fork), Ok(()));
    let tx = TxTransfer { to: bob, amount: 10, seed: 0 };
    assert_eq!(tx.execute(&alice, &mut fork), Ok(()));
    let schema = CurrencySchema::new(&fork);
    assert_eq!(schema.wallet(&alice).unwrap().balance, 90);
    assert_eq!(schema.wallet(&bob).unwrap().balance, 110);
    assert_eq!(schema.wallet(&alice).unwrap().name, "Alice");
    assert_eq!(schema.wallet(&bob).unwrap().name, "Bob");
}

#[test]
fn transfer_to_missing_receiver_is_refused() {
    let mut fork = Ledger::new();
    let alice = key(0xA1);
    let bob = key(0xB0);
    assert_eq!(TxCreateWallet { name: "Alice".to_owned() }.execute(&alice, &mut fork), Ok(()));
    let tx = TxTransfer { to: bob, amount: 10, seed: 0 };
    assert_eq!(tx.execute(&alice, &mut fork), Err(Error::ReceiverNotFound));
    let schema = CurrencySchema::new(&fork);
    assert_eq!(schema.wallet(&alice).unwrap().balance, 100);
    assert_eq!(schema.wallet(&bob), None);
}

#[test]
fn transfer_of_more_than_the_balance_is_refused() {
    let mut fork = Ledger::new();
    let alice = key(0xA1);
    let bob = key(0xB0);
    assert_eq!(TxCreateWallet { name: "Alice".to_owned() }.execute(&alice, &mut fork), Ok(()));
    assert_eq!(TxCreateWallet { name: "Bob".to_owned() }.execute(&bob, &mut fork), Ok(()));
    let tx = TxTransfer { to: bob, amount: 150, seed: 0 };
    assert_eq!(tx.execute(&alice, &mut fork), Err(Error::InsufficientCurrencyAmount));
    let schema = CurrencySchema::new(&fork);
    assert_eq!(schema.wallet(&alice).unwrap().balance, 100);
    assert_eq!(schema.wallet(&bob).unwrap().balance, 100);
}

#[test]
fn transfer_to_oneself_is_refused() {
    let mut fork = Ledger::new();
    let alice = key(0xA1);
    assert_eq!(TxCreateWallet { name: "Alice".to_owned() }.execute(&alice, &mut fork), Ok(()));
    let tx = TxTransfer { to: alice, amount: 5, seed: 0 };
    assert_eq!(tx.execute(&alice, &mut fork), Err(Error::SenderSameAsReceiver));
    assert_eq!(CurrencySchema::new(&fork).wallet(&alice).unwrap().balance, 100);
}

#[test]
fn transfer_from_missing_sender_is_refused() {
    let mut fork = Ledger::new();
    let alice = key(0xA1);
    let bob = key(0xB0);
    assert_eq!(TxCreateWallet { name: "Bob".to_owned() }.execute(&bob, &mut fork), Ok(()));
    let tx = TxTransfer { to: bob, amount: 10, seed: 0 };
    assert_eq!(tx.execute(&alice, &mut fork), Err(Error::SenderNotFound));
    assert_eq!(CurrencySchema::new(&fork).wallet(&bob).unwrap().balance, 100);
}

#[test]
fn refusals_are_tried_in_order() {
    let alice = key(0xA1);
    let bob = key(0xB0);
    // To oneself comes before a missing sender.
    let mut fork = Ledger::new();
    let own = TxTransfer { to: alice, amount: 1000, seed: 0 };
    assert_eq!(own.execute(&alice, &mut fork), Err(Error::SenderSameAsReceiver));
    // A missing sender comes before a missing receiver.
    let tx = TxTransfer { to: bob, amount: 1000, seed: 0 };
    assert_eq!(tx.execute(&alice, &mut fork), Err(Error::SenderNotFound));
    // A missing receiver comes before a balance that is too small.
    assert_eq!(TxCreateWallet { name: "Alice".to_owned() }.execute(&alice, &mut fork), Ok(()));
    assert_eq!(tx.execute(&alice, &mut fork), Err(Error::ReceiverNotFound));
    assert_eq!(TxCreateWallet { name: "Bob".to_owned() }.execute(&bob, &mut fork), Ok(()));
    assert_eq!(tx.execute(&alice, &mut fork), Err(Error::InsufficientCurrencyAmount));
}

#[test]
fn transfer_of_the_whole_balance_and_of_nothing() {
    let mut fork = Ledger::new();
    let alice = key(0xA1);
    let bob = key(0xB0);
    assert_eq!(TxCreateWallet { name: "Alice".to_owned() }.execute(&alice, &mut fork), Ok(()));
    assert_eq!(TxCreateWallet { name: "Bob".to_owned() }.execute(&bob, &mut fork), Ok(()));
    assert_eq!(TxTransfer { to: bob, amount: 0, seed: 1 }.execute(&alice, &mut fork), Ok(()));
    assert_eq!(CurrencySchema::new(&fork).wallet(&alice).unwrap().balance, 100);
    assert_eq!(TxTransfer { to: bob, amount: 100, seed: 2 }.execute(&alice, &mut fork), Ok(()));
    assert_eq!(CurrencySchema::new(&fork).wallet(&alice).unwrap().balance, 0);
    assert_eq!(CurrencySchema::new(&fork).wallet(&bob).unwrap().balance, 200);
    assert_eq!(
        TxTransfer { to: bob, amount: 1, seed: 3 }.execute(&alice, &mut fork),
        Err(Error::InsufficientCurrencyAmount)
    );
    assert_eq!(TxTransfer { to: alice, amount: 101, seed: 4 }.execute(&bob, &mut fork), Ok(()));
    assert_eq!(CurrencySchema::new(&fork).wallet(&alice).unwrap().balance, 101);
    assert_eq!(CurrencySchema::new(&fork).wallet(&bob).unwrap().balance, 99);
}
