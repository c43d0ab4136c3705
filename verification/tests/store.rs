use cryptocurrency::{
    ApiError, CryptocurrencyApi, CurrencySchema, Ledger, PublicKey, Wallet, WalletQuery,
    WalletTable,
};

fn key(byte: u8) -> PublicKey {
    PublicKey::new([byte; 32])
}

fn key_ending(last: u8) -> PublicKey {
    let mut bytes = [0u8; 32];
    bytes[31] = last;
    PublicKey::new(bytes)
}

#[test]
fn keys_are_equal_by_their_bytes() {
    assert_eq!(key(3), key(3));
    assert_ne!(key(3), key(4));
    assert_ne!(key_ending(1), key_ending(2));
    assert_eq!(key_ending(0), key(0));
    assert_eq!(key(9).bytes, [9u8; 32]);
}

#[test]
fn keys_are_ordered_by_their_first_different_byte() {
    assert!(key(1).precedes(&key(2)));
    assert!(!key(2).precedes(&key(1)));
    assert!(!key(2).precedes(&key(2)));
    assert!(key_ending(1).precedes(&key_ending(2)));
    assert!(!key_ending(2).precedes(&key_ending(1)));
    let mut high_first = [0u8; 32];
    high_first[0] = 1;
    let mut low_first = [255u8; 32];
    low_first[0] = 0;
    assert!(PublicKey::new(low_first).precedes(&PublicKey::new(high_first)));
    assert!(!PublicKey::new(high_first).precedes(&PublicKey::new(low_first)));
}

#[test]
fn key_order_is_the_order_of_byte_strings() {
    let samples = [key(0), key(1), key(200), key_ending(1), key_ending(7), key(255)];
    for a in samples {
        for b in samples {
            assert_eq!(a.precedes(&b), a.bytes < b.bytes);
            assert_eq!(a == b, a.bytes == b.bytes);
        }
    }
}

#[test]
fn empty_table_holds_nothing() {
    let table = WalletTable::new();
    assert_eq!(table.get(&key(1)), None);
    assert!(table.values().is_empty());
    assert_eq!(table.total_supply(), 0);
}

#[test]
fn put_inserts_and_overwrites() {
    let mut table = WalletTable::new();
    table.put(&key(5), Wallet::new(&key(5), "five", 50));
    table.put(&key(3), Wallet::new(&key(3), "three", 30));
    assert_eq!(table.get(&key(5)), Some(Wallet::new(&key(5), "five", 50)));
    assert_eq!(table.get(&key(3)), Some(Wallet::new(&key(3), "three", 30)));
    assert_eq!(table.get(&key(4)), None);
    assert_eq!(table.total_supply(), 80);
    table.put(&key(5), Wallet::new(&key(5), "five again", 1));
    assert_eq!(table.get(&key(5)), Some(Wallet::new(&key(5), "five again", 1)));
    assert_eq!(table.get(&key(3)), Some(Wallet::new(&key(3), "three", 30)));
    assert_eq!(table.values().len(), 2);
    assert_eq!(table.total_supply(), 31);
}

#[test]
fn values_come_in_ascending_order_of_key() {
    let mut table = WalletTable::new();
    for byte in [9u8, 2, 7, 250, 0, 4, 7, 1] {
        table.put(&key(byte), Wallet::new(&key(byte), "w", byte as u64));
    }
    let balances: Vec<u64> = table.values().iter().map(|w| w.balance).collect();
    assert_eq!(balances, vec![0, 1, 2, 4, 7, 9, 250]);
    for byte in [9u8, 2, 7, 250, 0, 4, 1] {
        assert_eq!(table.get(&key(byte)).unwrap().balance, byte as u64);
    }
    assert_eq!(table.get(&key(3)), None);
    assert_eq!(table.get(&key(251)), None);
}

#[test]
fn the_order_of_puts_does_not_show() {
    let mut one = WalletTable::new();
    let mut other = WalletTable::new();
    for byte in [1u8, 2, 3, 4] {
        one.put(&key(byte), Wallet::new(&key(byte), "w", 10));
    }
    for byte in [4u8, 2, 1, 3] {
        other.put(&key(byte), Wallet::new(&key(byte), "w", 10));
    }
    assert_eq!(one.values(), other.values());
}

#[test]
fn a_wallet_is_kept_under_the_key_of_the_put() {
    let mut table = WalletTable::new();
    table.put(&key(1), Wallet::new(&key(2), "two", 20));
    assert_eq!(table.get(&key(1)), Some(Wallet::new(&key(2), "two", 20)));
    assert_eq!(table.get(&key(2)), None);
}

#[test]
fn total_supply_takes_large_balances() {
    let mut table = WalletTable::new();
    table.put(&key(1), Wallet::new(&key(1), "a", u64::MAX));
    table.put(&key(2), Wallet::new(&key(2), "b", u64::MAX));
    table.put(&key(3), Wallet::new(&key(3), "c", 2));
    assert_eq!(table.total_supply(), 2 * (u64::MAX as u128) + 2);
}

#[test]
fn schema_reads_through_a_snapshot_and_writes_through_a_fork() {
    let mut ledger = Ledger::new();
    {
        let mut schema = CurrencySchema::new(&mut ledger);
        assert_eq!(schema.wallet(&key(1)), None);
        schema.wallets_mut().put(&key(1), Wallet::new(&key(1), "one", 11));
        assert_eq!(schema.wallet(&key(1)), Some(Wallet::new(&key(1), "one", 11)));
        assert_eq!(schema.wallets().values().len(), 1);
    }
    let schema = CurrencySchema::new(&ledger);
    assert_eq!(schema.wallet(&key(1)), Some(Wallet::new(&key(1), "one", 11)));
    assert_eq!(schema.wallet(&key(2)), None);
    assert_eq!(schema.wallets().get(&key(1)).unwrap().balance, 11);
}

#[test]
fn has_room_up_to_the_greatest_balance() {
    let mut ledger = Ledger::new();
    assert!(ledger.has_room(0));
    assert!(ledger.has_room(1));
    assert!(ledger.has_room((u64::MAX / 100) as usize));
    assert!(!ledger.has_room((u64::MAX / 100) as usize + 1));
    ledger.wallets.put(&key(1), Wallet::new(&key(1), "one", u64::MAX - 250));
    assert!(ledger.has_room(2));
    assert!(!ledger.has_room(3));
    ledger.wallets.put(&key(2), Wallet::new(&key(2), "two", 251));
    assert!(!ledger.has_room(0));
}

#[test]
fn get_wallet_answers_or_says_not_found() {
    let mut ledger = Ledger::new();
    ledger.wallets.put(&key(1), Wallet::new(&key(1), "one", 11));
    assert_eq!(
        CryptocurrencyApi::get_wallet(&ledger, WalletQuery { pub_key: key(1) }),
        Ok(Wallet::new(&key(1), "one", 11))
    );
    assert_eq!(
        CryptocurrencyApi::get_wallet(&ledger, WalletQuery { pub_key: key(2) }),
        Err(ApiError::NotFound("\"Wallet not found\"".to_owned()))
    );
}

#[test]
fn get_wallets_lists_all_in_order() {
    let mut ledger = Ledger::new();
    assert_eq!(CryptocurrencyApi::get_wallets(&ledger, ()), Ok(vec![]));
    ledger.wallets.put(&key(2), Wallet::new(&key(2), "two", 22));
    ledger.wallets.put(&key(1), Wallet::new(&key(1), "one", 11));
    assert_eq!(
        CryptocurrencyApi::get_wallets(&ledger, ()),
        Ok(vec![Wallet::new(&key(1), "one", 11), Wallet::new(&key(2), "two", 22)])
    );
}

#[test]
fn keys_are_made_of_slices_of_their_length() {
    let bytes: Vec<u8> = (0u8..32).collect();
    let key = PublicKey::from_slice(&bytes).unwrap();
    assert_eq!(&key.bytes[..], &bytes[..]);
    assert_eq!(PublicKey::from_slice(&bytes[..31]), None);
    assert_eq!(PublicKey::from_slice(&[]), None);
    let longer: Vec<u8> = (0u8..33).collect();
    assert_eq!(PublicKey::from_slice(&longer), None);
    assert_eq!(cryptocurrency::key::PUBLIC_KEY_LENGTH, 32);
}
