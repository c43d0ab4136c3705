use crate::error::Error;
use crate::key::PublicKey;
use crate::rows::{
    count_of, lemma_rows_determined, lemma_supply_covers_two, lemma_supply_of_none, listed, no_debt,
    supply_of,
};
use crate::schema::Ledger;
use crate::transactions::{AuthoredTransaction, CurrencyTransactions};
use crate::wallet::{WalletView, INIT_BALANCE};
use vstd::prelude::*;

verus! {

/// The wallets after the transactions `txs` were executed on `wallets`, one
/// after the other.
pub open spec fn wallets_after_all(wallets: Map<PublicKey, WalletView>, txs: Seq<AuthoredTransaction>) -> Map<
    PublicKey,
    WalletView,
>
    decreases txs.len(),
{
    if txs.len() == 0 {
        wallets
    } else {
        txs.last().wallets_after(wallets_after_all(wallets, txs.drop_last()))
    }
}

/// What executing the transactions `txs` on `wallets`, one after the other,
/// returns for each of them.
pub open spec fn outcomes(wallets: Map<PublicKey, WalletView>, txs: Seq<AuthoredTransaction>) -> Seq<
    Result<(), Error>,
> {
    Seq::new(txs.len(), |i: int| txs[i].outcome(wallets_after_all(wallets, txs.take(i))))
}

/// Each transfer among `txs` that is accepted when its turn comes finds
/// that the balance of its receiver can take the amount.
pub open spec fn all_fit(wallets: Map<PublicKey, WalletView>, txs: Seq<AuthoredTransaction>) -> bool {
    forall|i: int| 0 <= i < txs.len() ==> (#[trigger] txs[i]).fits_in(wallets_after_all(wallets, txs.take(i)))
}

/// Executing one transaction more goes on from the wallets that the ones
/// before it left, and adds what it returns to what they returned.
pub proof fn lemma_one_more(wallets: Map<PublicKey, WalletView>, txs: Seq<AuthoredTransaction>, i: int)
    requires
        0 <= i < txs.len(),
    ensures
        wallets_after_all(wallets, txs.take(i + 1)) == txs[i].wallets_after(
            wallets_after_all(wallets, txs.take(i)),
        ),
        outcomes(wallets, txs.take(i + 1)) == outcomes(wallets, txs.take(i)).push(
            txs[i].outcome(wallets_after_all(wallets, txs.take(i))),
        ),
{
    let longer = txs.take(i + 1);
    assert(longer.drop_last() =~= txs.take(i));
    assert(longer.last() == txs[i]);
    assert forall|j: int| 0 <= j <= i implies #[trigger] longer.take(j) == txs.take(j) by {
        assert(longer.take(j) =~= txs.take(j));
    }
    assert forall|j: int| 0 <= j < i implies #[trigger] txs.take(i).take(j) == txs.take(j) by {
        assert(txs.take(i).take(j) =~= txs.take(j));
    }
    assert(outcomes(wallets, longer) =~= outcomes(wallets, txs.take(i)).push(
        txs[i].outcome(wallets_after_all(wallets, txs.take(i))),
    ));
}

/// A transaction that is refused leaves all wallets as they were.
pub proof fn lemma_refused_changes_nothing(tx: AuthoredTransaction, wallets: Map<PublicKey, WalletView>)
    requires
        tx.outcome(wallets) is Err,
    ensures
        tx.wallets_after(wallets) == wallets,
{
}

/// A transaction removes no wallet, and changes neither the key nor the name
/// that a wallet carries.
pub proof fn lemma_wallet_stays(tx: AuthoredTransaction, wallets: Map<PublicKey, WalletView>, key: PublicKey)
    requires
        wallets.dom().contains(key),
    ensures
        tx.wallets_after(wallets).dom().contains(key),
        tx.wallets_after(wallets)[key].pub_key == wallets[key].pub_key,
        tx.wallets_after(wallets)[key].name == wallets[key].name,
{
}

/// The only wallet that a transaction adds is the wallet of its author, and
/// it adds that wallet where it creates the wallet and is accepted.
pub proof fn lemma_wallet_comes(tx: AuthoredTransaction, wallets: Map<PublicKey, WalletView>, key: PublicKey)
    ensures
        tx.wallets_after(wallets).dom().contains(key) <==> wallets.dom().contains(key) || (key
            == tx.author && tx.payload is CreateWallet && tx.outcome(wallets) is Ok),
{
}

/// A wallet that is there after the first `i` transactions is there after
/// the first `j`, where `j` is not less than `i`.
pub proof fn lemma_wallet_stays_on(
    wallets: Map<PublicKey, WalletView>,
    txs: Seq<AuthoredTransaction>,
    i: int,
    j: int,
    key: PublicKey,
)
    requires
        0 <= i <= j <= txs.len(),
        wallets_after_all(wallets, txs.take(i)).dom().contains(key),
    ensures
        wallets_after_all(wallets, txs.take(j)).dom().contains(key),
    decreases j - i,
{
    if i < j {
        lemma_wallet_stays_on(wallets, txs, i, j - 1, key);
        lemma_one_more(wallets, txs, j - 1);
        lemma_wallet_stays(txs[j - 1], wallets_after_all(wallets, txs.take(j - 1)), key);
    }
}

/// Of the transactions that create the wallet of one author, none but the
/// first can be accepted: each later one is refused because the wallet
/// exists.
pub proof fn lemma_created_once(
    wallets: Map<PublicKey, WalletView>,
    txs: Seq<AuthoredTransaction>,
    i: int,
    j: int,
)
    requires
        0 <= i < j < txs.len(),
        txs[i].payload is CreateWallet,
        txs[j].payload is CreateWallet,
        txs[i].author == txs[j].author,
    ensures
        outcomes(wallets, txs)[j] == Err::<(), Error>(Error::WalletAlreadyExists),
{
    lemma_one_more(wallets, txs, i);
    lemma_wallet_stays_on(wallets, txs, i + 1, j, txs[i].author);
}

/// Among the transactions `txs`, executed on `wallets` one after the other,
/// one creates the wallet of `key` and is accepted.
pub open spec fn created_in(wallets: Map<PublicKey, WalletView>, txs: Seq<AuthoredTransaction>, key: PublicKey) -> bool {
    exists|i: int|
        0 <= i < txs.len() && (#[trigger] txs[i]).author == key && txs[i].payload is CreateWallet
            && outcomes(wallets, txs)[i] is Ok
}

/// A wallet is there after the transactions `txs` if and only if it was
/// there before them or one of them created it and was accepted.
pub proof fn lemma_wallet_iff_created(
    wallets: Map<PublicKey, WalletView>,
    txs: Seq<AuthoredTransaction>,
    key: PublicKey,
)
    ensures
        wallets_after_all(wallets, txs).dom().contains(key) <==> wallets.dom().contains(key)
            || created_in(wallets, txs, key),
    decreases txs.len(),
{
    if txs.len() > 0 {
        let n = txs.len() - 1;
        let shorter = txs.drop_last();
        let before = wallets_after_all(wallets, shorter);
        lemma_wallet_iff_created(wallets, shorter, key);
        lemma_wallet_comes(txs.last(), before, key);
        assert(txs.take(n) =~= shorter);
        assert forall|i: int| 0 <= i < n implies outcomes(wallets, shorter)[i] == outcomes(
            wallets,
            txs,
        )[i] by {
            assert(shorter.take(i) =~= txs.take(i));
        }
        if created_in(wallets, shorter, key) {
            let i = choose|i: int|
                0 <= i < shorter.len() && (#[trigger] shorter[i]).author == key
                    && shorter[i].payload is CreateWallet && outcomes(wallets, shorter)[i] is Ok;
            assert(txs[i] == shorter[i]);
        }
        if created_in(wallets, txs, key) {
            let i = choose|i: int|
                0 <= i < txs.len() && (#[trigger] txs[i]).author == key && txs[i].payload is CreateWallet
                    && outcomes(wallets, txs)[i] is Ok;
            if i < n {
                assert(shorter[i] == txs[i]);
            }
        }
        if key == txs.last().author && txs.last().payload is CreateWallet && txs.last().outcome(before) is Ok {
            assert(txs[n] == txs.last());
        }
    }
}

/// Each wallet of `wallets` is kept under the key that it carries.
pub open spec fn keyed(wallets: Map<PublicKey, WalletView>) -> bool {
    forall|key: PublicKey| wallets.dom().contains(key) ==> (#[trigger] wallets[key]).pub_key == key
}

/// Where each wallet is kept under the key that it carries, each is after
/// the transactions `txs`.
pub proof fn lemma_stays_keyed(wallets: Map<PublicKey, WalletView>, txs: Seq<AuthoredTransaction>)
    requires
        keyed(wallets),
    ensures
        keyed(wallets_after_all(wallets, txs)),
    decreases txs.len(),
{
    if txs.len() > 0 {
        let before = wallets_after_all(wallets, txs.drop_last());
        lemma_stays_keyed(wallets, txs.drop_last());
        let after = txs.last().wallets_after(before);
        assert forall|key: PublicKey| after.dom().contains(key) implies (#[trigger] after[key]).pub_key
            == key by {
            if before.dom().contains(key) {
                assert(before[key].pub_key == key);
            }
        }
    }
}

/// Where no balance is negative, none is after a transaction.
pub proof fn lemma_no_debt_after(tx: AuthoredTransaction, wallets: Map<PublicKey, WalletView>)
    requires
        no_debt(wallets),
    ensures
        no_debt(tx.wallets_after(wallets)),
{
    let after = tx.wallets_after(wallets);
    assert forall|key: PublicKey| after.dom().contains(key) implies (#[trigger] after[key]).balance
        >= 0 by {
        if wallets.dom().contains(key) {
            assert(wallets[key].balance >= 0);
        }
    }
}

/// Where no balance is negative, none ever is, whatever transactions are
/// executed.
pub proof fn lemma_never_in_debt(wallets: Map<PublicKey, WalletView>, txs: Seq<AuthoredTransaction>)
    requires
        no_debt(wallets),
    ensures
        no_debt(wallets_after_all(wallets, txs)),
    decreases txs.len(),
{
    if txs.len() > 0 {
        lemma_never_in_debt(wallets, txs.drop_last());
        lemma_no_debt_after(txs.last(), wallets_after_all(wallets, txs.drop_last()));
    }
}

/// Where the sum of all balances is no more than the greatest balance that a
/// wallet can have, the receiver of an accepted transfer can take the amount.
pub proof fn lemma_fits_within_supply(tx: AuthoredTransaction, wallets: Map<PublicKey, WalletView>)
    requires
        listed(wallets),
        no_debt(wallets),
        supply_of(wallets) <= u64::MAX,
    ensures
        tx.fits_in(wallets),
{
    match tx.payload {
        CurrencyTransactions::CreateWallet(_) => {},
        CurrencyTransactions::Transfer(transfer) => {
            if transfer.outcome(wallets, tx.author) is Ok {
                lemma_supply_covers_two(wallets, tx.author, transfer.to);
            }
        },
    }
}

/// A transaction leaves the wallets finitely many, and adds to the sum of
/// all balances what it issues: the balance of a new wallet for each wallet
/// that it adds.
pub proof fn lemma_supply_after(tx: AuthoredTransaction, wallets: Map<PublicKey, WalletView>)
    requires
        listed(wallets),
    ensures
        listed(tx.wallets_after(wallets)),
        supply_of(tx.wallets_after(wallets)) == supply_of(wallets) + tx.payload.issued(
            wallets,
            tx.author,
        ),
        0 <= tx.payload.issued(wallets, tx.author) <= INIT_BALANCE,
        tx.payload.issued(wallets, tx.author) == INIT_BALANCE * (count_of(tx.wallets_after(wallets))
            - count_of(wallets)),
{
    match tx.payload {
        CurrencyTransactions::CreateWallet(create) => {
            create.lemma_supply(wallets, tx.author);
        },
        CurrencyTransactions::Transfer(transfer) => {
            transfer.lemma_supply(wallets, tx.author);
        },
    }
}

/// Where every transfer among the first `n` transactions fits, and the next
/// transaction fits too when its turn comes, every transfer among the first
/// `n + 1` fits.
proof fn lemma_all_fit_one_more(wallets: Map<PublicKey, WalletView>, txs: Seq<AuthoredTransaction>, n: int)
    requires
        0 <= n < txs.len(),
        all_fit(wallets, txs.take(n)),
        txs[n].fits_in(wallets_after_all(wallets, txs.take(n))),
    ensures
        all_fit(wallets, txs.take(n + 1)),
{
    let now = txs.take(n + 1);
    let before = txs.take(n);
    assert forall|i: int| 0 <= i < now.len() implies (#[trigger] now[i]).fits_in(
        wallets_after_all(wallets, now.take(i)),
    ) by {
        assert(now.take(i) =~= txs.take(i));
        if i < n {
            assert(before.take(i) =~= txs.take(i));
            assert(before[i] == now[i]);
            assert(before[i].fits_in(wallets_after_all(wallets, before.take(i))));
        }
    }
}

/// What `lemma_issuance` says, of the first `n` of the transactions `txs`.
proof fn lemma_issuance_so_far(wallets: Map<PublicKey, WalletView>, txs: Seq<AuthoredTransaction>, n: int)
    requires
        listed(wallets),
        no_debt(wallets),
        0 <= n <= txs.len(),
        supply_of(wallets) + INIT_BALANCE * n <= u64::MAX,
    ensures
        listed(wallets_after_all(wallets, txs.take(n))),
        no_debt(wallets_after_all(wallets, txs.take(n))),
        supply_of(wallets) <= supply_of(wallets_after_all(wallets, txs.take(n))) <= supply_of(wallets)
            + INIT_BALANCE * n,
        all_fit(wallets, txs.take(n)),
    decreases n,
{
    if n == 0 {
        assert(txs.take(0) =~= Seq::<AuthoredTransaction>::empty());
    } else {
        lemma_issuance_so_far(wallets, txs, n - 1);
        let before = wallets_after_all(wallets, txs.take(n - 1));
        let tx = txs[n - 1];
        assert(wallets_after_all(wallets, txs.take(n)) == tx.wallets_after(before)) by {
            lemma_one_more(wallets, txs, n - 1);
        }
        lemma_fits_within_supply(tx, before);
        lemma_supply_after(tx, before);
        lemma_no_debt_after(tx, before);
        lemma_all_fit_one_more(wallets, txs, n - 1);
    }
}

/// Transactions add no more to the sum of all balances than the balance of
/// one new wallet each. Where that much can be added within the greatest
/// balance that a wallet can have, every transfer among them fits.
pub proof fn lemma_issuance(wallets: Map<PublicKey, WalletView>, txs: Seq<AuthoredTransaction>)
    requires
        listed(wallets),
        no_debt(wallets),
        supply_of(wallets) + INIT_BALANCE * txs.len() <= u64::MAX,
    ensures
        listed(wallets_after_all(wallets, txs)),
        no_debt(wallets_after_all(wallets, txs)),
        supply_of(wallets) <= supply_of(wallets_after_all(wallets, txs)) <= supply_of(wallets)
            + INIT_BALANCE * txs.len(),
        all_fit(wallets, txs),
{
    lemma_issuance_so_far(wallets, txs, txs.len() as int);
    assert(txs.take(txs.len() as int) =~= txs);
}

/// Whatever transactions are executed, the sum of all balances grows by the
/// balance of a new wallet for each wallet that they add.
pub proof fn lemma_supply_follows_count(wallets: Map<PublicKey, WalletView>, txs: Seq<AuthoredTransaction>)
    requires
        listed(wallets),
    ensures
        listed(wallets_after_all(wallets, txs)),
        supply_of(wallets_after_all(wallets, txs)) - supply_of(wallets) == INIT_BALANCE * (count_of(
            wallets_after_all(wallets, txs),
        ) - count_of(wallets)),
    decreases txs.len(),
{
    if txs.len() > 0 {
        lemma_supply_follows_count(wallets, txs.drop_last());
        lemma_supply_after(txs.last(), wallets_after_all(wallets, txs.drop_last()));
    }
}

/// On a ledger that began without wallets, the sum of all balances is the
/// balance of a new wallet times the number of wallets.
pub proof fn lemma_supply_from_nothing(txs: Seq<AuthoredTransaction>)
    ensures
        supply_of(wallets_after_all(Map::empty(), txs)) == INIT_BALANCE * count_of(
            wallets_after_all(Map::empty(), txs),
        ),
{
    lemma_supply_of_none();
    lemma_supply_follows_count(Map::empty(), txs);
}

/// Two replicas that hold the same wallets and execute the same
/// transactions end with the same rows in their tables, and return the same
/// result for each transaction.
pub proof fn lemma_replicas_agree(
    a: Ledger,
    b: Ledger,
    a_after: Ledger,
    b_after: Ledger,
    txs: Seq<AuthoredTransaction>,
)
    requires
        a@ == b@,
        a_after.wallets.wf(),
        b_after.wallets.wf(),
        a_after@ == wallets_after_all(a@, txs),
        b_after@ == wallets_after_all(b@, txs),
    ensures
        a_after.wallets.rows() == b_after.wallets.rows(),
        outcomes(a@, txs) == outcomes(b@, txs),
{
    lemma_rows_determined(a_after.wallets.rows(), b_after.wallets.rows());
}

} // verus!
