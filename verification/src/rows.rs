use crate::key::{key_lt, lemma_key_lt_irreflexive, lemma_key_lt_total, lemma_key_lt_transitive, PublicKey};
use crate::wallet::WalletView;
use vstd::prelude::*;

verus! {

/// One row of the table of wallets, as mathematical values: a key and the
/// wallet kept under it.
pub type Row = (PublicKey, WalletView);

/// The keys of `rows` strictly ascend, so that no key occurs twice.
pub open spec fn ascending(rows: Seq<Row>) -> bool {
    forall|i: int, j: int| 0 <= i < j < rows.len() ==> key_lt(#[trigger] rows[i].0, #[trigger] rows[j].0)
}

/// Some row of `rows` has the key `key`.
pub open spec fn has_key(rows: Seq<Row>, key: PublicKey) -> bool {
    exists|i: int| 0 <= i < rows.len() && #[trigger] rows[i].0 == key
}

/// The map from each key of `rows` to the wallet kept under it.
pub open spec fn map_of(rows: Seq<Row>) -> Map<PublicKey, WalletView> {
    Map::new(
        |key: PublicKey| has_key(rows, key),
        |key: PublicKey| rows[choose|i: int| 0 <= i < rows.len() && #[trigger] rows[i].0 == key].1,
    )
}

/// The sum of the balances of `rows`.
pub open spec fn total(rows: Seq<Row>) -> int
    decreases rows.len(),
{
    if rows.len() == 0 {
        0
    } else {
        total(rows.drop_last()) + rows.last().1.balance
    }
}

/// The wallets `wallets` can be written as rows in ascending order of key:
/// they are finitely many.
pub open spec fn listed(wallets: Map<PublicKey, WalletView>) -> bool {
    exists|rows: Seq<Row>| ascending(rows) && #[trigger] map_of(rows) == wallets
}

/// The rows of `wallets` in ascending order of key.
pub open spec fn rows_of(wallets: Map<PublicKey, WalletView>) -> Seq<Row> {
    choose|rows: Seq<Row>| ascending(rows) && #[trigger] map_of(rows) == wallets
}

/// The sum of all balances of `wallets`.
pub open spec fn supply_of(wallets: Map<PublicKey, WalletView>) -> int {
    total(rows_of(wallets))
}

/// The number of `wallets`.
pub open spec fn count_of(wallets: Map<PublicKey, WalletView>) -> nat {
    rows_of(wallets).len()
}

/// No balance of `wallets` is negative.
pub open spec fn no_debt(wallets: Map<PublicKey, WalletView>) -> bool {
    forall|key: PublicKey| wallets.dom().contains(key) ==> (#[trigger] wallets[key]).balance >= 0
}

/// The balance of the wallet that `wallets` holds for `key`, and 0 where it
/// holds none.
pub open spec fn balance_at(wallets: Map<PublicKey, WalletView>, key: PublicKey) -> int {
    if wallets.dom().contains(key) {
        wallets[key].balance
    } else {
        0
    }
}

/// In ascending rows, the wallet that the map gives for the key of a row is
/// the wallet of that row.
pub proof fn lemma_row_of_key(rows: Seq<Row>, i: int)
    requires
        ascending(rows),
        0 <= i < rows.len(),
    ensures
        map_of(rows).dom().contains(rows[i].0),
        map_of(rows)[rows[i].0] == rows[i].1,
{
    let key = rows[i].0;
    let j = choose|j: int| 0 <= j < rows.len() && #[trigger] rows[j].0 == key;
    if j != i {
        lemma_key_lt_irreflexive(key);
    }
}

/// The place of a key among ascending rows: the rows before it have keys
/// that come before the key, and the others do not.
pub proof fn lemma_split(rows: Seq<Row>, key: PublicKey) -> (at: int)
    requires
        ascending(rows),
    ensures
        0 <= at <= rows.len(),
        forall|i: int| 0 <= i < at ==> key_lt(#[trigger] rows[i].0, key),
        forall|i: int| at <= i < rows.len() ==> !key_lt(#[trigger] rows[i].0, key),
    decreases rows.len(),
{
    if rows.len() == 0 {
        0
    } else if key_lt(rows.last().0, key) {
        assert forall|i: int| 0 <= i < rows.len() implies key_lt(#[trigger] rows[i].0, key) by {
            if i < rows.len() - 1 {
                lemma_key_lt_transitive(rows[i].0, rows.last().0, key);
            }
        }
        rows.len() as int
    } else {
        let shorter = rows.drop_last();
        assert forall|i: int, j: int| 0 <= i < j < shorter.len() implies key_lt(
            #[trigger] shorter[i].0,
            #[trigger] shorter[j].0,
        ) by {
            assert(shorter[i] == rows[i] && shorter[j] == rows[j]);
        }
        let at = lemma_split(shorter, key);
        assert forall|i: int| 0 <= i < at implies key_lt(#[trigger] rows[i].0, key) by {
            assert(shorter[i] == rows[i]);
        }
        assert forall|i: int| at <= i < rows.len() implies !key_lt(#[trigger] rows[i].0, key) by {
            if i < rows.len() - 1 {
                assert(shorter[i] == rows[i]);
            }
        }
        at
    }
}

/// A key that splits ascending rows at `at`, and is not the key of the row
/// there, is the key of no row, and comes before the keys of the rows from
/// `at` on.
pub proof fn lemma_absent(rows: Seq<Row>, key: PublicKey, at: int)
    requires
        ascending(rows),
        0 <= at <= rows.len(),
        forall|i: int| 0 <= i < at ==> key_lt(#[trigger] rows[i].0, key),
        forall|i: int| at <= i < rows.len() ==> !key_lt(#[trigger] rows[i].0, key),
        at < rows.len() ==> rows[at].0 != key,
    ensures
        !map_of(rows).dom().contains(key),
        forall|i: int| at <= i < rows.len() ==> key_lt(key, #[trigger] rows[i].0),
{
    assert forall|i: int| at <= i < rows.len() implies key_lt(key, #[trigger] rows[i].0) by {
        if i == at {
            lemma_key_lt_total(key, rows[i].0);
        } else {
            lemma_key_lt_total(key, rows[at].0);
            lemma_key_lt_transitive(key, rows[at].0, rows[i].0);
        }
    }
    if has_key(rows, key) {
        let j = choose|j: int| 0 <= j < rows.len() && #[trigger] rows[j].0 == key;
        lemma_key_lt_irreflexive(key);
    }
}

/// Putting a row into ascending rows, at the place that its key has among
/// theirs, leaves them ascending, adds the row to their map and its balance to
/// their total.
pub proof fn lemma_insert_row(rows: Seq<Row>, at: int, row: Row)
    requires
        ascending(rows),
        0 <= at <= rows.len(),
        forall|i: int| 0 <= i < at ==> key_lt(#[trigger] rows[i].0, row.0),
        forall|i: int| at <= i < rows.len() ==> key_lt(row.0, #[trigger] rows[i].0),
    ensures
        ascending(rows.insert(at, row)),
        map_of(rows.insert(at, row)) == map_of(rows).insert(row.0, row.1),
        total(rows.insert(at, row)) == total(rows) + row.1.balance,
{
    let longer = rows.insert(at, row);
    assert forall|i: int, j: int| 0 <= i < j < longer.len() implies key_lt(
        #[trigger] longer[i].0,
        #[trigger] longer[j].0,
    ) by {
        let i0 = if i < at { i } else { i - 1 };
        let j0 = if j < at { j } else { j - 1 };
        if i != at && j != at {
            assert(longer[i] == rows[i0] && longer[j] == rows[j0]);
        } else if i == at {
            assert(longer[j] == rows[j0]);
        } else {
            assert(longer[i] == rows[i0]);
        }
    }
    let m1 = map_of(longer);
    let m2 = map_of(rows).insert(row.0, row.1);
    assert forall|key: PublicKey| m1.dom().contains(key) <==> m2.dom().contains(key) by {
        if has_key(longer, key) {
            let i = choose|i: int| 0 <= i < longer.len() && #[trigger] longer[i].0 == key;
            if i < at {
                assert(rows[i].0 == key);
            } else if i > at {
                assert(rows[i - 1].0 == key);
            }
        }
        if has_key(rows, key) {
            let i = choose|i: int| 0 <= i < rows.len() && #[trigger] rows[i].0 == key;
            if i < at {
                assert(longer[i].0 == key);
            } else {
                assert(longer[i + 1].0 == key);
            }
        }
        if key == row.0 {
            assert(longer[at].0 == key);
        }
    }
    assert forall|key: PublicKey| m1.dom().contains(key) implies m1[key] == m2[key] by {
        let i = choose|i: int| 0 <= i < longer.len() && #[trigger] longer[i].0 == key;
        lemma_row_of_key(longer, i);
        if i != at {
            let i0 = if i < at { i } else { i - 1 };
            assert(longer[i] == rows[i0]);
            lemma_row_of_key(rows, i0);
            lemma_key_lt_irreflexive(key);
        }
    }
    assert(m1 =~= m2);
    lemma_total_insert(rows, at, row);
}

/// Putting another wallet under the key of a row leaves ascending rows
/// ascending, changes their map at that key and their total by the difference
/// of the two balances.
pub proof fn lemma_update_row(rows: Seq<Row>, at: int, wallet: WalletView)
    requires
        ascending(rows),
        0 <= at < rows.len(),
    ensures
        ascending(rows.update(at, (rows[at].0, wallet))),
        map_of(rows.update(at, (rows[at].0, wallet))) == map_of(rows).insert(rows[at].0, wallet),
        total(rows.update(at, (rows[at].0, wallet))) == total(rows) - rows[at].1.balance
            + wallet.balance,
{
    let changed = rows.update(at, (rows[at].0, wallet));
    assert forall|i: int, j: int| 0 <= i < j < changed.len() implies key_lt(
        #[trigger] changed[i].0,
        #[trigger] changed[j].0,
    ) by {
        assert(changed[i].0 == rows[i].0 && changed[j].0 == rows[j].0);
    }
    let m1 = map_of(changed);
    let m2 = map_of(rows).insert(rows[at].0, wallet);
    assert forall|key: PublicKey| m1.dom().contains(key) <==> m2.dom().contains(key) by {
        if has_key(changed, key) {
            let i = choose|i: int| 0 <= i < changed.len() && #[trigger] changed[i].0 == key;
            assert(rows[i].0 == key);
        }
        if has_key(rows, key) {
            let i = choose|i: int| 0 <= i < rows.len() && #[trigger] rows[i].0 == key;
            assert(changed[i].0 == key);
        }
        if key == rows[at].0 {
            assert(changed[at].0 == key);
        }
    }
    assert forall|key: PublicKey| m1.dom().contains(key) implies m1[key] == m2[key] by {
        let i = choose|i: int| 0 <= i < changed.len() && #[trigger] changed[i].0 == key;
        lemma_row_of_key(changed, i);
        if i != at {
            assert(changed[i] == rows[i]);
            lemma_row_of_key(rows, i);
            lemma_key_lt_irreflexive(key);
        }
    }
    assert(m1 =~= m2);
    lemma_total_update(rows, at, (rows[at].0, wallet));
}

/// A row put among others adds its balance to their total.
proof fn lemma_total_insert(rows: Seq<Row>, at: int, row: Row)
    requires
        0 <= at <= rows.len(),
    ensures
        total(rows.insert(at, row)) == total(rows) + row.1.balance,
    decreases rows.len(),
{
    let longer = rows.insert(at, row);
    if at == rows.len() {
        assert(longer.drop_last() =~= rows);
    } else {
        assert(longer.drop_last() =~= rows.drop_last().insert(at, row));
        assert(longer.last() == rows.last());
        lemma_total_insert(rows.drop_last(), at, row);
    }
}

/// A row put in place of another changes the total by the difference of the
/// two balances.
proof fn lemma_total_update(rows: Seq<Row>, at: int, row: Row)
    requires
        0 <= at < rows.len(),
    ensures
        total(rows.update(at, row)) == total(rows) - rows[at].1.balance + row.1.balance,
    decreases rows.len(),
{
    let changed = rows.update(at, row);
    if at == rows.len() - 1 {
        assert(changed.drop_last() =~= rows.drop_last());
    } else {
        assert(changed.drop_last() =~= rows.drop_last().update(at, row));
        assert(changed.last() == rows.last());
        lemma_total_update(rows.drop_last(), at, row);
    }
}

/// Ascending rows without their last row still ascend, and their map is the
/// map of all rows without the key of the last.
proof fn lemma_drop_last(rows: Seq<Row>)
    requires
        ascending(rows),
        rows.len() > 0,
    ensures
        ascending(rows.drop_last()),
        map_of(rows.drop_last()) == map_of(rows).remove(rows.last().0),
{
    let shorter = rows.drop_last();
    let last = rows.len() - 1;
    assert forall|i: int, j: int| 0 <= i < j < shorter.len() implies key_lt(
        #[trigger] shorter[i].0,
        #[trigger] shorter[j].0,
    ) by {
        assert(shorter[i] == rows[i] && shorter[j] == rows[j]);
    }
    let m1 = map_of(shorter);
    let m2 = map_of(rows).remove(rows.last().0);
    assert forall|key: PublicKey| m1.dom().contains(key) <==> m2.dom().contains(key) by {
        if has_key(shorter, key) {
            let i = choose|i: int| 0 <= i < shorter.len() && #[trigger] shorter[i].0 == key;
            assert(rows[i].0 == key);
            assert(key_lt(rows[i].0, rows[last].0));
            lemma_key_lt_irreflexive(key);
        }
        if has_key(rows, key) && key != rows.last().0 {
            let i = choose|i: int| 0 <= i < rows.len() && #[trigger] rows[i].0 == key;
            assert(shorter[i].0 == key);
        }
    }
    assert forall|key: PublicKey| m1.dom().contains(key) implies m1[key] == m2[key] by {
        let i = choose|i: int| 0 <= i < shorter.len() && #[trigger] shorter[i].0 == key;
        lemma_row_of_key(shorter, i);
        assert(shorter[i] == rows[i]);
        lemma_row_of_key(rows, i);
    }
    assert(m1 =~= m2);
}

/// Ascending rows are determined by their map: two tables that hold the same
/// wallets hold the same rows in the same order.
pub proof fn lemma_rows_determined(a: Seq<Row>, b: Seq<Row>)
    requires
        ascending(a),
        ascending(b),
        map_of(a) == map_of(b),
    ensures
        a == b,
    decreases a.len(),
{
    if a.len() == 0 || b.len() == 0 {
        if a.len() > 0 {
            lemma_row_of_key(a, 0);
            assert(has_key(b, a[0].0));
        }
        if b.len() > 0 {
            lemma_row_of_key(b, 0);
            assert(has_key(a, b[0].0));
        }
        assert(a =~= b);
    } else {
        let x = a.last();
        let y = b.last();
        lemma_row_of_key(a, a.len() - 1);
        lemma_row_of_key(b, b.len() - 1);
        assert(has_key(b, x.0));
        assert(has_key(a, y.0));
        let j = choose|j: int| 0 <= j < b.len() && #[trigger] b[j].0 == x.0;
        let i = choose|i: int| 0 <= i < a.len() && #[trigger] a[i].0 == y.0;
        if j < b.len() - 1 {
            assert(key_lt(b[j].0, b[b.len() - 1].0));
            if i < a.len() - 1 {
                assert(key_lt(a[i].0, a[a.len() - 1].0));
                lemma_key_lt_transitive(x.0, y.0, x.0);
            }
            lemma_key_lt_irreflexive(x.0);
        }
        assert(x.0 == y.0);
        assert(x == y);
        lemma_drop_last(a);
        lemma_drop_last(b);
        lemma_rows_determined(a.drop_last(), b.drop_last());
        assert(a =~= a.drop_last().push(x));
        assert(b =~= b.drop_last().push(y));
    }
}

/// The rows of the map of ascending rows are those rows.
pub proof fn lemma_rows_of(rows: Seq<Row>)
    requires
        ascending(rows),
    ensures
        listed(map_of(rows)),
        rows_of(map_of(rows)) == rows,
        supply_of(map_of(rows)) == total(rows),
        count_of(map_of(rows)) == rows.len(),
{
    lemma_rows_determined(rows_of(map_of(rows)), rows);
}

/// No wallets have no rows, and the sum of their balances is 0.
pub proof fn lemma_supply_of_none()
    ensures
        listed(Map::<PublicKey, WalletView>::empty()),
        supply_of(Map::<PublicKey, WalletView>::empty()) == 0,
        count_of(Map::<PublicKey, WalletView>::empty()) == 0,
{
    let rows = Seq::<Row>::empty();
    assert(map_of(rows) =~= Map::<PublicKey, WalletView>::empty());
    lemma_rows_of(rows);
}

/// Keeping a wallet under a key changes the sum of all balances by the
/// balance of that wallet less the balance that was kept under the key, and
/// adds one to the number of wallets where none was kept under the key.
pub proof fn lemma_supply_insert(wallets: Map<PublicKey, WalletView>, key: PublicKey, wallet: WalletView)
    requires
        listed(wallets),
    ensures
        listed(wallets.insert(key, wallet)),
        supply_of(wallets.insert(key, wallet)) == supply_of(wallets) - balance_at(wallets, key)
            + wallet.balance,
        count_of(wallets.insert(key, wallet)) == count_of(wallets) + (if wallets.dom().contains(key) {
            0nat
        } else {
            1nat
        }),
{
    let rows = rows_of(wallets);
    let at = lemma_split(rows, key);
    if at < rows.len() && rows[at].0 == key {
        lemma_row_of_key(rows, at);
        lemma_update_row(rows, at, wallet);
        lemma_rows_of(rows.update(at, (key, wallet)));
    } else {
        lemma_absent(rows, key, at);
        lemma_insert_row(rows, at, (key, wallet));
        lemma_rows_of(rows.insert(at, (key, wallet)));
    }
}

/// No balance of `rows` is negative.
spec fn rows_without_debt(rows: Seq<Row>) -> bool {
    forall|k: int| 0 <= k < rows.len() ==> (#[trigger] rows[k]).1.balance >= 0
}

/// Rows without debt are without debt when the last row is left out.
proof fn lemma_drop_last_without_debt(rows: Seq<Row>)
    requires
        rows_without_debt(rows),
        rows.len() > 0,
    ensures
        rows_without_debt(rows.drop_last()),
        rows.last().1.balance >= 0,
{
    let shorter = rows.drop_last();
    assert forall|k: int| 0 <= k < shorter.len() implies (#[trigger] shorter[k]).1.balance >= 0 by {
        assert(shorter[k] == rows[k]);
    }
}

/// Where no balance is negative, the total is not negative.
proof fn lemma_total_not_negative(rows: Seq<Row>)
    requires
        rows_without_debt(rows),
    ensures
        total(rows) >= 0,
    decreases rows.len(),
{
    if rows.len() > 0 {
        lemma_drop_last_without_debt(rows);
        lemma_total_not_negative(rows.drop_last());
    }
}

/// Where no balance is negative, the total of rows is at least the balance
/// of any one of them.
proof fn lemma_total_covers_one(rows: Seq<Row>, i: int)
    requires
        rows_without_debt(rows),
        0 <= i < rows.len(),
    ensures
        total(rows) >= rows[i].1.balance,
    decreases rows.len(),
{
    lemma_drop_last_without_debt(rows);
    if i == rows.len() - 1 {
        lemma_total_not_negative(rows.drop_last());
    } else {
        lemma_total_covers_one(rows.drop_last(), i);
        assert(rows.drop_last()[i] == rows[i]);
    }
}

/// Where no balance is negative, the total of rows is at least the sum of
/// the balances of any two of them.
proof fn lemma_total_covers_two(rows: Seq<Row>, i: int, j: int)
    requires
        rows_without_debt(rows),
        0 <= i < j < rows.len(),
    ensures
        total(rows) >= rows[i].1.balance + rows[j].1.balance,
    decreases rows.len(),
{
    lemma_drop_last_without_debt(rows);
    assert(rows.drop_last()[i] == rows[i]);
    if j == rows.len() - 1 {
        lemma_total_covers_one(rows.drop_last(), i);
    } else {
        lemma_total_covers_two(rows.drop_last(), i, j);
        assert(rows.drop_last()[j] == rows[j]);
    }
}

/// Where no balance is negative, two wallets together hold no more than the
/// sum of all balances.
pub proof fn lemma_supply_covers_two(wallets: Map<PublicKey, WalletView>, a: PublicKey, b: PublicKey)
    requires
        listed(wallets),
        no_debt(wallets),
        wallets.dom().contains(a),
        wallets.dom().contains(b),
        a != b,
    ensures
        wallets[a].balance + wallets[b].balance <= supply_of(wallets),
{
    let rows = rows_of(wallets);
    assert(has_key(rows, a));
    assert(has_key(rows, b));
    let i = choose|i: int| 0 <= i < rows.len() && #[trigger] rows[i].0 == a;
    let j = choose|j: int| 0 <= j < rows.len() && #[trigger] rows[j].0 == b;
    assert forall|k: int| 0 <= k < rows.len() implies (#[trigger] rows[k]).1.balance >= 0 by {
        lemma_row_of_key(rows, k);
    }
    assert(rows_without_debt(rows));
    lemma_row_of_key(rows, i);
    lemma_row_of_key(rows, j);
    if i < j {
        lemma_total_covers_two(rows, i, j);
    } else {
        lemma_total_covers_two(rows, j, i);
    }
}

} // verus!
