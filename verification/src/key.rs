use vstd::prelude::*;

verus! {

/// Number of bytes in a public key.
pub const PUBLIC_KEY_LENGTH: usize = 32;

/// The identity of a wallet and of the author of a transaction.
#[derive(Clone, Copy, Debug, Hash)]
pub struct PublicKey {
    /// The bytes of the key.
    pub bytes: [u8; PUBLIC_KEY_LENGTH],
}

/// Lexicographic order on keys: at the first byte where the two keys differ,
/// the smaller key has the smaller byte.
pub open spec fn key_lt(a: PublicKey, b: PublicKey) -> bool {
    exists|i: int|
        0 <= i < PUBLIC_KEY_LENGTH && #[trigger] a.bytes[i] < b.bytes[i] && forall|j: int|
            0 <= j < i ==> a.bytes[j] == b.bytes[j]
}

impl PublicKey {
    /// Makes a key of its 32 bytes.
    pub fn new(bytes: [u8; PUBLIC_KEY_LENGTH]) -> (key: PublicKey)
        ensures
            key.bytes == bytes,
    {
        PublicKey { bytes }
    }

    /// The key whose bytes are those of `slice`, where they are as many as a
    /// key has.
    pub fn from_slice(slice: &[u8]) -> (key: Option<PublicKey>)
        ensures
            match key {
                Some(key) => key.bytes@ == slice@,
                None => slice@.len() != PUBLIC_KEY_LENGTH,
            },
    {
        if slice.len() != PUBLIC_KEY_LENGTH {
            return None;
        }
        let mut bytes = [0u8; PUBLIC_KEY_LENGTH];
        let mut i: usize = 0;
        while i < PUBLIC_KEY_LENGTH
            invariant
                0 <= i <= PUBLIC_KEY_LENGTH,
                slice@.len() == PUBLIC_KEY_LENGTH,
                forall|j: int| 0 <= j < i ==> bytes[j] == slice@[j],
            decreases PUBLIC_KEY_LENGTH - i,
        {
            bytes[i] = slice[i];
            i += 1;
        }
        assert(bytes@ =~= slice@);
        Some(PublicKey { bytes })
    }

    /// True if `self` comes before `other` in the order of keys.
    pub fn precedes(&self, other: &PublicKey) -> (r: bool)
        ensures
            r == key_lt(*self, *other),
    {
        let mut i: usize = 0;
        while i < PUBLIC_KEY_LENGTH
            invariant
                0 <= i <= PUBLIC_KEY_LENGTH,
                forall|j: int| 0 <= j < i ==> self.bytes[j] == other.bytes[j],
            decreases PUBLIC_KEY_LENGTH - i,
        {
            if self.bytes[i] < other.bytes[i] {
                return true;
            }
            if self.bytes[i] > other.bytes[i] {
                return false;
            }
            i += 1;
        }
        false
    }
}

/// No key comes before itself.
pub proof fn lemma_key_lt_irreflexive(a: PublicKey)
    ensures
        !key_lt(a, a),
{
}

/// The order of keys is transitive.
pub proof fn lemma_key_lt_transitive(a: PublicKey, b: PublicKey, c: PublicKey)
    requires
        key_lt(a, b),
        key_lt(b, c),
    ensures
        key_lt(a, c),
{
    let i = choose|i: int|
        0 <= i < PUBLIC_KEY_LENGTH && #[trigger] a.bytes[i] < b.bytes[i] && forall|j: int|
            0 <= j < i ==> a.bytes[j] == b.bytes[j];
    let k = choose|k: int|
        0 <= k < PUBLIC_KEY_LENGTH && #[trigger] b.bytes[k] < c.bytes[k] && forall|j: int|
            0 <= j < k ==> b.bytes[j] == c.bytes[j];
    let m = if i <= k { i } else { k };
    assert(a.bytes[m] < c.bytes[m]);
    assert(forall|j: int| 0 <= j < m ==> a.bytes[j] == c.bytes[j]);
}

/// Of two different keys, one comes before the other.
pub proof fn lemma_key_lt_total(a: PublicKey, b: PublicKey)
    ensures
        a == b || key_lt(a, b) || key_lt(b, a),
{
    if a != b {
        lemma_first_difference(a, b, 0);
    }
}

/// Two keys that agree on their first `n` bytes and are not equal are
/// ordered one way or the other.
proof fn lemma_first_difference(a: PublicKey, b: PublicKey, n: int)
    requires
        0 <= n <= PUBLIC_KEY_LENGTH,
        a != b,
        forall|j: int| 0 <= j < n ==> a.bytes[j] == b.bytes[j],
    ensures
        key_lt(a, b) || key_lt(b, a),
    decreases PUBLIC_KEY_LENGTH - n,
{
    if n == PUBLIC_KEY_LENGTH {
        assert(a.bytes =~= b.bytes);
    } else if a.bytes[n] < b.bytes[n] {
    } else if b.bytes[n] < a.bytes[n] {
    } else {
        lemma_first_difference(a, b, n + 1);
    }
}

impl PartialEq for PublicKey {
    fn eq(&self, other: &PublicKey) -> (r: bool) {
        let mut i: usize = 0;
        while i < PUBLIC_KEY_LENGTH
            invariant
                0 <= i <= PUBLIC_KEY_LENGTH,
                forall|j: int| 0 <= j < i ==> self.bytes[j] == other.bytes[j],
            decreases PUBLIC_KEY_LENGTH - i,
        {
            if self.bytes[i] != other.bytes[i] {
                return false;
            }
            i += 1;
        }
        assert(self.bytes =~= other.bytes);
        true
    }
}

impl Eq for PublicKey {}

impl vstd::std_specs::cmp::PartialEqSpecImpl for PublicKey {
    open spec fn obeys_eq_spec() -> bool {
        true
    }

    open spec fn eq_spec(&self, other: &PublicKey) -> bool {
        *self == *other
    }
}

} // verus!
