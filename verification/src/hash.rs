//! Block and transaction hashes, account addresses, and the SHA-256 digest
//! from which addresses are made.

use vstd::prelude::*;

verus! {

/// The number that `bytes` write in base 256, most significant byte first.
pub open spec fn be_value(bytes: Seq<u8>) -> nat
    decreases bytes.len(),
{
    if bytes.len() == 0 {
        0
    } else {
        be_value(bytes.drop_last()) * 256 + bytes.last() as nat
    }
}

/// Two byte strings that first differ at position `at` compare, as numbers,
/// as the bytes there do.
pub(crate) proof fn lemma_first_difference_decides(a: Seq<u8>, b: Seq<u8>, at: int)
    requires
        0 <= at < a.len(),
        a.len() == b.len(),
        a.take(at) == b.take(at),
        a[at] < b[at],
    ensures
        be_value(a) < be_value(b),
    decreases a.len(),
{
    if at == a.len() - 1 {
        assert(a.drop_last() == a.take(at));
        assert(b.drop_last() == b.take(at));
    } else {
        assert(a.drop_last().take(at) == a.take(at));
        assert(b.drop_last().take(at) == b.take(at));
        lemma_first_difference_decides(a.drop_last(), b.drop_last(), at);
    }
}

/// A 256-bit hash.
#[derive(Clone, Copy, Debug, PartialEq, Eq, Hash)]
pub struct H256 {
    pub bytes: [u8; 32],
}

/// A 160-bit account address.
#[derive(Clone, Copy, Debug, PartialEq, Eq, Hash)]
pub struct H160 {
    pub bytes: [u8; 20],
}

impl H256 {
    /// The hash read as a number, most significant byte first.
    pub open spec fn value(self) -> nat {
        be_value(self.bytes@)
    }

    /// The hash whose bytes are `digest`.
    pub fn from_digest(digest: &Vec<u8>) -> (hash: H256)
        requires
            digest@.len() == 32,
        ensures
            hash.bytes@ == digest@,
    {
        let mut bytes: [u8; 32] = [0u8;32];
        let mut i: usize = 0;
        while i < 32
            invariant
                i <= 32,
                digest@.len() == 32,
                bytes@.take(i as int) == digest@.take(i as int),
            decreases 32 - i,
        {
            let ghost before = bytes@;
            bytes[i] = digest[i];
            assert(bytes@.take(i + 1) =~= before.take(i as int).push(digest@[i as int]));
            assert(digest@.take(i + 1) =~= digest@.take(i as int).push(digest@[i as int]));
            i = i + 1;
        }
        assert(bytes@ =~= bytes@.take(32));
        assert(digest@ =~= digest@.take(32));
        H256 { bytes }
    }

    /// Whether the hash is at most `other`, both read as numbers.
    pub fn le(&self, other: &H256) -> (r: bool)
        ensures
            r == (self.value() <= other.value()),
    {
        let mut i: usize = 0;
        while i < 32
            invariant
                i <= 32,
                self.bytes@.take(i as int) == other.bytes@.take(i as int),
            decreases 32 - i,
        {
            if self.bytes[i] < other.bytes[i] {
                proof {
                    lemma_first_difference_decides(self.bytes@, other.bytes@, i as int);
                }
                return true;
            }
            if self.bytes[i] > other.bytes[i] {
                proof {
                    lemma_first_difference_decides(other.bytes@, self.bytes@, i as int);
                }
                return false;
            }
            assert(self.bytes@.take(i + 1) =~= self.bytes@.take(i as int).push(
                self.bytes@[i as int],
            ));
            assert(other.bytes@.take(i + 1) =~= other.bytes@.take(i as int).push(
                other.bytes@[i as int],
            ));
            i = i + 1;
        }
        assert(self.bytes@ =~= self.bytes@.take(32));
        assert(other.bytes@ =~= other.bytes@.take(32));
        true
    }
}

/// Names by which a [`crate::table::Table`] finds its entries.
pub trait Key: Copy {
    /// Whether two names are the same.
    fn same(&self, other: &Self) -> (r: bool)
        ensures
            r == (*self == *other),
    ;
}

impl Key for H256 {
    fn same(&self, other: &H256) -> (r: bool) {
        let mut i: usize = 0;
        while i < 32
            invariant
                i <= 32,
                forall|j: int| 0 <= j < i ==> self.bytes@[j] == other.bytes@[j],
            decreases 32 - i,
        {
            if self.bytes[i] != other.bytes[i] {
                return false;
            }
            i = i + 1;
        }
        assert(self.bytes =~= other.bytes);
        true
    }
}

impl Key for H160 {
    fn same(&self, other: &H160) -> (r: bool) {
        let mut i: usize = 0;
        while i < 20
            invariant
                i <= 20,
                forall|j: int| 0 <= j < i ==> self.bytes@[j] == other.bytes@[j],
            decreases 20 - i,
        {
            if self.bytes[i] != other.bytes[i] {
                return false;
            }
            i = i + 1;
        }
        assert(self.bytes =~= other.bytes);
        true
    }
}

impl H160 {
    /// The address that a hash stands for: its last 20 bytes.
    pub fn from_hash(hash: &H256) -> (address: H160)
        ensures
            address.bytes@ == hash.bytes@.skip(12),
    {
        let mut bytes: [u8; 20] = [0u8;20];
        let mut i: usize = 0;
        while i < 20
            invariant
                i <= 20,
                forall|j: int| 0 <= j < i ==> bytes@[j] == hash.bytes@[j + 12],
            decreases 20 - i,
        {
            bytes[i] = hash.bytes[i + 12];
            i = i + 1;
        }
        assert(bytes@ =~= hash.bytes@.skip(12));
        H160 { bytes }
    }
}

/// The SHA-256 digest of `data`.
pub uninterp spec fn sha256_digest(data: Seq<u8>) -> Seq<u8>;

/// `ring::digest::digest` with `ring::digest::SHA256`. The digest is a function
/// of the data alone and has 32 bytes. `digest` panics where the data's length
/// in bits exceeds `u64::MAX`: that is left out.
#[verifier::external_body]
fn sha256(data: &[u8]) -> (digest: Vec<u8>)
    requires
        data@.len() * 8 <= u64::MAX,
    ensures
        digest@ == sha256_digest(data@),
        digest@.len() == 32,
{
    ring::digest::digest(&ring::digest::SHA256, data).as_ref().to_vec()
}

/// The bytes of the address that belongs to `public_key`.
pub open spec fn owner_bytes(public_key: Seq<u8>) -> Seq<u8> {
    sha256_digest(public_key).skip(12)
}

/// The address that belongs to a public key: the last 20 bytes of the key's
/// SHA-256 digest.
pub fn owner_address(public_key: &Vec<u8>) -> (address: H160)
    requires
        public_key@.len() * 8 <= u64::MAX,
    ensures
        address.bytes@ == owner_bytes(public_key@),
{
    let digest: Vec<u8> = sha256(public_key.as_slice());
    let public_hash: H256 = H256::from_digest(&digest);
    H160::from_hash(&public_hash)
}

} // verus!
