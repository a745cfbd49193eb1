//! Transfers between accounts.

use vstd::prelude::*;
use crate::hash::{owner_address, H160, H256};

verus! {

/// A transfer of `value` to `address`. `nonce` counts the owner's transfers.
#[derive(Clone, Copy, Debug, PartialEq, Eq)]
pub struct Transaction {
    pub address: H160,
    pub value: u32,
    pub nonce: u32,
}

/// A transfer as it travels between nodes.
///
/// The hash and the verdict on the signature are made by whoever decodes the
/// transfer; the owner's address is made here, from the public key.
#[derive(Debug)]
pub struct SignedTransaction {
    transaction: Transaction,
    signature: Vec<u8>,
    public_key: Vec<u8>,
    hash: H256,
    verified: bool,
    owner: H160,
}

/// What a [`SignedTransaction`] holds.
#[verifier::ext_equal]
pub struct TransactionView {
    pub transaction: Transaction,
    pub signature: Seq<u8>,
    pub public_key: Seq<u8>,
    /// The hash by which nodes know the transfer.
    pub hash: H256,
    /// Whether the signature is the owner's.
    pub verified: bool,
    /// The address of the account that pays.
    pub owner: H160,
}

impl TransactionView {
    /// The paying account is the one that belongs to the public key.
    pub open spec fn wf(self) -> bool {
        self.owner.bytes@ == crate::hash::owner_bytes(self.public_key)
    }
}

impl DeepView for SignedTransaction {
    type V = TransactionView;

    closed spec fn deep_view(&self) -> TransactionView {
        TransactionView {
            transaction: self.transaction,
            signature: self.signature@,
            public_key: self.public_key@,
            hash: self.hash,
            verified: self.verified,
            owner: self.owner,
        }
    }
}

impl SignedTransaction {
    #[verifier::type_invariant]
    spec fn owner_matches_key(self) -> bool {
        self.deep_view().wf()
    }

    /// A transfer signed with `signature` by the holder of `public_key`. Its
    /// owner is the account that belongs to the key.
    pub fn new(
        transaction: Transaction,
        signature: Vec<u8>,
        public_key: Vec<u8>,
        hash: H256,
        verified: bool,
    ) -> (tx: SignedTransaction)
        requires
            public_key@.len() * 8 <= u64::MAX,
        ensures
            tx.deep_view().wf(),
            tx.deep_view().transaction == transaction,
            tx.deep_view().signature == signature@,
            tx.deep_view().public_key == public_key@,
            tx.deep_view().hash == hash,
            tx.deep_view().verified == verified,
    {
        let owner: H160 = owner_address(&public_key);
        SignedTransaction { transaction, signature, public_key, hash, verified, owner }
    }

    pub fn transaction(&self) -> (transaction: Transaction)
        ensures
            transaction == self.deep_view().transaction,
    {
        self.transaction
    }

    pub fn signature(&self) -> (signature: &Vec<u8>)
        ensures
            signature@ == self.deep_view().signature,
    {
        &self.signature
    }

    pub fn public_key(&self) -> (public_key: &Vec<u8>)
        ensures
            public_key@ == self.deep_view().public_key,
    {
        &self.public_key
    }

    /// The hash by which nodes know the transfer.
    pub fn hash(&self) -> (hash: H256)
        ensures
            hash == self.deep_view().hash,
    {
        self.hash
    }

    /// Whether the signature is the owner's.
    pub fn verified(&self) -> (verified: bool)
        ensures
            verified == self.deep_view().verified,
    {
        self.verified
    }

    /// The address of the account that pays: the one that belongs to the
    /// public key.
    pub fn owner(&self) -> (owner: H160)
        ensures
            owner == self.deep_view().owner,
            owner.bytes@ == crate::hash::owner_bytes(self.deep_view().public_key),
    {
        proof {
            use_type_invariant(self);
        }
        self.owner
    }
}

impl Clone for SignedTransaction {
    fn clone(&self) -> (copy: SignedTransaction)
        ensures
            copy.deep_view() == self.deep_view(),
    {
        proof {
            use_type_invariant(self);
        }
        let signature: Vec<u8> = self.signature.clone();
        let public_key: Vec<u8> = self.public_key.clone();
        assert(signature@ =~= self.signature@);
        assert(public_key@ =~= self.public_key@);
        SignedTransaction {
            transaction: self.transaction,
            signature,
            public_key,
            hash: self.hash,
            verified: self.verified,
            owner: self.owner,
        }
    }
}

} // verus!
