//! What the pool reads of hashes and transactions.
use crate::u256::U256;
use vstd::prelude::*;

verus! {

/// A 256-bit hash: the upper half of its bits, then the lower half.
pub type H256 = (u128, u128);

/// An epoch is known by the hash of its pivot block.
pub type EpochId = H256;

/// A 160-bit account address: the upper 32 bits, then the lower 128.
pub type Address = (u32, u128);

/// What a transaction does.
#[derive(Clone, Copy, Debug)]
pub enum Action {
    /// Creates a contract.
    Create,
    /// Calls the account at the address.
    Call(Address),
}

/// A public key, as its bytes.
#[derive(Debug)]
pub struct Public {
    pub bytes: Vec<u8>,
}

/// A transaction whose signer is not known yet.
#[derive(Debug)]
pub struct TransactionWithSignature {
    pub hash: H256,
    pub gas: U256,
    pub gas_price: U256,
    pub action: Action,
    pub data: Vec<u8>,
    /// The whole transaction with its signature, encoded.
    pub encoded: Vec<u8>,
}

/// A transaction with the public key of its signer.
#[derive(Debug)]
pub struct SignedTransaction {
    pub transaction: TransactionWithSignature,
    pub public: Public,
}

impl SignedTransaction {
    pub fn new(public: Public, transaction: TransactionWithSignature) -> (r: Self)
        ensures
            r == (SignedTransaction { transaction, public }),
    {
        SignedTransaction { transaction, public }
    }

    /// Whether the transaction creates a contract.
    pub fn is_create(&self) -> (r: bool)
        ensures
            r == (self.transaction.action is Create),
    {
        match self.transaction.action {
            Action::Create => true,
            Action::Call(_) => false,
        }
    }

    pub open spec fn spec_hash(&self) -> H256 {
        self.transaction.hash
    }

    #[verifier::when_used_as_spec(spec_hash)]
    pub fn hash(&self) -> (r: H256)
        ensures
            r == self.spec_hash(),
            r == self.transaction.hash,
    {
        self.transaction.hash
    }
}

} // verus!
