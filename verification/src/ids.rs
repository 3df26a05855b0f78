//! Identifiers: hashes, addresses and the names that blocks, transactions and
//! swaps go by.
use vstd::prelude::*;

use crate::table::Key;

verus! {

/// A 256-bit hash, held as the two big-endian halves of its 32 bytes.
#[derive(Clone, Copy, PartialEq, Eq, Structural, Debug)]
pub struct Hash256 {
    pub hi: u128,
    pub lo: u128,
}

/// A 160-bit sidechain address, held as its first 4 and its last 16 bytes.
#[derive(Clone, Copy, PartialEq, Eq, Structural, Debug)]
pub struct Address {
    pub hi: u32,
    pub lo: u128,
}

/// Names a sidechain transaction.
#[derive(Clone, Copy, PartialEq, Eq, Structural, Debug)]
pub struct Txid(pub Hash256);

/// The root that a block header commits its body to.
#[derive(Clone, Copy, PartialEq, Eq, Structural, Debug)]
pub struct MerkleRoot(pub Hash256);

/// Names a sidechain block.
#[derive(Clone, Copy, PartialEq, Eq, Structural, Debug)]
pub struct BlockHash(pub Hash256);

/// Names a block of the mainchain that the sidechain is pegged to.
#[derive(Clone, Copy, PartialEq, Eq, Structural, Debug)]
pub struct MainBlockHash(pub Hash256);

/// Names a mainchain transaction.
#[derive(Clone, Copy, PartialEq, Eq, Structural, Debug)]
pub struct MainTxid(pub Hash256);

/// Names a withdrawal bundle.
#[derive(Clone, Copy, PartialEq, Eq, Structural, Debug)]
pub struct M6id(pub Hash256);

/// Names a swap.
#[derive(Clone, Copy, PartialEq, Eq, Structural, Debug)]
pub struct SwapId(pub Hash256);

/// A node of the UTXO accumulator: a hash, or one of the two marks that stand
/// where there is none.
#[derive(Clone, Copy, PartialEq, Eq, Structural, Debug)]
pub enum NodeHash {
    Empty,
    Placeholder,
    Hash(Hash256),
}

impl Key for Hash256 {
    open spec fn lt(self, other: Self) -> bool {
        self.hi < other.hi || (self.hi == other.hi && self.lo < other.lo)
    }

    proof fn lt_irreflexive(a: Self) {
    }

    proof fn lt_transitive(a: Self, b: Self, c: Self) {
    }

    proof fn lt_total(a: Self, b: Self) {
    }

    fn precedes(&self, other: &Self) -> (r: bool) {
        self.hi < other.hi || (self.hi == other.hi && self.lo < other.lo)
    }
}

impl Key for M6id {
    open spec fn lt(self, other: Self) -> bool {
        self.0.lt(other.0)
    }

    proof fn lt_irreflexive(a: Self) {
    }

    proof fn lt_transitive(a: Self, b: Self, c: Self) {
    }

    proof fn lt_total(a: Self, b: Self) {
    }

    fn precedes(&self, other: &Self) -> (r: bool) {
        self.0.precedes(&other.0)
    }
}

impl Key for SwapId {
    open spec fn lt(self, other: Self) -> bool {
        self.0.lt(other.0)
    }

    proof fn lt_irreflexive(a: Self) {
    }

    proof fn lt_transitive(a: Self, b: Self, c: Self) {
    }

    proof fn lt_total(a: Self, b: Self) {
    }

    fn precedes(&self, other: &Self) -> (r: bool) {
        self.0.precedes(&other.0)
    }
}

impl Key for u32 {
    open spec fn lt(self, other: Self) -> bool {
        self < other
    }

    proof fn lt_irreflexive(a: Self) {
    }

    proof fn lt_transitive(a: Self, b: Self, c: Self) {
    }

    proof fn lt_total(a: Self, b: Self) {
    }

    fn precedes(&self, other: &Self) -> (r: bool) {
        *self < *other
    }
}

impl DeepView for SwapId {
    type V = SwapId;

    open spec fn deep_view(&self) -> SwapId {
        *self
    }
}

impl DeepView for M6id {
    type V = M6id;

    open spec fn deep_view(&self) -> M6id {
        *self
    }
}

impl DeepView for MainBlockHash {
    type V = MainBlockHash;

    open spec fn deep_view(&self) -> MainBlockHash {
        *self
    }
}

} // verus!
