//! Why a block, or what a mainchain block reports, is turned down.
use vstd::prelude::*;

use crate::accumulator::UtreexoError;
use crate::ids::{BlockHash, M6id, MainBlockHash, MerkleRoot, SwapId, Txid};
use crate::types::OutPoint;

verus! {

/// A header that does not fit the chain.
#[allow(inconsistent_fields)]
#[derive(Clone, Copy, PartialEq, Eq, Debug)]
pub enum InvalidHeader {
    /// The block does not follow the tip.
    PrevSideHash { expected: Option<BlockHash>, received: Option<BlockHash> },
    /// The block is not the tip.
    BlockHash { expected: BlockHash, computed: BlockHash },
}

/// The reason why a check that is made elsewhere failed; what the number means
/// is up to those who made the check.
#[derive(Clone, Copy, PartialEq, Eq, Structural, Debug)]
pub struct Rejection(pub u32);

/// What is wrong with a transaction.
#[derive(Clone, Copy, PartialEq, Eq, Structural, Debug)]
pub enum TransactionFault {
    /// A swap with no recipient is claimed, and the claim names none either.
    OpenSwapClaimWithoutClaimer,
}

/// Why something was turned down.
#[derive(Clone, Copy, PartialEq, Eq, Debug)]
pub enum Error {
    InvalidHeader(InvalidHeader),
    InvalidBody { expected: MerkleRoot, computed: MerkleRoot },
    InvalidTransaction(TransactionFault),
    /// The size of the body could not be found.
    BorshSerialize,
    TooManySigops,
    BodyTooLarge,
    AmountOverflow,
    NotEnoughFees,
    NoTip,
    NoUtxo { outpoint: OutPoint },
    NoStxo { outpoint: OutPoint },
    UtxoDoubleSpent,
    Utreexo(UtreexoError),
    UtreexoProofFailed { txid: Txid },
    UtreexoRootsMismatch,
    WrongPubKeyForAddress,
    Authorization,
    /// The merkle root could not be computed.
    MerkleRoot(Rejection),
    /// A transaction breaks the rules of swaps.
    Swap(Rejection),
    /// A transaction breaks the rules of transactions.
    Transaction(Rejection),
    SwapNotFound { swap_id: SwapId },
    UnknownWithdrawalBundle { m6id: M6id },
    UnknownWithdrawalBundleConfirmed { event_block_hash: MainBlockHash, m6id: M6id },
    /// The bundle could not be put together.
    WithdrawalBundle(Rejection),
    NoWithdrawalBundleEventBlock,
    NoDepositBlock,
    /// A parent chain gave an answer that makes no sense.
    InvalidResponse,
}

/// A state that cannot be: what it holds contradicts itself or what it is told,
/// or it has no room for what is to come.
#[derive(Clone, Copy, PartialEq, Eq, Structural, Debug)]
pub enum Halt {
    /// There is a tip, or something to take back, but no height.
    NoHeight,
    /// A pending bundle is submitted that was not made at the block before.
    PendingBundleHeight,
    /// A bundle has a status that it cannot have now.
    BundleStatus,
    /// A bundle has a status from a height that it cannot have now.
    BundleStatusHeight,
    /// A bundle would get a status from below the height of its last.
    BundleStatusOrder,
    /// A bundle fails below the height of the last failure.
    FailureOrder,
    /// A failure is taken back that is not the last.
    LatestFailure,
    /// Events are taken back that are not the last.
    LatestEventBlock,
    /// Deposits are taken back that are not the last.
    LatestDepositBlock,
    /// A number runs out of its range.
    OutOfRange,
    /// A leaf is to be taken out of the accumulator that has the same hash as the
    /// node to its left.
    EqualSiblings,
}

/// Why something was not done to the end.
#[derive(Clone, Copy, PartialEq, Eq, Debug)]
pub enum Fault {
    Error(Error),
    Halt(Halt),
}

impl TransactionFault {
    /// The fault in words.
    pub fn message(&self) -> (r: &'static str)
        ensures
            r@ == "Open swap claim requires l2_claimer_address"@,
    {
        match self {
            TransactionFault::OpenSwapClaimWithoutClaimer =>
                "Open swap claim requires l2_claimer_address",
        }
    }
}

} // verus!
