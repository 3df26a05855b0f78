//! Swaps between coins of the sidechain and coins of other chains.
use vstd::prelude::*;

use crate::ids::{Address, BlockHash, SwapId};
use crate::mainchain::same_bytes;

verus! {

/// The chain that the other side of a swap is paid on, with the rules that a
/// swap on it goes by.
#[derive(Clone, Copy, PartialEq, Eq, Structural, Debug)]
pub struct ParentChainType {
    pub chain: u32,
    /// How many blocks a swap is open for.
    pub default_swap_expiration_blocks: u32,
    /// How many confirmations a payment may have and still count.
    pub max_l1_tx_age_blocks: u32,
}

/// Which way a swap goes.
#[derive(Clone, Copy, PartialEq, Eq, Structural, Debug)]
pub enum SwapDirection {
    L2ToL1,
    L1ToL2,
}

/// Where a swap stands.
#[derive(Clone, Copy, PartialEq, Eq, Structural, Debug)]
pub enum SwapState {
    /// No payment was seen.
    Pending,
    /// A payment was seen; the confirmations it has and those it needs.
    WaitingConfirmations(u32, u32),
    ReadyToClaim,
    Completed,
    Cancelled,
}

/// Names the payment of a swap on its parent chain. Before a payment is seen
/// the name is all zeros, or empty.
pub struct SwapTxId {
    pub bytes: Vec<u8>,
}

impl DeepView for SwapTxId {
    type V = Seq<u8>;

    open spec fn deep_view(&self) -> Seq<u8> {
        self.bytes@
    }
}

impl Clone for SwapTxId {
    fn clone(&self) -> (r: SwapTxId)
        ensures
            r.deep_view() == self.deep_view(),
    {
        let bytes = self.bytes.clone();
        assert(bytes@ =~= self.bytes@);
        SwapTxId { bytes }
    }
}

/// No byte but zero.
pub open spec fn unset(txid: Seq<u8>) -> bool {
    forall|i: int| 0 <= i < txid.len() ==> txid[i] == 0
}

impl SwapTxId {
    /// The name that these bytes spell.
    pub fn from_bytes(bytes: &Vec<u8>) -> (r: SwapTxId)
        ensures
            r.deep_view() == bytes@,
    {
        let copy = bytes.clone();
        assert(copy@ =~= bytes@);
        SwapTxId { bytes: copy }
    }

    /// Tells whether no payment is named.
    pub fn is_unset(&self) -> (r: bool)
        ensures
            r == unset(self.deep_view()),
    {
        let n: usize = self.bytes.len();
        for i in 0..n
            invariant
                n == self.bytes@.len(),
                forall|j: int| 0 <= j < i ==> self.bytes@[j] == 0,
        {
            if self.bytes[i] != 0 {
                return false;
            }
        }
        true
    }

    /// Tells whether two names are the same.
    pub fn same(&self, other: &SwapTxId) -> (r: bool)
        ensures
            r == (self.deep_view() == other.deep_view()),
    {
        same_bytes(&self.bytes, &other.bytes)
    }
}

/// A swap.
pub struct Swap {
    pub id: SwapId,
    pub direction: SwapDirection,
    pub parent_chain: ParentChainType,
    pub l1_txid: SwapTxId,
    pub required_confirmations: u32,
    pub state: SwapState,
    pub l2_recipient: Option<Address>,
    pub l2_amount: u64,
    pub l1_recipient_address: Option<String>,
    pub l1_amount: Option<u64>,
    pub created_at_height: u32,
    pub expires_at_height: Option<u32>,
    pub l2_creator_address: Option<Address>,
    /// The sidechain block, and its height, at which the payment was seen.
    pub l1_txid_validated_at: Option<(BlockHash, u32)>,
}

#[verifier::ext_equal]
pub struct SwapView {
    pub id: SwapId,
    pub direction: SwapDirection,
    pub parent_chain: ParentChainType,
    pub l1_txid: Seq<u8>,
    pub required_confirmations: u32,
    pub state: SwapState,
    pub l2_recipient: Option<Address>,
    pub l2_amount: u64,
    pub l1_recipient_address: Option<Seq<char>>,
    pub l1_amount: Option<u64>,
    pub created_at_height: u32,
    pub expires_at_height: Option<u32>,
    pub l2_creator_address: Option<Address>,
    pub l1_txid_validated_at: Option<(BlockHash, u32)>,
}

impl DeepView for Swap {
    type V = SwapView;

    open spec fn deep_view(&self) -> SwapView {
        SwapView {
            id: self.id,
            direction: self.direction,
            parent_chain: self.parent_chain,
            l1_txid: self.l1_txid.deep_view(),
            required_confirmations: self.required_confirmations,
            state: self.state,
            l2_recipient: self.l2_recipient,
            l2_amount: self.l2_amount,
            l1_recipient_address: self.l1_recipient_address.deep_view(),
            l1_amount: self.l1_amount,
            created_at_height: self.created_at_height,
            expires_at_height: self.expires_at_height,
            l2_creator_address: self.l2_creator_address,
            l1_txid_validated_at: self.l1_txid_validated_at,
        }
    }
}

impl Clone for Swap {
    fn clone(&self) -> (r: Swap)
        ensures
            r.deep_view() == self.deep_view(),
    {
        let l1_recipient_address = match &self.l1_recipient_address {
            Some(address) => Some(address.clone()),
            None => None,
        };
        Swap {
            id: self.id,
            direction: self.direction,
            parent_chain: self.parent_chain,
            l1_txid: self.l1_txid.clone(),
            required_confirmations: self.required_confirmations,
            state: self.state,
            l2_recipient: self.l2_recipient,
            l2_amount: self.l2_amount,
            l1_recipient_address,
            l1_amount: self.l1_amount,
            created_at_height: self.created_at_height,
            expires_at_height: self.expires_at_height,
            l2_creator_address: self.l2_creator_address,
            l1_txid_validated_at: self.l1_txid_validated_at,
        }
    }
}

impl SwapView {
    /// A swap as it is made: pending, with no payment seen.
    pub open spec fn fresh(
        id: SwapId,
        direction: SwapDirection,
        parent_chain: ParentChainType,
        l1_txid: Seq<u8>,
        required_confirmations: u32,
        l2_recipient: Option<Address>,
        l2_amount: u64,
        l1_recipient_address: Seq<char>,
        l1_amount: u64,
        created_at_height: u32,
        expires_at_height: Option<u32>,
        l2_creator_address: Option<Address>,
    ) -> SwapView {
        SwapView {
            id,
            direction,
            parent_chain,
            l1_txid,
            required_confirmations,
            state: SwapState::Pending,
            l2_recipient,
            l2_amount,
            l1_recipient_address: Some(l1_recipient_address),
            l1_amount: Some(l1_amount),
            created_at_height,
            expires_at_height,
            l2_creator_address,
            l1_txid_validated_at: None,
        }
    }

    /// The swap in another state.
    pub open spec fn in_state(self, state: SwapState) -> SwapView {
        SwapView { state, ..self }
    }
}

impl Swap {
    /// Makes a swap, pending, with no payment seen.
    pub fn new(
        id: SwapId,
        direction: SwapDirection,
        parent_chain: ParentChainType,
        l1_txid: SwapTxId,
        required_confirmations: u32,
        l2_recipient: Option<Address>,
        l2_amount: u64,
        l1_recipient_address: String,
        l1_amount: u64,
        created_at_height: u32,
        expires_at_height: Option<u32>,
        l2_creator_address: Option<Address>,
    ) -> (r: Swap)
        ensures
            r.deep_view() == SwapView::fresh(
                id,
                direction,
                parent_chain,
                l1_txid.deep_view(),
                required_confirmations,
                l2_recipient,
                l2_amount,
                l1_recipient_address@,
                l1_amount,
                created_at_height,
                expires_at_height,
                l2_creator_address,
            ),
    {
        Swap {
            id,
            direction,
            parent_chain,
            l1_txid,
            required_confirmations,
            state: SwapState::Pending,
            l2_recipient,
            l2_amount,
            l1_recipient_address: Some(l1_recipient_address),
            l1_amount: Some(l1_amount),
            created_at_height,
            expires_at_height,
            l2_creator_address,
            l1_txid_validated_at: None,
        }
    }
}

} // verus!
