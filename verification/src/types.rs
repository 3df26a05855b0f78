//! Outputs, transactions and blocks.
use vstd::prelude::*;

use crate::accumulator::{Proof, ProofView};
use crate::ids::{Address, BlockHash, Hash256, M6id, MainTxid, MerkleRoot, NodeHash, SwapId, Txid};
use crate::mainchain::{MainAddress, MainAddressView};
use crate::swap::ParentChainType;
use crate::table::Key;

verus! {

/// Names an output by where it was made.
#[derive(Clone, Copy, PartialEq, Eq, Structural, Debug)]
pub enum OutPoint {
    Regular { txid: Txid, vout: u32 },
    Coinbase { merkle_root: MerkleRoot, vout: u32 },
    Deposit { main_txid: MainTxid, vout: u32 },
}

/// What made a list of outputs.
#[derive(Clone, Copy, PartialEq, Eq, Structural, Debug)]
pub enum Origin {
    Coinbase(MerkleRoot),
    Transaction(Txid),
}

impl Origin {
    /// The outpoint of the output at place `i`.
    pub open spec fn outpoint(self, i: int) -> OutPoint {
        match self {
            Origin::Coinbase(merkle_root) => OutPoint::Coinbase { merkle_root, vout: i as u32 },
            Origin::Transaction(txid) => OutPoint::Regular { txid, vout: i as u32 },
        }
    }

    /// The outpoint of the output at place `i`.
    pub fn outpoint_at(self, i: usize) -> (r: OutPoint)
        ensures
            r == self.outpoint(i as int),
    {
        match self {
            Origin::Coinbase(merkle_root) => OutPoint::Coinbase {
                merkle_root,
                vout: #[verifier::truncate] (i as u32),
            },
            Origin::Transaction(txid) => OutPoint::Regular {
                txid,
                vout: #[verifier::truncate] (i as u32),
            },
        }
    }
}

impl OutPoint {
    /// The outpoint as four numbers, in the order in which they are compared.
    pub open spec fn numbers(self) -> (u8, u128, u128, u32) {
        match self {
            OutPoint::Regular { txid, vout } => (0u8, txid.0.hi, txid.0.lo, vout),
            OutPoint::Coinbase { merkle_root, vout } => (
                1u8,
                merkle_root.0.hi,
                merkle_root.0.lo,
                vout,
            ),
            OutPoint::Deposit { main_txid, vout } => (2u8, main_txid.0.hi, main_txid.0.lo, vout),
        }
    }

    /// The outpoint as four numbers.
    pub fn to_numbers(&self) -> (r: (u8, u128, u128, u32))
        ensures
            r == self.numbers(),
    {
        match self {
            OutPoint::Regular { txid, vout } => (0u8, txid.0.hi, txid.0.lo, *vout),
            OutPoint::Coinbase { merkle_root, vout } => (
                1u8,
                merkle_root.0.hi,
                merkle_root.0.lo,
                *vout,
            ),
            OutPoint::Deposit { main_txid, vout } => (2u8, main_txid.0.hi, main_txid.0.lo, *vout),
        }
    }

    /// An outpoint is fixed by its numbers.
    pub proof fn numbers_injective(a: OutPoint, b: OutPoint)
        requires
            a.numbers() == b.numbers(),
        ensures
            a == b,
    {
    }
}

/// The order of four numbers: the first difference decides.
pub open spec fn numbers_before(a: (u8, u128, u128, u32), b: (u8, u128, u128, u32)) -> bool {
    a.0 < b.0 || (a.0 == b.0 && (a.1 < b.1 || (a.1 == b.1 && (a.2 < b.2 || (a.2 == b.2 && a.3
        < b.3)))))
}

impl Key for OutPoint {
    open spec fn lt(self, other: Self) -> bool {
        numbers_before(self.numbers(), other.numbers())
    }

    proof fn lt_irreflexive(a: Self) {
    }

    proof fn lt_transitive(a: Self, b: Self, c: Self) {
    }

    proof fn lt_total(a: Self, b: Self) {
    }

    fn precedes(&self, other: &Self) -> (r: bool) {
        let a = self.to_numbers();
        let b = other.to_numbers();
        a.0 < b.0 || (a.0 == b.0 && (a.1 < b.1 || (a.1 == b.1 && (a.2 < b.2 || (a.2 == b.2 && a.3
            < b.3)))))
    }
}

/// What spent an output: an input of a transaction, or a withdrawal bundle.
#[derive(Clone, Copy, PartialEq, Eq, Structural, Debug)]
pub enum InPoint {
    Regular { txid: Txid, vin: u32 },
    Withdrawal { m6id: M6id },
}

/// What an output holds. Amounts are in satoshi.
pub enum OutputContent {
    /// Coins.
    Value(u64),
    /// Coins on their way to a mainchain address.
    Withdrawal { value: u64, main_fee: u64, main_address: MainAddress },
    /// Coins set aside for a swap.
    SwapPending { value: u64, swap_id: SwapId },
}

#[verifier::ext_equal]
pub enum OutputContentView {
    Value(u64),
    Withdrawal { value: u64, main_fee: u64, main_address: MainAddressView },
    SwapPending { value: u64, swap_id: SwapId },
}

impl OutputContentView {
    /// The coins held.
    pub open spec fn value(self) -> u64 {
        match self {
            OutputContentView::Value(value) => value,
            OutputContentView::Withdrawal { value, .. } => value,
            OutputContentView::SwapPending { value, .. } => value,
        }
    }
}

impl DeepView for OutputContent {
    type V = OutputContentView;

    open spec fn deep_view(&self) -> OutputContentView {
        match self {
            OutputContent::Value(value) => OutputContentView::Value(*value),
            OutputContent::Withdrawal { value, main_fee, main_address } =>
                OutputContentView::Withdrawal {
                value: *value,
                main_fee: *main_fee,
                main_address: main_address.deep_view(),
            },
            OutputContent::SwapPending { value, swap_id } => OutputContentView::SwapPending {
                value: *value,
                swap_id: *swap_id,
            },
        }
    }
}

impl OutputContent {
    /// The coins held.
    pub fn get_value(&self) -> (r: u64)
        ensures
            r == self.deep_view().value(),
    {
        match self {
            OutputContent::Value(value) => *value,
            OutputContent::Withdrawal { value, .. } => *value,
            OutputContent::SwapPending { value, .. } => *value,
        }
    }

    /// Tells whether the coins are set aside for a swap.
    pub fn is_swap_pending(&self) -> (r: bool)
        ensures
            r == (self.deep_view() is SwapPending),
    {
        match self {
            OutputContent::SwapPending { .. } => true,
            _ => false,
        }
    }
}

impl Clone for OutputContent {
    fn clone(&self) -> (r: OutputContent)
        ensures
            r.deep_view() == self.deep_view(),
    {
        match self {
            OutputContent::Value(value) => OutputContent::Value(*value),
            OutputContent::Withdrawal { value, main_fee, main_address } =>
                OutputContent::Withdrawal {
                value: *value,
                main_fee: *main_fee,
                main_address: main_address.clone(),
            },
            OutputContent::SwapPending { value, swap_id } => OutputContent::SwapPending {
                value: *value,
                swap_id: *swap_id,
            },
        }
    }
}

/// An output. `leaf` is the hash of the output together with its outpoint,
/// under which the accumulator holds it.
pub struct Output {
    pub address: Address,
    pub content: OutputContent,
    pub leaf: Hash256,
}

#[verifier::ext_equal]
pub struct OutputView {
    pub address: Address,
    pub content: OutputContentView,
    pub leaf: Hash256,
}

impl DeepView for Output {
    type V = OutputView;

    open spec fn deep_view(&self) -> OutputView {
        OutputView {
            address: self.address,
            content: self.content.deep_view(),
            leaf: self.leaf,
        }
    }
}

impl Clone for Output {
    fn clone(&self) -> (r: Output)
        ensures
            r.deep_view() == self.deep_view(),
    {
        Output { address: self.address, content: self.content.clone(), leaf: self.leaf }
    }
}

/// An output that was spent, and by what.
pub struct SpentOutput {
    pub output: Output,
    pub inpoint: InPoint,
}

#[verifier::ext_equal]
pub struct SpentOutputView {
    pub output: OutputView,
    pub inpoint: InPoint,
}

impl DeepView for SpentOutput {
    type V = SpentOutputView;

    open spec fn deep_view(&self) -> SpentOutputView {
        SpentOutputView { output: self.output.deep_view(), inpoint: self.inpoint }
    }
}

/// What a transaction does besides moving coins.
pub enum TxData {
    Regular,
    /// Offers coins of the sidechain for coins of another chain.
    SwapCreate {
        swap_id: SwapId,
        parent_chain: ParentChainType,
        l1_txid_bytes: Vec<u8>,
        required_confirmations: u32,
        l2_recipient: Option<Address>,
        l2_amount: u64,
        l1_recipient_address: String,
        l1_amount: u64,
    },
    /// Takes the coins of a swap whose other side was paid.
    SwapClaim { swap_id: SwapId, l2_claimer_address: Option<Address> },
}

#[verifier::ext_equal]
pub enum TxDataView {
    Regular,
    SwapCreate {
        swap_id: SwapId,
        parent_chain: ParentChainType,
        l1_txid_bytes: Seq<u8>,
        required_confirmations: u32,
        l2_recipient: Option<Address>,
        l2_amount: u64,
        l1_recipient_address: Seq<char>,
        l1_amount: u64,
    },
    SwapClaim { swap_id: SwapId, l2_claimer_address: Option<Address> },
}

impl DeepView for TxData {
    type V = TxDataView;

    open spec fn deep_view(&self) -> TxDataView {
        match self {
            TxData::Regular => TxDataView::Regular,
            TxData::SwapCreate {
                swap_id,
                parent_chain,
                l1_txid_bytes,
                required_confirmations,
                l2_recipient,
                l2_amount,
                l1_recipient_address,
                l1_amount,
            } => TxDataView::SwapCreate {
                swap_id: *swap_id,
                parent_chain: *parent_chain,
                l1_txid_bytes: l1_txid_bytes@,
                required_confirmations: *required_confirmations,
                l2_recipient: *l2_recipient,
                l2_amount: *l2_amount,
                l1_recipient_address: l1_recipient_address@,
                l1_amount: *l1_amount,
            },
            TxData::SwapClaim { swap_id, l2_claimer_address } => TxDataView::SwapClaim {
                swap_id: *swap_id,
                l2_claimer_address: *l2_claimer_address,
            },
        }
    }
}

impl TxData {
    /// Tells whether this claims a swap.
    pub fn is_swap_claim(&self) -> (r: bool)
        ensures
            r == (self.deep_view() is SwapClaim),
    {
        match self {
            TxData::SwapClaim { .. } => true,
            _ => false,
        }
    }
}

impl Clone for TxData {
    fn clone(&self) -> (r: TxData)
        ensures
            r.deep_view() == self.deep_view(),
    {
        match self {
            TxData::Regular => TxData::Regular,
            TxData::SwapCreate {
                swap_id,
                parent_chain,
                l1_txid_bytes,
                required_confirmations,
                l2_recipient,
                l2_amount,
                l1_recipient_address,
                l1_amount,
            } => {
                let bytes = l1_txid_bytes.clone();
                assert(bytes@ =~= l1_txid_bytes@);
                TxData::SwapCreate {
                    swap_id: *swap_id,
                    parent_chain: *parent_chain,
                    l1_txid_bytes: bytes,
                    required_confirmations: *required_confirmations,
                    l2_recipient: *l2_recipient,
                    l2_amount: *l2_amount,
                    l1_recipient_address: l1_recipient_address.clone(),
                    l1_amount: *l1_amount,
                }
            },
            TxData::SwapClaim { swap_id, l2_claimer_address } => TxData::SwapClaim {
                swap_id: *swap_id,
                l2_claimer_address: *l2_claimer_address,
            },
        }
    }
}

/// A transaction. Each input names an output and claims its leaf; `proof` is
/// to show that the accumulator holds the claimed leaves.
pub struct Transaction {
    pub txid: Txid,
    pub inputs: Vec<(OutPoint, Hash256)>,
    pub proof: Proof,
    pub outputs: Vec<Output>,
    pub data: TxData,
}

#[verifier::ext_equal]
pub struct TransactionView {
    pub txid: Txid,
    pub inputs: Seq<(OutPoint, Hash256)>,
    pub proof: ProofView,
    pub outputs: Seq<OutputView>,
    pub data: TxDataView,
}

impl DeepView for Transaction {
    type V = TransactionView;

    open spec fn deep_view(&self) -> TransactionView {
        TransactionView {
            txid: self.txid,
            inputs: self.inputs@,
            proof: self.proof.deep_view(),
            outputs: self.outputs.deep_view(),
            data: self.data.deep_view(),
        }
    }
}

impl Clone for Transaction {
    fn clone(&self) -> (r: Transaction)
        ensures
            r.deep_view() == self.deep_view(),
    {
        let mut inputs: Vec<(OutPoint, Hash256)> = Vec::new();
        let n: usize = self.inputs.len();
        for i in 0..n
            invariant
                n == self.inputs@.len(),
                inputs@ =~= self.inputs@.take(i as int),
        {
            inputs.push(self.inputs[i]);
        }
        assert(inputs@ =~= self.inputs@);
        let outputs = self.outputs.clone();
        assert(outputs.deep_view() =~= self.outputs.deep_view());
        Transaction {
            txid: self.txid,
            inputs,
            proof: self.proof.clone(),
            outputs,
            data: self.data.clone(),
        }
    }
}

/// A transaction with the outputs that it spends, in the order of its inputs.
pub struct FilledTransaction {
    pub transaction: Transaction,
    pub spent_utxos: Vec<Output>,
}

#[verifier::ext_equal]
pub struct FilledTransactionView {
    pub transaction: TransactionView,
    pub spent_utxos: Seq<OutputView>,
}

impl DeepView for FilledTransaction {
    type V = FilledTransactionView;

    open spec fn deep_view(&self) -> FilledTransactionView {
        FilledTransactionView {
            transaction: self.transaction.deep_view(),
            spent_utxos: self.spent_utxos.deep_view(),
        }
    }
}

/// A signature over a transaction, of which the address that it signs for is
/// kept.
#[derive(Clone, Copy, PartialEq, Eq, Structural, Debug)]
pub struct Authorization {
    pub address: Address,
}

/// The body of a block.
pub struct Body {
    pub coinbase: Vec<Output>,
    pub transactions: Vec<Transaction>,
    pub authorizations: Vec<Authorization>,
}

#[verifier::ext_equal]
pub struct BodyView {
    pub coinbase: Seq<OutputView>,
    pub transactions: Seq<TransactionView>,
    pub authorizations: Seq<Authorization>,
}

impl DeepView for Body {
    type V = BodyView;

    open spec fn deep_view(&self) -> BodyView {
        BodyView {
            coinbase: self.coinbase.deep_view(),
            transactions: self.transactions.deep_view(),
            authorizations: self.authorizations@,
        }
    }
}

/// The header of a block. `hash` names the block; `roots` are those of the
/// accumulator once the block is connected.
pub struct Header {
    pub hash: BlockHash,
    pub merkle_root: MerkleRoot,
    pub prev_side_hash: Option<BlockHash>,
    pub roots: Vec<NodeHash>,
}

#[verifier::ext_equal]
pub struct HeaderView {
    pub hash: BlockHash,
    pub merkle_root: MerkleRoot,
    pub prev_side_hash: Option<BlockHash>,
    pub roots: Seq<NodeHash>,
}

impl DeepView for Header {
    type V = HeaderView;

    open spec fn deep_view(&self) -> HeaderView {
        HeaderView {
            hash: self.hash,
            merkle_root: self.merkle_root,
            prev_side_hash: self.prev_side_hash,
            roots: self.roots@,
        }
    }
}

} // verus!
