//! What checking, connecting and disconnecting a block means.
use vstd::prelude::*;

use crate::accumulator::{forest_roots, forest_verified, DiffView, UtreexoError};
use crate::error::{Error, Fault, Halt, InvalidHeader, Rejection, TransactionFault};
use crate::ids::{Address, Hash256, MerkleRoot, NodeHash, SwapId, Txid};
use crate::state::StateView;
use crate::swap::{SwapDirection, SwapState, SwapView};
use crate::types::{
    Authorization, BodyView, FilledTransaction, FilledTransactionView, HeaderView, InPoint, Origin,
    OutPoint, Output, OutputView, SpentOutputView, TransactionView, TxDataView,
};

verus! {

/// What was found out about a transaction elsewhere: whether it keeps the rules
/// of swaps, and the fee that it pays if it keeps those of transactions.
#[derive(Clone, Copy)]
pub struct TransactionFacts {
    pub swap: Result<(), Rejection>,
    pub fee: Result<u64, Rejection>,
}

/// What was found out about a body elsewhere.
pub struct BodyFacts {
    /// How many signatures a body may hold at its height.
    pub sigops_limit: usize,
    /// How large a body may be at its height.
    pub size_limit: usize,
    /// How large the body is, where that could be found.
    pub size: Option<usize>,
    /// The merkle root of its coinbase and its filled transactions.
    pub merkle_root: Result<MerkleRoot, Rejection>,
    /// One for each transaction.
    pub transactions: Vec<TransactionFacts>,
    /// Whether its signatures sign its transactions.
    pub authorized: bool,
}

#[verifier::ext_equal]
pub struct BodyFactsView {
    pub sigops_limit: usize,
    pub size_limit: usize,
    pub size: Option<usize>,
    pub merkle_root: Result<MerkleRoot, Rejection>,
    pub transactions: Seq<TransactionFacts>,
    pub authorized: bool,
}

impl View for BodyFacts {
    type V = BodyFactsView;

    open spec fn view(&self) -> BodyFactsView {
        BodyFactsView {
            sigops_limit: self.sigops_limit,
            size_limit: self.size_limit,
            size: self.size,
            merkle_root: self.merkle_root,
            transactions: self.transactions@,
            authorized: self.authorized,
        }
    }
}

#[verifier::ext_equal]
pub struct PrevalidatedBlockView {
    pub filled_transactions: Seq<FilledTransactionView>,
    pub computed_merkle_root: MerkleRoot,
    pub total_fees: u64,
    pub coinbase_value: u64,
    pub next_height: u32,
    pub accumulator_diff: DiffView,
}

// The change to the accumulator.
/// With the leaves of the first `n` outputs added.
pub open spec fn leaves_added(diff: DiffView, outputs: Seq<OutputView>, n: nat) -> DiffView
    decreases n,
{
    if n == 0 {
        diff
    } else {
        leaves_added(diff, outputs, (n - 1) as nat).insert(outputs[n - 1].leaf)
    }
}

/// With the leaves that the first `n` inputs claim taken out.
pub open spec fn leaves_taken(diff: DiffView, inputs: Seq<(OutPoint, Hash256)>, n: nat) -> DiffView
    decreases n,
{
    if n == 0 {
        diff
    } else {
        leaves_taken(diff, inputs, (n - 1) as nat).remove(inputs[n - 1].1)
    }
}

/// With the change that a transaction makes.
pub open spec fn transaction_diff(diff: DiffView, tx: TransactionView) -> DiffView {
    leaves_added(leaves_taken(diff, tx.inputs, tx.inputs.len()), tx.outputs, tx.outputs.len())
}

/// With the changes that the first `n` transactions make.
pub open spec fn transactions_diff(diff: DiffView, txs: Seq<TransactionView>, n: nat) -> DiffView
    decreases n,
{
    if n == 0 {
        diff
    } else {
        transaction_diff(transactions_diff(diff, txs, (n - 1) as nat), txs[n - 1])
    }
}

/// The change that a coinbase makes.
pub open spec fn coinbase_diff(coinbase: Seq<OutputView>) -> DiffView {
    leaves_added(DiffView::none(), coinbase, coinbase.len())
}

/// The change that a body makes: its coinbase first, then its transactions.
pub open spec fn body_diff(body: BodyView) -> DiffView {
    transactions_diff(coinbase_diff(body.coinbase), body.transactions, body.transactions.len())
}

// Making and spending outputs.
/// With the first `n` of the outputs that `origin` made.
pub open spec fn utxos_with(
    utxos: Map<OutPoint, OutputView>,
    origin: Origin,
    outputs: Seq<OutputView>,
    n: nat,
) -> Map<OutPoint, OutputView>
    decreases n,
{
    if n == 0 {
        utxos
    } else {
        utxos_with(utxos, origin, outputs, (n - 1) as nat).insert(
            origin.outpoint(n - 1),
            outputs[n - 1],
        )
    }
}

/// Outputs, some of which were spent. `missing` is an input that named no
/// unspent output; nothing was spent from that input on.
#[verifier::ext_equal]
pub struct Spending {
    pub utxos: Map<OutPoint, OutputView>,
    pub stxos: Map<OutPoint, SpentOutputView>,
    /// The outputs that were spent, in the order of the inputs.
    pub spent: Seq<OutputView>,
    pub missing: Option<OutPoint>,
}

/// The first `n` inputs of a transaction spend the outputs that they name.
pub open spec fn inputs_spent(
    utxos: Map<OutPoint, OutputView>,
    stxos: Map<OutPoint, SpentOutputView>,
    txid: Txid,
    inputs: Seq<(OutPoint, Hash256)>,
    n: nat,
) -> Spending
    decreases n,
{
    if n == 0 {
        Spending { utxos, stxos, spent: Seq::empty(), missing: None }
    } else {
        let before = inputs_spent(utxos, stxos, txid, inputs, (n - 1) as nat);
        let outpoint = inputs[n - 1].0;
        if before.missing is Some {
            before
        } else if !before.utxos.contains_key(outpoint) {
            Spending { missing: Some(outpoint), ..before }
        } else {
            let output = before.utxos[outpoint];
            Spending {
                utxos: before.utxos.remove(outpoint),
                stxos: before.stxos.insert(
                    outpoint,
                    SpentOutputView {
                        output,
                        inpoint: InPoint::Regular { txid, vin: (n - 1) as u32 },
                    },
                ),
                spent: before.spent.push(output),
                missing: None,
            }
        }
    }
}

/// The fault that is an error.
pub open spec fn reported(e: Error) -> Option<Fault> {
    Some(Fault::Error(e))
}

/// The fault that is a halt.
pub open spec fn halted(h: Halt) -> Option<Fault> {
    Some(Fault::Halt(h))
}

/// Something ended in a state that cannot be.
pub open spec fn halts(fault: Option<Fault>) -> bool {
    fault is Some && fault->0 is Halt
}

/// A state that something was done to, and why it was not done to the end.
#[verifier::ext_equal]
pub struct Step {
    pub state: StateView,
    pub fault: Option<Fault>,
}

impl Step {
    /// What is reported: the fault, or else `value`.
    pub open spec fn reports<T>(self, value: T) -> Result<T, Fault> {
        match self.fault {
            Some(e) => Err(e),
            None => Ok(value),
        }
    }
}

/// A transaction spends its inputs and makes its outputs.
pub open spec fn coins_moved(s: StateView, tx: TransactionView) -> Step {
    let spending = inputs_spent(s.utxos, s.stxos, tx.txid, tx.inputs, tx.inputs.len());
    match spending.missing {
        Some(outpoint) => Step {
            state: StateView { utxos: spending.utxos, stxos: spending.stxos, ..s },
            fault: reported(Error::NoUtxo { outpoint }),
        },
        None => Step {
            state: StateView {
                utxos: utxos_with(
                    spending.utxos,
                    Origin::Transaction(tx.txid),
                    tx.outputs,
                    tx.outputs.len(),
                ),
                stxos: spending.stxos,
                ..s
            },
            fault: None,
        },
    }
}

/// The first `n` transactions move their coins.
pub open spec fn all_coins_moved(s: StateView, txs: Seq<TransactionView>, n: nat) -> Step
    decreases n,
{
    if n == 0 {
        Step { state: s, fault: None }
    } else {
        let before = all_coins_moved(s, txs, (n - 1) as nat);
        if before.fault is Some {
            before
        } else {
            coins_moved(before.state, txs[n - 1])
        }
    }
}

/// The outputs of a coinbase are made.
pub open spec fn coinbase_made(
    s: StateView,
    merkle_root: MerkleRoot,
    coinbase: Seq<OutputView>,
) -> StateView {
    StateView {
        utxos: utxos_with(s.utxos, Origin::Coinbase(merkle_root), coinbase, coinbase.len()),
        ..s
    }
}

/// The state takes over what its accumulator became, if the change was made.
pub open spec fn change_taken(s: StateView, changed: Result<Seq<u8>, Fault>) -> Step {
    match changed {
        Ok(accumulator) => Step { state: StateView { accumulator, ..s }, fault: None },
        Err(fault) => Step { state: s, fault: Some(fault) },
    }
}

/// The state takes `diff` into its accumulator.
pub open spec fn diff_applied(s: StateView, diff: DiffView) -> Step {
    change_taken(s, diff.applied(s.accumulator))
}

/// The error for a block that does not follow the tip.
pub open spec fn not_next(s: StateView, header: HeaderView) -> Error {
    Error::InvalidHeader(
        InvalidHeader::PrevSideHash { expected: s.tip, received: header.prev_side_hash },
    )
}

/// The transactions with the outputs that they spend when they move their coins
/// one after the other.
pub open spec fn filled_in_turn(s: StateView, txs: Seq<TransactionView>) -> Seq<
    FilledTransactionView,
> {
    Seq::new(
        txs.len(),
        |i: int|
            {
                let before = all_coins_moved(s, txs, i as nat).state;
                let tx = txs[i];
                FilledTransactionView {
                    transaction: tx,
                    spent_utxos: inputs_spent(
                        before.utxos,
                        before.stxos,
                        tx.txid,
                        tx.inputs,
                        tx.inputs.len(),
                    ).spent,
                }
            },
    )
}

/// A block that follows the tip moves its coins.
pub open spec fn block_moved(s: StateView, header: HeaderView, body: BodyView) -> Step {
    if s.tip != header.prev_side_hash {
        Step { state: s, fault: reported(not_next(s, header)) }
    } else {
        all_coins_moved(
            coinbase_made(s, header.merkle_root, body.coinbase),
            body.transactions,
            body.transactions.len(),
        )
    }
}

/// A block becomes the tip, where its merkle root is right.
pub open spec fn tip_moved(
    s: StateView,
    header: HeaderView,
    merkle_root: Result<MerkleRoot, Rejection>,
) -> Step {
    match merkle_root {
        Err(why) => Step { state: s, fault: reported(Error::MerkleRoot(why)) },
        Ok(computed) => if computed != header.merkle_root {
            Step {
                state: s,
                fault: reported(Error::InvalidBody { expected: header.merkle_root, computed }),
            }
        } else if s.height == Some(u32::MAX) {
            Step { state: s, fault: halted(Halt::OutOfRange) }
        } else {
            Step {
                state: StateView {
                    tip: Some(header.hash),
                    height: Some(s.next_height() as u32),
                    ..s
                },
                fault: None,
            }
        },
    }
}

/// Connecting a block without having checked it, up to the change to the
/// accumulator. `merkle_root` is that of its coinbase and its filled
/// transactions.
pub open spec fn connect_staged(
    s: StateView,
    header: HeaderView,
    body: BodyView,
    merkle_root: Result<MerkleRoot, Rejection>,
) -> Step {
    let moved = block_moved(s, header, body);
    if moved.fault is Some {
        moved
    } else {
        tip_moved(moved.state, header, merkle_root)
    }
}

/// Moving coins leaves all but the outputs alone.
pub proof fn coins_moved_keeps(s: StateView, txs: Seq<TransactionView>, n: nat)
    ensures
        ({
            let done = all_coins_moved(s, txs, n).state;
            done == (StateView { utxos: done.utxos, stxos: done.stxos, ..s })
        }),
    decreases n,
{
    if n > 0 {
        coins_moved_keeps(s, txs, (n - 1) as nat);
    }
}

/// Connecting a block without having checked it.
pub open spec fn connected(
    s: StateView,
    header: HeaderView,
    body: BodyView,
    merkle_root: Result<MerkleRoot, Rejection>,
) -> Step {
    let staged = connect_staged(s, header, body, merkle_root);
    if staged.fault is Some {
        staged
    } else {
        diff_applied(staged.state, body_diff(body))
    }
}

/// The merkle root of a coinbase and of filled transactions may be this.
pub open spec fn may_be_root<
    F: Fn(&Vec<Output>, &Vec<FilledTransaction>) -> Result<MerkleRoot, Rejection>,
>(
    merkle_root: F,
    coinbase: Seq<OutputView>,
    txs: Seq<FilledTransactionView>,
    computed: Result<MerkleRoot, Rejection>,
) -> bool {
    exists|c: Vec<Output>, t: Vec<FilledTransaction>|
        c.deep_view() == coinbase && t.deep_view() == txs && #[trigger] call_ensures(
            merkle_root,
            (&c, &t),
            computed,
        )
}

/// If connecting a block comes to its merkle root, this may be the one.
pub open spec fn may_be_root_if_any<
    F: Fn(&Vec<Output>, &Vec<FilledTransaction>) -> Result<MerkleRoot, Rejection>,
>(
    merkle_root: F,
    s: StateView,
    header: HeaderView,
    body: BodyView,
    computed: Result<MerkleRoot, Rejection>,
) -> bool {
    let made = coinbase_made(s, header.merkle_root, body.coinbase);
    block_moved(s, header, body).fault is None ==> may_be_root(
        merkle_root,
        body.coinbase,
        filled_in_turn(made, body.transactions),
        computed,
    )
}

/// `step` is what connecting a block comes to, whatever its merkle root was found
/// to be.
pub open spec fn is_connected<
    F: Fn(&Vec<Output>, &Vec<FilledTransaction>) -> Result<MerkleRoot, Rejection>,
>(merkle_root: F, s: StateView, header: HeaderView, body: BodyView, step: Step) -> bool {
    exists|computed: Result<MerkleRoot, Rejection>| #[trigger]
        may_be_root_if_any(merkle_root, s, header, body, computed) && step == connected(
            s,
            header,
            body,
            computed,
        )
}

// Swaps.
/// The first `n` outputs, as far as they are set aside for a swap, are locked to
/// it.
pub open spec fn locks_with(
    locks: Map<OutPoint, SwapId>,
    origin: Origin,
    outputs: Seq<OutputView>,
    swap_id: SwapId,
    n: nat,
) -> Map<OutPoint, SwapId>
    decreases n,
{
    if n == 0 {
        locks
    } else {
        let before = locks_with(locks, origin, outputs, swap_id, (n - 1) as nat);
        if outputs[n - 1].content is SwapPending {
            before.insert(origin.outpoint(n - 1), swap_id)
        } else {
            before
        }
    }
}

/// The outpoint `k` is one of those that the inputs name.
pub open spec fn names(inputs: Seq<(OutPoint, Hash256)>, k: OutPoint) -> bool {
    exists|i: int| 0 <= i < inputs.len() && (#[trigger] inputs[i]).0 == k
}

/// The inputs that are locked to a swap are released.
pub open spec fn inputs_unlocked(
    locks: Map<OutPoint, SwapId>,
    inputs: Seq<(OutPoint, Hash256)>,
    swap_id: SwapId,
) -> Map<OutPoint, SwapId> {
    locks.restrict(
        Set::new(|k: OutPoint| !(locks.contains_key(k) && locks[k] == swap_id && names(inputs, k))),
    )
}

/// The swap that a transaction makes.
pub open spec fn swap_made(filled: FilledTransactionView, height: u32) -> SwapView
    recommends
        filled.transaction.data is SwapCreate,
{
    match filled.transaction.data {
        TxDataView::SwapCreate {
            swap_id,
            parent_chain,
            l1_txid_bytes,
            required_confirmations,
            l2_recipient,
            l2_amount,
            l1_recipient_address,
            l1_amount,
        } => SwapView::fresh(
            swap_id,
            SwapDirection::L2ToL1,
            parent_chain,
            l1_txid_bytes,
            required_confirmations,
            l2_recipient,
            l2_amount,
            l1_recipient_address,
            l1_amount,
            height,
            Some((height + parent_chain.default_swap_expiration_blocks) as u32),
            if filled.spent_utxos.len() > 0 {
                Some(filled.spent_utxos[0].address)
            } else {
                None
            },
        ),
        _ => arbitrary(),
    }
}

/// The height at which the swap that a transaction makes runs out can be
/// counted.
pub open spec fn expiration_fits(filled: FilledTransactionView, height: u32) -> bool {
    match filled.transaction.data {
        TxDataView::SwapCreate { parent_chain, .. } => height
            + parent_chain.default_swap_expiration_blocks <= u32::MAX,
        _ => true,
    }
}

/// What a transaction does to swaps when it is connected at `height`.
pub open spec fn swap_connected(s: StateView, filled: FilledTransactionView, height: u32) -> Step {
    let tx = filled.transaction;
    match tx.data {
        TxDataView::Regular => Step { state: s, fault: None },
        TxDataView::SwapCreate { swap_id, .. } => if !expiration_fits(filled, height) {
            Step { state: s, fault: halted(Halt::OutOfRange) }
        } else {
            Step {
                state: StateView {
                    swaps: s.swaps.insert(swap_id, swap_made(filled, height)),
                    locked_swap_outputs: locks_with(
                        s.locked_swap_outputs,
                        Origin::Transaction(tx.txid),
                        tx.outputs,
                        swap_id,
                        tx.outputs.len(),
                    ),
                    ..s
                },
                fault: None,
            }
        },
        TxDataView::SwapClaim { swap_id, l2_claimer_address } => if !s.swaps.contains_key(
            swap_id,
        ) {
            Step { state: s, fault: reported(Error::SwapNotFound { swap_id }) }
        } else {
            let swap = s.swaps[swap_id];
            if swap.l2_recipient is None && l2_claimer_address is None {
                Step {
                    state: StateView {
                        swaps: if swap.state is ReadyToClaim {
                            s.swaps
                        } else {
                            s.swaps.insert(swap.id, swap.in_state(SwapState::ReadyToClaim))
                        },
                        ..s
                    },
                    fault: reported(
                        Error::InvalidTransaction(TransactionFault::OpenSwapClaimWithoutClaimer),
                    ),
                }
            } else {
                Step {
                    state: StateView {
                        swaps: s.swaps.insert(swap.id, swap.in_state(SwapState::Completed)),
                        locked_swap_outputs: inputs_unlocked(
                            s.locked_swap_outputs,
                            tx.inputs,
                            swap_id,
                        ),
                        ..s
                    },
                    fault: None,
                }
            }
        },
    }
}

/// A transaction is connected: it moves its coins, then does what it does to
/// swaps.
pub open spec fn filled_connected(s: StateView, filled: FilledTransactionView, height: u32) -> Step {
    let moved = coins_moved(s, filled.transaction);
    if moved.fault is Some {
        moved
    } else {
        swap_connected(moved.state, filled, height)
    }
}

/// The first `n` transactions are connected.
pub open spec fn all_filled_connected(
    s: StateView,
    txs: Seq<FilledTransactionView>,
    height: u32,
    n: nat,
) -> Step
    decreases n,
{
    if n == 0 {
        Step { state: s, fault: None }
    } else {
        let before = all_filled_connected(s, txs, height, (n - 1) as nat);
        if before.fault is Some {
            before
        } else {
            filled_connected(before.state, txs[n - 1], height)
        }
    }
}

/// Connecting a block that was checked before, up to the change to the
/// accumulator.
pub open spec fn prevalidated_staged(
    s: StateView,
    header: HeaderView,
    body: BodyView,
    pre: PrevalidatedBlockView,
) -> Step {
    if s.tip != header.prev_side_hash {
        Step { state: s, fault: reported(not_next(s, header)) }
    } else if pre.computed_merkle_root != header.merkle_root {
        Step {
            state: s,
            fault: reported(
                Error::InvalidBody {
                    expected: pre.computed_merkle_root,
                    computed: header.merkle_root,
                },
            ),
        }
    } else {
        let done = all_filled_connected(
            coinbase_made(s, pre.computed_merkle_root, body.coinbase),
            pre.filled_transactions,
            pre.next_height,
            pre.filled_transactions.len(),
        );
        if done.fault is Some {
            done
        } else {
            Step {
                state: StateView {
                    tip: Some(header.hash),
                    height: Some(pre.next_height),
                    ..done.state
                },
                fault: None,
            }
        }
    }
}

/// Connecting a block that was checked before.
pub open spec fn prevalidated_connected(
    s: StateView,
    header: HeaderView,
    body: BodyView,
    pre: PrevalidatedBlockView,
) -> Step {
    let staged = prevalidated_staged(s, header, body, pre);
    if staged.fault is Some {
        staged
    } else {
        diff_applied(staged.state, pre.accumulator_diff)
    }
}

// Disconnecting.
/// A state that a block is being taken out of, the change that this makes to
/// the accumulator, and why it was not done to the end.
#[verifier::ext_equal]
pub struct Undoing {
    pub state: StateView,
    pub diff: DiffView,
    pub fault: Option<Fault>,
}

/// The first `n` outputs that `origin` made are deleted, last to first.
pub open spec fn outputs_deleted(
    u: Undoing,
    origin: Origin,
    outputs: Seq<OutputView>,
    n: nat,
) -> Undoing
    decreases n,
{
    if n == 0 || u.fault is Some {
        u
    } else {
        let outpoint = origin.outpoint(n - 1);
        outputs_deleted(
            Undoing {
                state: StateView { utxos: u.state.utxos.remove(outpoint), ..u.state },
                diff: u.diff.remove(outputs[n - 1].leaf),
                fault: if u.state.utxos.contains_key(outpoint) {
                    None
                } else {
                    reported(Error::NoUtxo { outpoint })
                },
            },
            origin,
            outputs,
            (n - 1) as nat,
        )
    }
}

/// The first `n` inputs give back what they spent, last to first.
pub open spec fn inputs_unspent(u: Undoing, inputs: Seq<(OutPoint, Hash256)>, n: nat) -> Undoing
    decreases n,
{
    if n == 0 || u.fault is Some {
        u
    } else {
        let (outpoint, leaf) = inputs[n - 1];
        if u.state.stxos.contains_key(outpoint) {
            inputs_unspent(
                Undoing {
                    state: StateView {
                        stxos: u.state.stxos.remove(outpoint),
                        utxos: u.state.utxos.insert(outpoint, u.state.stxos[outpoint].output),
                        ..u.state
                    },
                    diff: u.diff.insert(leaf),
                    fault: None,
                },
                inputs,
                (n - 1) as nat,
            )
        } else {
            Undoing { fault: reported(Error::NoStxo { outpoint }), ..u }
        }
    }
}

/// The outpoint `k` is that of one of the outputs that `origin` made and that
/// are set aside for a swap.
pub open spec fn set_aside(origin: Origin, outputs: Seq<OutputView>, k: OutPoint) -> bool {
    exists|i: int|
        0 <= i < outputs.len() && (#[trigger] outputs[i]).content is SwapPending
            && origin.outpoint(i) == k
}

/// The outputs that are set aside for a swap, and locked to it, are released.
pub open spec fn outputs_unlocked(
    locks: Map<OutPoint, SwapId>,
    origin: Origin,
    outputs: Seq<OutputView>,
    swap_id: SwapId,
) -> Map<OutPoint, SwapId> {
    locks.restrict(
        Set::new(
            |k: OutPoint|
                !(locks.contains_key(k) && locks[k] == swap_id && set_aside(origin, outputs, k)),
        ),
    )
}

/// The first `n` inputs are locked to a swap where they are not locked, last to
/// first.
pub open spec fn inputs_locked(
    locks: Map<OutPoint, SwapId>,
    inputs: Seq<(OutPoint, Hash256)>,
    swap_id: SwapId,
    n: nat,
) -> Map<OutPoint, SwapId>
    decreases n,
{
    if n == 0 {
        locks
    } else {
        let outpoint = inputs[n - 1].0;
        inputs_locked(
            if locks.contains_key(outpoint) {
                locks
            } else {
                locks.insert(outpoint, swap_id)
            },
            inputs,
            swap_id,
            (n - 1) as nat,
        )
    }
}

/// What a transaction did to swaps is undone.
pub open spec fn swap_disconnected(s: StateView, tx: TransactionView) -> Step {
    match tx.data {
        TxDataView::Regular => Step { state: s, fault: None },
        TxDataView::SwapCreate { swap_id, .. } => Step {
            state: StateView {
                swaps: s.swaps.remove(swap_id),
                locked_swap_outputs: outputs_unlocked(
                    s.locked_swap_outputs,
                    Origin::Transaction(tx.txid),
                    tx.outputs,
                    swap_id,
                ),
                ..s
            },
            fault: None,
        },
        TxDataView::SwapClaim { swap_id, .. } => if !s.swaps.contains_key(swap_id) {
            Step { state: s, fault: reported(Error::SwapNotFound { swap_id }) }
        } else {
            let swap = s.swaps[swap_id];
            Step {
                state: StateView {
                    swaps: if swap.state is Completed {
                        s.swaps.insert(swap.id, swap.in_state(SwapState::ReadyToClaim))
                    } else {
                        s.swaps
                    },
                    locked_swap_outputs: inputs_locked(
                        s.locked_swap_outputs,
                        tx.inputs,
                        swap_id,
                        tx.inputs.len(),
                    ),
                    ..s
                },
                fault: None,
            }
        },
    }
}

/// A transaction is taken back.
pub open spec fn transaction_undone(u: Undoing, tx: TransactionView) -> Undoing {
    let swap = swap_disconnected(u.state, tx);
    inputs_unspent(
        outputs_deleted(
            Undoing { state: swap.state, diff: u.diff, fault: swap.fault },
            Origin::Transaction(tx.txid),
            tx.outputs,
            tx.outputs.len(),
        ),
        tx.inputs,
        tx.inputs.len(),
    )
}

/// The first `n` transactions are taken back, last to first.
pub open spec fn transactions_undone(u: Undoing, txs: Seq<TransactionView>, n: nat) -> Undoing
    decreases n,
{
    if n == 0 || u.fault is Some {
        u
    } else {
        transactions_undone(transaction_undone(u, txs[n - 1]), txs, (n - 1) as nat)
    }
}

/// The tip goes back to the block before.
pub open spec fn tip_undone(s: StateView, header: HeaderView) -> Step {
    match s.height {
        None => Step { state: s, fault: halted(Halt::NoHeight) },
        Some(height) => match (header.prev_side_hash, height) {
            (None, 0) => Step { state: StateView { tip: None, height: None, ..s }, fault: None },
            (None, _) | (_, 0) => Step { state: s, fault: reported(Error::NoTip) },
            (Some(previous), height) => Step {
                state: StateView { tip: Some(previous), height: Some((height - 1) as u32), ..s },
                fault: None,
            },
        },
    }
}

/// The transactions of a block are taken back, and its coinbase is deleted.
pub open spec fn body_undone(s: StateView, header: HeaderView, body: BodyView) -> Undoing {
    outputs_deleted(
        transactions_undone(
            Undoing { state: s, diff: DiffView::none(), fault: None },
            body.transactions,
            body.transactions.len(),
        ),
        Origin::Coinbase(header.merkle_root),
        body.coinbase,
        body.coinbase.len(),
    )
}

/// Disconnecting the block at the tip, up to the change to the accumulator.
pub open spec fn tip_disconnect_staged(s: StateView, header: HeaderView, body: BodyView) -> Undoing {
    let start = Undoing { state: s, diff: DiffView::none(), fault: None };
    match s.tip {
        None => Undoing { fault: reported(Error::NoTip), ..start },
        Some(tip) => if tip != header.hash {
            Undoing {
                fault: reported(
                    Error::InvalidHeader(
                        InvalidHeader::BlockHash { expected: tip, computed: header.hash },
                    ),
                ),
                ..start
            }
        } else {
            let u = body_undone(s, header, body);
            if u.fault is Some {
                u
            } else {
                let back = tip_undone(u.state, header);
                Undoing { state: back.state, diff: u.diff, fault: back.fault }
            }
        },
    }
}

/// Disconnecting the block at the tip.
pub open spec fn tip_disconnected(s: StateView, header: HeaderView, body: BodyView) -> Step {
    let staged = tip_disconnect_staged(s, header, body);
    if staged.fault is Some {
        Step { state: staged.state, fault: staged.fault }
    } else {
        diff_applied(staged.state, staged.diff)
    }
}

/// Deleting outputs leaves all but the unspent outputs alone.
pub proof fn outputs_deleted_keeps(
    u: Undoing,
    origin: Origin,
    outputs: Seq<OutputView>,
    n: nat,
)
    ensures
        ({
            let done = outputs_deleted(u, origin, outputs, n).state;
            done == (StateView { utxos: done.utxos, ..u.state })
        }),
    decreases n,
{
    reveal_with_fuel(outputs_deleted, 2);
    if n > 0 && u.fault is None {
        let outpoint = origin.outpoint(n - 1);
        let next = Undoing {
            state: StateView { utxos: u.state.utxos.remove(outpoint), ..u.state },
            diff: u.diff.remove(outputs[n - 1].leaf),
            fault: if u.state.utxos.contains_key(outpoint) {
                None
            } else {
                reported(Error::NoUtxo { outpoint })
            },
        };
        outputs_deleted_keeps(next, origin, outputs, (n - 1) as nat);
    }
}

/// Giving back what inputs spent leaves all but the outputs alone.
pub proof fn inputs_unspent_keeps(u: Undoing, inputs: Seq<(OutPoint, Hash256)>, n: nat)
    ensures
        ({
            let done = inputs_unspent(u, inputs, n).state;
            done == (StateView { utxos: done.utxos, stxos: done.stxos, ..u.state })
        }),
    decreases n,
{
    if n > 0 && u.fault is None {
        let (outpoint, leaf) = inputs[n - 1];
        if u.state.stxos.contains_key(outpoint) {
            let next = Undoing {
                state: StateView {
                    stxos: u.state.stxos.remove(outpoint),
                    utxos: u.state.utxos.insert(outpoint, u.state.stxos[outpoint].output),
                    ..u.state
                },
                diff: u.diff.insert(leaf),
                fault: None,
            };
            inputs_unspent_keeps(next, inputs, (n - 1) as nat);
        }
    }
}

/// Taking a transaction back leaves all but outputs and swaps alone.
pub proof fn transaction_undone_keeps(u: Undoing, tx: TransactionView)
    ensures
        ({
            let done = transaction_undone(u, tx).state;
            done == (StateView {
                utxos: done.utxos,
                stxos: done.stxos,
                swaps: done.swaps,
                locked_swap_outputs: done.locked_swap_outputs,
                ..u.state
            })
        }),
{
    let swap = swap_disconnected(u.state, tx);
    let first = Undoing { state: swap.state, diff: u.diff, fault: swap.fault };
    let origin = Origin::Transaction(tx.txid);
    outputs_deleted_keeps(first, origin, tx.outputs, tx.outputs.len());
    inputs_unspent_keeps(
        outputs_deleted(first, origin, tx.outputs, tx.outputs.len()),
        tx.inputs,
        tx.inputs.len(),
    );
}

// Checking.
/// The outputs that the first `n` inputs name.
pub open spec fn looked_up(
    utxos: Map<OutPoint, OutputView>,
    inputs: Seq<(OutPoint, Hash256)>,
    n: nat,
) -> Result<Seq<OutputView>, Error>
    decreases n,
{
    if n == 0 {
        Ok(Seq::empty())
    } else {
        match looked_up(utxos, inputs, (n - 1) as nat) {
            Err(e) => Err(e),
            Ok(found) => {
                let outpoint = inputs[n - 1].0;
                if utxos.contains_key(outpoint) {
                    Ok(found.push(utxos[outpoint]))
                } else {
                    Err(Error::NoUtxo { outpoint })
                }
            },
        }
    }
}

/// A transaction with the outputs that it spends.
pub open spec fn filled(utxos: Map<OutPoint, OutputView>, tx: TransactionView) -> Result<
    FilledTransactionView,
    Error,
> {
    match looked_up(utxos, tx.inputs, tx.inputs.len()) {
        Err(e) => Err(e),
        Ok(spent_utxos) => Ok(FilledTransactionView { transaction: tx, spent_utxos }),
    }
}

/// The first `n` transactions with the outputs that they spend.
pub open spec fn all_filled(
    utxos: Map<OutPoint, OutputView>,
    txs: Seq<TransactionView>,
    n: nat,
) -> Result<Seq<FilledTransactionView>, Error>
    decreases n,
{
    if n == 0 {
        Ok(Seq::empty())
    } else {
        match all_filled(utxos, txs, (n - 1) as nat) {
            Err(e) => Err(e),
            Ok(before) => match filled(utxos, txs[n - 1]) {
                Err(e) => Err(e),
                Ok(tx) => Ok(before.push(tx)),
            },
        }
    }
}

/// The leaves that inputs claim.
pub open spec fn claimed(inputs: Seq<(OutPoint, Hash256)>) -> Seq<Hash256> {
    Seq::new(inputs.len(), |i: int| inputs[i].1)
}

/// Whether the proof of a transaction holds; `None` where it cannot be followed.
pub open spec fn verdict(accumulator: Seq<u8>, tx: TransactionView) -> Option<bool> {
    forest_verified(accumulator, tx.proof.targets, tx.proof.hashes, claimed(tx.inputs))
}

/// Whether the proofs of transactions hold.
pub open spec fn verdicts(accumulator: Seq<u8>, txs: Seq<TransactionView>) -> Seq<Option<bool>> {
    Seq::new(txs.len(), |i: int| verdict(accumulator, txs[i]))
}

/// What is wrong with the proof of a transaction.
pub open spec fn proof_fault(verdict: Option<bool>, txid: Txid) -> Option<Error> {
    match verdict {
        None => Some(Error::Utreexo(UtreexoError)),
        Some(false) => Some(Error::UtreexoProofFailed { txid }),
        Some(true) => None,
    }
}

/// The fees with one more.
pub open spec fn fee_added(fees: u64, fee: Result<u64, Rejection>) -> Result<u64, Error> {
    match fee {
        Err(why) => Err(Error::Transaction(why)),
        Ok(fee) => if fees + fee > u64::MAX {
            Err(Error::AmountOverflow)
        } else {
            Ok((fees + fee) as u64)
        },
    }
}

/// Checks a transaction, its proof first, and adds its fee.
pub open spec fn proof_first(
    utxos: Map<OutPoint, OutputView>,
    tx: TransactionView,
    facts: TransactionFacts,
    verdict: Option<bool>,
    fees: u64,
) -> Result<u64, Error> {
    if filled(utxos, tx) is Err {
        Err(filled(utxos, tx)->Err_0)
    } else if proof_fault(verdict, tx.txid) is Some {
        Err(proof_fault(verdict, tx.txid)->0)
    } else if facts.swap is Err {
        Err(Error::Swap(facts.swap->Err_0))
    } else {
        fee_added(fees, facts.fee)
    }
}

/// Checks the first `n` transactions, each proof first, and sums up their fees.
pub open spec fn all_proof_first(
    utxos: Map<OutPoint, OutputView>,
    txs: Seq<TransactionView>,
    facts: Seq<TransactionFacts>,
    verdicts: Seq<Option<bool>>,
    n: nat,
) -> Result<u64, Error>
    decreases n,
{
    if n == 0 {
        Ok(0)
    } else {
        match all_proof_first(utxos, txs, facts, verdicts, (n - 1) as nat) {
            Err(e) => Err(e),
            Ok(fees) => proof_first(utxos, txs[n - 1], facts[n - 1], verdicts[n - 1], fees),
        }
    }
}

/// Checks a transaction, its proof last, and adds its fee.
pub open spec fn proof_last(
    tx: TransactionView,
    facts: TransactionFacts,
    verdict: Option<bool>,
    fees: u64,
) -> Result<u64, Error> {
    if facts.swap is Err {
        Err(Error::Swap(facts.swap->Err_0))
    } else if fee_added(fees, facts.fee) is Err {
        fee_added(fees, facts.fee)
    } else if proof_fault(verdict, tx.txid) is Some {
        Err(proof_fault(verdict, tx.txid)->0)
    } else {
        fee_added(fees, facts.fee)
    }
}

/// Checks the first `n` transactions, each proof last, and sums up their fees.
pub open spec fn all_proof_last(
    txs: Seq<TransactionView>,
    facts: Seq<TransactionFacts>,
    verdicts: Seq<Option<bool>>,
    n: nat,
) -> Result<u64, Error>
    decreases n,
{
    if n == 0 {
        Ok(0)
    } else {
        match all_proof_last(txs, facts, verdicts, (n - 1) as nat) {
            Err(e) => Err(e),
            Ok(fees) => proof_last(txs[n - 1], facts[n - 1], verdicts[n - 1], fees),
        }
    }
}

/// The coins that the first `n` outputs hold.
pub open spec fn coins(outputs: Seq<OutputView>, n: nat) -> nat
    decreases n,
{
    if n == 0 {
        0
    } else {
        coins(outputs, (n - 1) as nat) + outputs[n - 1].content.value() as nat
    }
}

/// The outpoints that the first `n` transactions spend.
pub open spec fn spent_outpoints(txs: Seq<TransactionView>, n: nat) -> Seq<OutPoint>
    decreases n,
{
    if n == 0 {
        Seq::empty()
    } else {
        spent_outpoints(txs, (n - 1) as nat) + Seq::new(
            txs[n - 1].inputs.len(),
            |i: int| txs[n - 1].inputs[i].0,
        )
    }
}

/// Whose signature it takes to spend an output. None is asked for where a swap
/// that the output is set aside for is claimed.
#[derive(Clone, Copy)]
pub struct Owner {
    pub address: Address,
    pub exempt: bool,
}

/// Whose signatures it takes to spend the outputs that a transaction spends.
pub open spec fn owners_of(tx: FilledTransactionView) -> Seq<Owner> {
    Seq::new(
        tx.spent_utxos.len(),
        |i: int|
            Owner {
                address: tx.spent_utxos[i].address,
                exempt: tx.transaction.data is SwapClaim
                    && tx.spent_utxos[i].content is SwapPending,
            },
    )
}

/// Whose signatures the first `n` transactions take.
pub open spec fn owners(txs: Seq<FilledTransactionView>, n: nat) -> Seq<Owner>
    decreases n,
{
    if n == 0 {
        Seq::empty()
    } else {
        owners(txs, (n - 1) as nat) + owners_of(txs[n - 1])
    }
}

/// The signatures, as far as there are any, are those of the owners, in order.
pub open spec fn owners_signed(owners: Seq<Owner>, authorizations: Seq<Authorization>) -> bool {
    forall|i: int|
        0 <= i < owners.len() && i < authorizations.len() ==> (#[trigger] owners[i]).exempt
            || authorizations[i].address == owners[i].address
}

/// What is wrong with where a block stands, or with its size.
pub open spec fn frame_fault(
    s: StateView,
    header: HeaderView,
    body: BodyView,
    facts: BodyFactsView,
) -> Option<Fault> {
    if header.prev_side_hash != s.tip {
        reported(not_next(s, header))
    } else if s.height == Some(u32::MAX) {
        halted(Halt::OutOfRange)
    } else if body.authorizations.len() > facts.sigops_limit {
        reported(Error::TooManySigops)
    } else {
        match facts.size {
            None => reported(Error::BorshSerialize),
            Some(size) => if size > facts.size_limit {
                reported(Error::BodyTooLarge)
            } else {
                None
            },
        }
    }
}

/// What is wrong with the merkle root.
pub open spec fn root_fault(header: HeaderView, facts: BodyFactsView) -> Option<Error> {
    match facts.merkle_root {
        Err(why) => Some(Error::MerkleRoot(why)),
        Ok(computed) => if computed != header.merkle_root {
            Some(Error::InvalidBody { expected: header.merkle_root, computed })
        } else {
            None
        },
    }
}

/// What is wrong with a block whose transactions pay `fees` and spend each
/// output once.
pub open spec fn ending_fault(
    body: BodyView,
    facts: BodyFactsView,
    txs: Seq<FilledTransactionView>,
    fees: u64,
) -> Option<Error> {
    if coins(body.coinbase, body.coinbase.len()) > fees {
        Some(Error::NotEnoughFees)
    } else if !owners_signed(owners(txs, txs.len()), body.authorizations) {
        Some(Error::WrongPubKeyForAddress)
    } else if !facts.authorized {
        Some(Error::Authorization)
    } else {
        None
    }
}

/// The roots that the accumulator has once a change is made, if it is made.
pub open spec fn roots_after(accumulator: Seq<u8>, diff: DiffView) -> Result<Seq<NodeHash>, Fault> {
    match diff.applied(accumulator) {
        Ok(after) => Ok(forest_roots(after)),
        Err(fault) => Err(fault),
    }
}

/// What is wrong with the roots that a header commits to.
pub open spec fn roots_fault(header: HeaderView, roots: Result<Seq<NodeHash>, Fault>) -> Option<
    Fault,
> {
    match roots {
        Err(fault) => Some(fault),
        Ok(roots) => if roots != header.roots {
            reported(Error::UtreexoRootsMismatch)
        } else {
            None
        },
    }
}

/// Checking a block ahead of connecting it, up to the roots. `verdicts` tells
/// whether the proofs of its transactions hold.
pub open spec fn prevalidate_staged(
    s: StateView,
    header: HeaderView,
    body: BodyView,
    facts: BodyFactsView,
    verdicts: Seq<Option<bool>>,
) -> Result<PrevalidatedBlockView, Fault> {
    let txs = body.transactions;
    let fees = all_proof_first(s.utxos, txs, facts.transactions, verdicts, txs.len());
    let all = all_filled(s.utxos, txs, txs.len())->Ok_0;
    let value = coins(body.coinbase, body.coinbase.len());
    if frame_fault(s, header, body, facts) is Some {
        Err(frame_fault(s, header, body, facts)->0)
    } else if fees is Err {
        Err(Fault::Error(fees->Err_0))
    } else if root_fault(header, facts) is Some {
        Err(Fault::Error(root_fault(header, facts)->0))
    } else if !spent_outpoints(txs, txs.len()).no_duplicates() {
        Err(Fault::Error(Error::UtxoDoubleSpent))
    } else if value > u64::MAX {
        Err(Fault::Error(Error::AmountOverflow))
    } else if ending_fault(body, facts, all, fees->Ok_0) is Some {
        Err(Fault::Error(ending_fault(body, facts, all, fees->Ok_0)->0))
    } else {
        Ok(
            PrevalidatedBlockView {
                filled_transactions: all,
                computed_merkle_root: header.merkle_root,
                total_fees: fees->Ok_0,
                coinbase_value: value as u64,
                next_height: s.next_height() as u32,
                accumulator_diff: body_diff(body),
            },
        )
    }
}

/// Checking a block ahead of connecting it.
pub open spec fn prevalidated(
    s: StateView,
    header: HeaderView,
    body: BodyView,
    facts: BodyFactsView,
) -> Result<PrevalidatedBlockView, Fault> {
    let staged = prevalidate_staged(
        s,
        header,
        body,
        facts,
        verdicts(s.accumulator, body.transactions),
    );
    let fault = roots_fault(header, roots_after(s.accumulator, body_diff(body)));
    if staged is Ok && fault is Some {
        Err(fault->0)
    } else {
        staged
    }
}

/// Checking a block, up to the roots: the fees that its transactions pay, and
/// its merkle root. `verdicts` tells whether the proofs of its transactions
/// hold.
pub open spec fn validate_staged(
    s: StateView,
    header: HeaderView,
    body: BodyView,
    facts: BodyFactsView,
    verdicts: Seq<Option<bool>>,
) -> Result<(u64, MerkleRoot), Fault> {
    let txs = body.transactions;
    let all = all_filled(s.utxos, txs, txs.len());
    let fees = all_proof_last(txs, facts.transactions, verdicts, txs.len());
    if frame_fault(s, header, body, facts) is Some {
        Err(frame_fault(s, header, body, facts)->0)
    } else if all is Err {
        Err(Fault::Error(all->Err_0))
    } else if root_fault(header, facts) is Some {
        Err(Fault::Error(root_fault(header, facts)->0))
    } else if coins(body.coinbase, body.coinbase.len()) > u64::MAX {
        Err(Fault::Error(Error::AmountOverflow))
    } else if fees is Err {
        Err(Fault::Error(fees->Err_0))
    } else if !spent_outpoints(txs, txs.len()).no_duplicates() {
        Err(Fault::Error(Error::UtxoDoubleSpent))
    } else if ending_fault(body, facts, all->Ok_0, fees->Ok_0) is Some {
        Err(Fault::Error(ending_fault(body, facts, all->Ok_0, fees->Ok_0)->0))
    } else {
        Ok((fees->Ok_0, header.merkle_root))
    }
}

/// Checking a block: the fees that its transactions pay, and its merkle root.
pub open spec fn validated(
    s: StateView,
    header: HeaderView,
    body: BodyView,
    facts: BodyFactsView,
) -> Result<(u64, MerkleRoot), Fault> {
    let staged = validate_staged(
        s,
        header,
        body,
        facts,
        verdicts(s.accumulator, body.transactions),
    );
    let fault = roots_fault(header, roots_after(s.accumulator, body_diff(body)));
    if staged is Ok && fault is Some {
        Err(fault->0)
    } else {
        staged
    }
}

} // verus!
