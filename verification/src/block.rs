//! Checking, connecting and disconnecting blocks.
use vstd::prelude::*;

use crate::accumulator::{AccumulatorDiff, DiffView};
use crate::block_check::{
    check_ending, check_root, check_roots, check_verdict, spends_once, sum_coins,
};
use crate::block_model::{
    all_coins_moved, all_filled, all_filled_connected, all_proof_first, all_proof_last, block_moved,
    body_diff, coinbase_diff, coinbase_made, coins, coins_moved, connect_staged, connected,
    expiration_fits, fee_added, filled, filled_in_turn, frame_fault, halts, inputs_locked,
    inputs_spent, inputs_unlocked, inputs_unspent, is_connected, leaves_added, leaves_taken,
    locks_with, may_be_root, may_be_root_if_any, names, outputs_deleted, outputs_unlocked,
    prevalidate_staged, prevalidated, prevalidated_connected, prevalidated_staged, proof_first,
    proof_last, reported, root_fault, swap_connected, swap_disconnected, swap_made,
    tip_disconnect_staged, tip_disconnected, tip_moved, transaction_diff, transaction_undone,
    transactions_diff, transactions_undone, utxos_with, validate_staged, validated, BodyFacts,
    PrevalidatedBlockView, Step, TransactionFacts, Undoing,
};
use crate::error::{Error, Fault, Halt, InvalidHeader, Rejection, TransactionFault};
use crate::ids::{Hash256, MerkleRoot, SwapId, Txid};
use crate::state::{State, StateView};
use crate::swap::{Swap, SwapDirection, SwapState, SwapTxId};
use crate::types::{
    Body, FilledTransaction, FilledTransactionView, Header, InPoint, Origin, OutPoint, Output,
    OutputView, SpentOutput, Transaction, TransactionView, TxData,
};

verus! {

/// A block that was checked, with what connecting it needs.
pub struct PrevalidatedBlock {
    pub filled_transactions: Vec<FilledTransaction>,
    pub computed_merkle_root: MerkleRoot,
    pub total_fees: u64,
    pub coinbase_value: u64,
    pub next_height: u32,
    pub accumulator_diff: AccumulatorDiff,
}

impl DeepView for PrevalidatedBlock {
    type V = PrevalidatedBlockView;

    open spec fn deep_view(&self) -> PrevalidatedBlockView {
        PrevalidatedBlockView {
            filled_transactions: self.filled_transactions.deep_view(),
            computed_merkle_root: self.computed_merkle_root,
            total_fees: self.total_fees,
            coinbase_value: self.coinbase_value,
            next_height: self.next_height,
            accumulator_diff: self.accumulator_diff@,
        }
    }
}

/// Puts outputs where unspent outputs are kept.
fn put_outputs(state: &mut State, origin: Origin, outputs: &Vec<Output>)
    ensures
        final(state)@ == (StateView {
            utxos: utxos_with(
                old(state)@.utxos,
                origin,
                outputs.deep_view(),
                outputs.deep_view().len(),
            ),
            ..old(state)@
        }),
{
    let n: usize = outputs.len();
    for i in 0..n
        invariant
            n == outputs@.len(),
            state@ == (StateView {
                utxos: utxos_with(old(state)@.utxos, origin, outputs.deep_view(), i as nat),
                ..old(state)@
            }),
    {
        state.utxos.put(origin.outpoint_at(i), outputs[i].clone());
        assert(outputs.deep_view()[i as int] == outputs@[i as int].deep_view());
    }
}

/// Adds the leaves of outputs.
fn add_leaves(diff: &mut AccumulatorDiff, outputs: &Vec<Output>)
    ensures
        final(diff)@ == leaves_added(old(diff)@, outputs.deep_view(), outputs.deep_view().len()),
{
    let n: usize = outputs.len();
    for i in 0..n
        invariant
            n == outputs@.len(),
            diff@ == leaves_added(old(diff)@, outputs.deep_view(), i as nat),
    {
        assert(outputs.deep_view()[i as int] == outputs@[i as int].deep_view());
        diff.insert(outputs[i].leaf);
    }
}

/// Takes out the leaves that inputs claim.
fn take_leaves(diff: &mut AccumulatorDiff, inputs: &Vec<(OutPoint, Hash256)>)
    ensures
        final(diff)@ == leaves_taken(old(diff)@, inputs@, inputs@.len()),
{
    let n: usize = inputs.len();
    for i in 0..n
        invariant
            n == inputs@.len(),
            diff@ == leaves_taken(old(diff)@, inputs@, i as nat),
    {
        diff.remove(inputs[i].1);
    }
}

/// Makes the change to the accumulator that a transaction makes.
fn add_transaction(diff: &mut AccumulatorDiff, tx: &Transaction)
    ensures
        final(diff)@ == transaction_diff(old(diff)@, tx.deep_view()),
{
    take_leaves(diff, &tx.inputs);
    add_leaves(diff, &tx.outputs);
}

/// Once an input is missing, nothing more is spent.
proof fn missing_stays(
    s: StateView,
    txid: Txid,
    inputs: Seq<(OutPoint, Hash256)>,
    i: nat,
    n: nat,
)
    requires
        i <= n,
        inputs_spent(s.utxos, s.stxos, txid, inputs, i).missing is Some,
    ensures
        inputs_spent(s.utxos, s.stxos, txid, inputs, n) == inputs_spent(
            s.utxos,
            s.stxos,
            txid,
            inputs,
            i,
        ),
    decreases n - i,
{
    if i < n {
        missing_stays(s, txid, inputs, i, (n - 1) as nat);
    }
}

/// Spends the outputs that the inputs of a transaction name, and hands them out.
fn spend_inputs(state: &mut State, txid: Txid, inputs: &Vec<(OutPoint, Hash256)>) -> (r: Result<
    Vec<Output>,
    Error,
>)
    ensures
        ({
            let spending = inputs_spent(
                old(state)@.utxos,
                old(state)@.stxos,
                txid,
                inputs@,
                inputs@.len(),
            );
            &&& final(state)@ == (StateView {
                utxos: spending.utxos,
                stxos: spending.stxos,
                ..old(state)@
            })
            &&& match r {
                Ok(spent) => spending.missing is None && spent.deep_view() == spending.spent,
                Err(e) => spending.missing is Some && e == (Error::NoUtxo {
                    outpoint: spending.missing->0,
                }),
            }
        }),
{
    let mut spent: Vec<Output> = Vec::new();
    assert(spent.deep_view() =~= Seq::empty());
    let n: usize = inputs.len();
    for i in 0..n
        invariant
            n == inputs@.len(),
            ({
                let spending = inputs_spent(
                    old(state)@.utxos,
                    old(state)@.stxos,
                    txid,
                    inputs@,
                    i as nat,
                );
                &&& spending.missing is None
                &&& spending.spent == spent.deep_view()
                &&& state@ == (StateView {
                    utxos: spending.utxos,
                    stxos: spending.stxos,
                    ..old(state)@
                })
            }),
    {
        let outpoint = inputs[i].0;
        match state.utxos.take(&outpoint) {
            Some(output) => {
                let inpoint = InPoint::Regular { txid, vin: #[verifier::truncate] (i as u32) };
                let ghost before = spent.deep_view();
                spent.push(output.clone());
                assert(spent.deep_view() =~= before.push(output.deep_view()));
                state.stxos.put(outpoint, SpentOutput { output, inpoint });
            },
            None => {
                proof {
                    missing_stays(old(state)@, txid, inputs@, (i + 1) as nat, n as nat);
                    assert(state@.utxos =~= inputs_spent(
                        old(state)@.utxos,
                        old(state)@.stxos,
                        txid,
                        inputs@,
                        i as nat,
                    ).utxos);
                }
                return Err(Error::NoUtxo { outpoint });
            },
        }
    }
    Ok(spent)
}

/// Moves the coins of a transaction, and hands out the outputs that it spends.
fn move_coins(state: &mut State, tx: &Transaction) -> (r: Result<Vec<Output>, Error>)
    ensures
        ({
            let step = coins_moved(old(state)@, tx.deep_view());
            let spent = inputs_spent(
                old(state)@.utxos,
                old(state)@.stxos,
                tx.txid,
                tx.inputs@,
                tx.inputs@.len(),
            ).spent;
            &&& final(state)@ == step.state
            &&& match r {
                Ok(outputs) => step.fault is None && outputs.deep_view() == spent,
                Err(e) => step.fault == reported(e),
            }
        }),
{
    match spend_inputs(state, tx.txid, &tx.inputs) {
        Ok(spent) => {
            put_outputs(state, Origin::Transaction(tx.txid), &tx.outputs);
            Ok(spent)
        },
        Err(e) => Err(e),
    }
}

/// Once moving coins failed, nothing more is moved.
proof fn moving_stays(s: StateView, txs: Seq<TransactionView>, i: nat, n: nat)
    requires
        i <= n,
        all_coins_moved(s, txs, i).fault is Some,
    ensures
        all_coins_moved(s, txs, n) == all_coins_moved(s, txs, i),
    decreases n - i,
{
    if i < n {
        moving_stays(s, txs, i, (n - 1) as nat);
    }
}

/// Moves the coins of a block that follows the tip. Hands out the transactions
/// with the outputs that they spent, and the change to the accumulator. Where the
/// block is turned down, what was done until then is left as it is.
pub fn move_block(state: &mut State, header: &Header, body: &Body) -> (r: Result<
    (Vec<FilledTransaction>, AccumulatorDiff),
    Error,
>)
    ensures
        ({
            let step = block_moved(old(state)@, header.deep_view(), body.deep_view());
            let made = coinbase_made(old(state)@, header.merkle_root, body.coinbase.deep_view());
            &&& final(state)@ == step.state
            &&& match r {
                Ok((list, diff)) => step.fault is None && list.deep_view() == filled_in_turn(
                    made,
                    body.deep_view().transactions,
                ) && diff@ == body_diff(body.deep_view()),
                Err(e) => step.fault == reported(e),
            }
        }),
{
    if state.tip != header.prev_side_hash {
        return Err(
            Error::InvalidHeader(
                InvalidHeader::PrevSideHash {
                    expected: state.tip,
                    received: header.prev_side_hash,
                },
            ),
        );
    }
    let mut diff = AccumulatorDiff::new();
    add_leaves(&mut diff, &body.coinbase);
    put_outputs(state, Origin::Coinbase(header.merkle_root), &body.coinbase);
    let ghost made = state@;
    let ghost txs = body.deep_view().transactions;
    let ghost all = filled_in_turn(made, txs);
    let mut list: Vec<FilledTransaction> = Vec::new();
    assert(list.deep_view() =~= all.take(0));
    let n: usize = body.transactions.len();
    for i in 0..n
        invariant
            n == body.transactions@.len(),
            txs == body.transactions.deep_view(),
            old(state)@.tip == header.prev_side_hash,
            made == coinbase_made(old(state)@, header.merkle_root, body.coinbase.deep_view()),
            all == filled_in_turn(made, txs),
            list.deep_view() == all.take(i as int),
            diff@ == transactions_diff(coinbase_diff(body.coinbase.deep_view()), txs, i as nat),
            all_coins_moved(made, txs, i as nat) == (Step { state: state@, fault: None }),
    {
        let tx = &body.transactions[i];
        assert(txs[i as int] == tx.deep_view());
        add_transaction(&mut diff, tx);
        match move_coins(state, tx) {
            Ok(spent_utxos) => {
                let ghost before = list.deep_view();
                let filled = FilledTransaction { transaction: tx.clone(), spent_utxos };
                list.push(filled);
                assert(list.deep_view() =~= before.push(filled.deep_view()));
                assert(all[i as int] == filled.deep_view());
                assert(list.deep_view() =~= all.take(i + 1));
            },
            Err(e) => {
                proof {
                    moving_stays(made, txs, (i + 1) as nat, n as nat);
                }
                return Err(e);
            },
        }
    }
    assert(all.take(n as int) =~= all);
    Ok((list, diff))
}

/// Makes a block the tip whose coins were moved. `merkle_root` is that of its
/// coinbase and its filled transactions.
pub fn move_tip(
    state: &mut State,
    header: &Header,
    merkle_root: Result<MerkleRoot, Rejection>,
) -> (r: Result<(), Fault>)
    ensures
        ({
            let step = tip_moved(old(state)@, header.deep_view(), merkle_root);
            &&& final(state)@ == step.state
            &&& r == step.reports(())
        }),
{
    let computed = match merkle_root {
        Ok(computed) => computed,
        Err(why) => {
            return Err(Fault::Error(Error::MerkleRoot(why)));
        },
    };
    if computed != header.merkle_root {
        return Err(Fault::Error(Error::InvalidBody { expected: header.merkle_root, computed }));
    }
    if state.height == Some(u32::MAX) {
        return Err(Fault::Halt(Halt::OutOfRange));
    }
    let height: u32 = state.next_height();
    state.tip = Some(header.hash);
    state.height = Some(height);
    Ok(())
}

/// Connects a block without checking it, up to the change to the accumulator,
/// which is handed out. `merkle_root` is that of its coinbase and its filled
/// transactions. Where the block is turned down, what was done until then is
/// left as it is.
pub fn stage_connect(
    state: &mut State,
    header: &Header,
    body: &Body,
    merkle_root: Result<MerkleRoot, Rejection>,
) -> (r: Result<AccumulatorDiff, Fault>)
    ensures
        ({
            let step = connect_staged(
                old(state)@,
                header.deep_view(),
                body.deep_view(),
                merkle_root,
            );
            &&& final(state)@ == step.state
            &&& match r {
                Ok(diff) => step.fault is None && diff@ == body_diff(body.deep_view()),
                Err(fault) => step.fault == Some(fault),
            }
        }),
{
    match move_block(state, header, body) {
        Err(e) => Err(Fault::Error(e)),
        Ok((_, diff)) => match move_tip(state, header, merkle_root) {
            Ok(()) => Ok(diff),
            Err(fault) => Err(fault),
        },
    }
}

/// Connects a block without checking it. `merkle_root` is that of its coinbase
/// and its filled transactions. Where the block is turned down, what was done
/// until then is left as it is.
pub fn try_connect(
    state: &mut State,
    header: &Header,
    body: &Body,
    merkle_root: Result<MerkleRoot, Rejection>,
) -> (r: Result<MerkleRoot, Fault>)
    ensures
        ({
            let step = connected(old(state)@, header.deep_view(), body.deep_view(), merkle_root);
            &&& final(state)@ == step.state
            &&& r == step.reports(header.deep_view().merkle_root)
        }),
{
    match stage_connect(state, header, body, merkle_root) {
        Err(fault) => Err(fault),
        Ok(diff) => {
            let changed = state.accumulator.with_diff(&diff);
            match state.take_change(changed) {
                Ok(()) => Ok(header.merkle_root),
                Err(fault) => Err(fault),
            }
        },
    }
}

/// Connects a block without checking it. `merkle_root` finds the merkle root of a
/// coinbase and of filled transactions, once the outputs that they spend are
/// known. Where the block is turned down, what was done until then is left as it
/// is.
pub fn try_connect_with<
    F: Fn(&Vec<Output>, &Vec<FilledTransaction>) -> Result<MerkleRoot, Rejection>,
>(state: &mut State, header: &Header, body: &Body, merkle_root: &F) -> (r: Result<
    MerkleRoot,
    Fault,
>)
    requires
        forall|c: Vec<Output>, t: Vec<FilledTransaction>| call_requires(*merkle_root, (&c, &t)),
    ensures
        is_connected(
            *merkle_root,
            old(state)@,
            header.deep_view(),
            body.deep_view(),
            (Step {
                state: final(state)@,
                fault: match r {
                    Ok(_) => None,
                    Err(fault) => Some(fault),
                },
            }),
        ),
        r is Ok ==> r->Ok_0 == header.deep_view().merkle_root,
{
    let ghost s = state@;
    let ghost h = header.deep_view();
    let ghost b = body.deep_view();
    match move_block(state, header, body) {
        Err(e) => {
            assert(may_be_root_if_any(*merkle_root, s, h, b, Err(Rejection(0))));
            assert(connected(s, h, b, Err(Rejection(0))) == (Step {
                state: state@,
                fault: reported(e),
            }));
            Err(Fault::Error(e))
        },
        Ok((filled, diff)) => {
            let computed = merkle_root(&body.coinbase, &filled);
            assert(may_be_root(*merkle_root, b.coinbase, filled.deep_view(), computed));
            assert(may_be_root_if_any(*merkle_root, s, h, b, computed));
            match move_tip(state, header, computed) {
                Err(fault) => {
                    assert(connected(s, h, b, computed) == (Step {
                        state: state@,
                        fault: Some(fault),
                    }));
                    Err(fault)
                },
                Ok(()) => {
                    let changed = state.accumulator.with_diff(&diff);
                    match state.take_change(changed) {
                        Ok(()) => {
                            assert(connected(s, h, b, computed) == (Step {
                                state: state@,
                                fault: None,
                            }));
                            Ok(header.merkle_root)
                        },
                        Err(fault) => {
                            assert(connected(s, h, b, computed) == (Step {
                                state: state@,
                                fault: Some(fault),
                            }));
                            Err(fault)
                        },
                    }
                },
            }
        },
    }
}

/// Connects a block without checking it, where that does not come upon a state
/// that cannot be; `try_connect` tells where it does. `merkle_root` is that of
/// its coinbase and its filled transactions. Where the block is turned down, what
/// was done until then is left as it is.
pub fn connect(
    state: &mut State,
    header: &Header,
    body: &Body,
    merkle_root: Result<MerkleRoot, Rejection>,
) -> (r: Result<MerkleRoot, Error>)
    requires
        !halts(
            connected(old(state)@, header.deep_view(), body.deep_view(), merkle_root).fault,
        ),
    ensures
        ({
            let step = connected(old(state)@, header.deep_view(), body.deep_view(), merkle_root);
            &&& final(state)@ == step.state
            &&& match r {
                Ok(root) => step.fault is None && root == header.deep_view().merkle_root,
                Err(e) => step.fault == reported(e),
            }
        }),
{
    match try_connect(state, header, body, merkle_root) {
        Ok(root) => Ok(root),
        Err(Fault::Error(e)) => Err(e),
        Err(Fault::Halt(_)) => {
            assert(false);
            Err(Error::NoTip)
        },
    }
}

/// Locks to a swap those outputs that are set aside for one.
fn lock_outputs(state: &mut State, origin: Origin, outputs: &Vec<Output>, swap_id: SwapId)
    ensures
        final(state)@ == (StateView {
            locked_swap_outputs: locks_with(
                old(state)@.locked_swap_outputs,
                origin,
                outputs.deep_view(),
                swap_id,
                outputs.deep_view().len(),
            ),
            ..old(state)@
        }),
{
    let n: usize = outputs.len();
    for i in 0..n
        invariant
            n == outputs@.len(),
            state@ == (StateView {
                locked_swap_outputs: locks_with(
                    old(state)@.locked_swap_outputs,
                    origin,
                    outputs.deep_view(),
                    swap_id,
                    i as nat,
                ),
                ..old(state)@
            }),
    {
        assert(outputs.deep_view()[i as int] == outputs@[i as int].deep_view());
        if outputs[i].content.is_swap_pending() {
            state.lock_output_to_swap(&origin.outpoint_at(i), &swap_id);
        }
    }
}

/// Releases the inputs that are locked to a swap.
fn unlock_inputs(state: &mut State, inputs: &Vec<(OutPoint, Hash256)>, swap_id: SwapId)
    ensures
        final(state)@ == (StateView {
            locked_swap_outputs: inputs_unlocked(
                old(state)@.locked_swap_outputs,
                inputs@,
                swap_id,
            ),
            ..old(state)@
        }),
{
    let ghost locks = state@.locked_swap_outputs;
    let n: usize = inputs.len();
    assert(locks =~= inputs_unlocked(locks, inputs@.take(0), swap_id));
    for i in 0..n
        invariant
            n == inputs@.len(),
            locks == old(state)@.locked_swap_outputs,
            state@ == (StateView {
                locked_swap_outputs: inputs_unlocked(locks, inputs@.take(i as int), swap_id),
                ..old(state)@
            }),
    {
        let ghost some = inputs@.take(i as int);
        let ghost more = inputs@.take(i + 1);
        let outpoint = inputs[i].0;
        proof {
            assert(more[i as int].0 == outpoint);
            assert forall|k: OutPoint| names(more, k) <==> names(some, k) || k == outpoint by {
                if names(some, k) {
                    let j = choose|j: int| 0 <= j < some.len() && (#[trigger] some[j]).0 == k;
                    assert(more[j].0 == k);
                }
                if names(more, k) && k != outpoint {
                    let j = choose|j: int| 0 <= j < more.len() && (#[trigger] more[j]).0 == k;
                    assert(some[j].0 == k);
                }
            }
        }
        if state.is_output_locked_to_swap(&outpoint) == Some(swap_id) {
            state.unlock_output_from_swap(&outpoint);
        }
        assert(state@.locked_swap_outputs =~= inputs_unlocked(locks, more, swap_id));
    }
    assert(inputs@.take(n as int) =~= inputs@);
}

/// Makes the swap that a transaction makes.
fn make_swap(filled: &FilledTransaction, height: u32) -> (r: Option<Swap>)
    requires
        expiration_fits(filled.deep_view(), height),
    ensures
        match r {
            Some(swap) => filled.deep_view().transaction.data is SwapCreate && swap.deep_view()
                == swap_made(filled.deep_view(), height),
            None => !(filled.deep_view().transaction.data is SwapCreate),
        },
{
    match &filled.transaction.data {
        TxData::SwapCreate {
            swap_id,
            parent_chain,
            l1_txid_bytes,
            required_confirmations,
            l2_recipient,
            l2_amount,
            l1_recipient_address,
            l1_amount,
        } => {
            let l1_txid = SwapTxId::from_bytes(l1_txid_bytes);
            let l2_creator_address = if filled.spent_utxos.len() > 0 {
                assert(filled.deep_view().spent_utxos[0] == filled.spent_utxos@[0].deep_view());
                Some(filled.spent_utxos[0].address)
            } else {
                None
            };
            Some(
                Swap::new(
                    *swap_id,
                    SwapDirection::L2ToL1,
                    *parent_chain,
                    l1_txid,
                    *required_confirmations,
                    *l2_recipient,
                    *l2_amount,
                    l1_recipient_address.clone(),
                    *l1_amount,
                    height,
                    Some(height + parent_chain.default_swap_expiration_blocks),
                    l2_creator_address,
                ),
            )
        },
        _ => None,
    }
}

/// Does what a transaction does to swaps.
fn connect_swap(state: &mut State, filled: &FilledTransaction, height: u32) -> (r: Result<
    (),
    Fault,
>)
    ensures
        ({
            let step = swap_connected(old(state)@, filled.deep_view(), height);
            &&& final(state)@ == step.state
            &&& r == step.reports(())
        }),
{
    let tx = &filled.transaction;
    match &tx.data {
        TxData::Regular => Ok(()),
        TxData::SwapCreate { swap_id, parent_chain, .. } => {
            if u32::MAX - height < parent_chain.default_swap_expiration_blocks {
                return Err(Fault::Halt(Halt::OutOfRange));
            }
            match make_swap(filled, height) {
                Some(swap) => {
                    lock_outputs(state, Origin::Transaction(tx.txid), &tx.outputs, *swap_id);
                    state.save_swap(swap);
                },
                None => {},
            }
            Ok(())
        },
        TxData::SwapClaim { swap_id, l2_claimer_address } => {
            let mut swap = match state.get_swap(swap_id) {
                Some(swap) => swap,
                None => {
                    return Err(Fault::Error(Error::SwapNotFound { swap_id: *swap_id }));
                },
            };
            // A block that claims a swap is believed: whoever made it saw the
            // payment, though it may not have been seen here yet.
            if swap.state != SwapState::ReadyToClaim {
                swap.state = SwapState::ReadyToClaim;
                state.save_swap(swap.clone());
            }
            if swap.l2_recipient.is_none() && l2_claimer_address.is_none() {
                return Err(
                    Fault::Error(
                        Error::InvalidTransaction(TransactionFault::OpenSwapClaimWithoutClaimer),
                    ),
                );
            }
            unlock_inputs(state, &tx.inputs, *swap_id);
            swap.state = SwapState::Completed;
            state.save_swap(swap);
            assert(state@ =~= swap_connected(old(state)@, filled.deep_view(), height).state);
            Ok(())
        },
    }
}

/// Once connecting a transaction failed, no more are connected.
proof fn connecting_stays(
    s: StateView,
    txs: Seq<FilledTransactionView>,
    height: u32,
    i: nat,
    n: nat,
)
    requires
        i <= n,
        all_filled_connected(s, txs, height, i).fault is Some,
    ensures
        all_filled_connected(s, txs, height, n) == all_filled_connected(s, txs, height, i),
    decreases n - i,
{
    if i < n {
        connecting_stays(s, txs, height, i, (n - 1) as nat);
    }
}

/// Connects a block that was checked before, up to the change to the
/// accumulator. Where the block is turned down, what was done until then is left
/// as it is.
pub fn stage_connect_prevalidated(
    state: &mut State,
    header: &Header,
    body: &Body,
    pre: &PrevalidatedBlock,
) -> (r: Result<(), Fault>)
    ensures
        ({
            let step = prevalidated_staged(
                old(state)@,
                header.deep_view(),
                body.deep_view(),
                pre.deep_view(),
            );
            &&& final(state)@ == step.state
            &&& r == step.reports(())
        }),
{
    if state.tip != header.prev_side_hash {
        return Err(
            Fault::Error(
                Error::InvalidHeader(
                    InvalidHeader::PrevSideHash {
                        expected: state.tip,
                        received: header.prev_side_hash,
                    },
                ),
            ),
        );
    }
    if pre.computed_merkle_root != header.merkle_root {
        return Err(
            Fault::Error(
                Error::InvalidBody {
                    expected: pre.computed_merkle_root,
                    computed: header.merkle_root,
                },
            ),
        );
    }
    put_outputs(state, Origin::Coinbase(pre.computed_merkle_root), &body.coinbase);
    let ghost made = state@;
    let ghost txs = pre.deep_view().filled_transactions;
    let height: u32 = pre.next_height;
    let n: usize = pre.filled_transactions.len();
    for i in 0..n
        invariant
            n == pre.filled_transactions@.len(),
            txs == pre.filled_transactions.deep_view(),
            height == pre.next_height,
            old(state)@.tip == header.prev_side_hash,
            pre.computed_merkle_root == header.merkle_root,
            made == coinbase_made(
                old(state)@,
                pre.computed_merkle_root,
                body.coinbase.deep_view(),
            ),
            all_filled_connected(made, txs, height, i as nat) == (Step {
                state: state@,
                fault: None,
            }),
    {
        let filled = &pre.filled_transactions[i];
        assert(txs[i as int] == filled.deep_view());
        match move_coins(state, &filled.transaction) {
            Ok(_) => {},
            Err(e) => {
                proof {
                    connecting_stays(made, txs, height, (i + 1) as nat, n as nat);
                }
                return Err(Fault::Error(e));
            },
        }
        match connect_swap(state, filled, height) {
            Ok(()) => {},
            Err(e) => {
                proof {
                    connecting_stays(made, txs, height, (i + 1) as nat, n as nat);
                }
                return Err(e);
            },
        }
    }
    state.tip = Some(header.hash);
    state.height = Some(height);
    Ok(())
}

/// Connects a block that was checked before. Where the block is turned down,
/// what was done until then is left as it is.
pub fn try_connect_prevalidated(
    state: &mut State,
    header: &Header,
    body: &Body,
    pre: PrevalidatedBlock,
) -> (r: Result<MerkleRoot, Fault>)
    ensures
        ({
            let step = prevalidated_connected(
                old(state)@,
                header.deep_view(),
                body.deep_view(),
                pre.deep_view(),
            );
            &&& final(state)@ == step.state
            &&& r == step.reports(pre.deep_view().computed_merkle_root)
        }),
{
    match stage_connect_prevalidated(state, header, body, &pre) {
        Err(fault) => Err(fault),
        Ok(()) => {
            let changed = state.accumulator.with_diff(&pre.accumulator_diff);
            match state.take_change(changed) {
                Ok(()) => Ok(pre.computed_merkle_root),
                Err(fault) => Err(fault),
            }
        },
    }
}

/// Connects a block that was checked before, where that does not come upon a
/// state that cannot be; `try_connect_prevalidated` tells where it does. Where the
/// block is turned down, what was done until then is left as it is.
pub fn connect_prevalidated(
    state: &mut State,
    header: &Header,
    body: &Body,
    pre: PrevalidatedBlock,
) -> (r: Result<MerkleRoot, Error>)
    requires
        !halts(
            prevalidated_connected(
                old(state)@,
                header.deep_view(),
                body.deep_view(),
                pre.deep_view(),
            ).fault,
        ),
    ensures
        ({
            let step = prevalidated_connected(
                old(state)@,
                header.deep_view(),
                body.deep_view(),
                pre.deep_view(),
            );
            &&& final(state)@ == step.state
            &&& match r {
                Ok(root) => step.fault is None && root == pre.deep_view().computed_merkle_root,
                Err(e) => step.fault == reported(e),
            }
        }),
{
    match try_connect_prevalidated(state, header, body, pre) {
        Ok(root) => Ok(root),
        Err(Fault::Error(e)) => Err(e),
        Err(Fault::Halt(_)) => {
            assert(false);
            Err(Error::NoTip)
        },
    }
}

/// Deletes outputs, last to first.
fn delete_outputs(
    state: &mut State,
    diff: &mut AccumulatorDiff,
    origin: Origin,
    outputs: &Vec<Output>,
) -> (r: Result<(), Error>)
    ensures
        ({
            let done = outputs_deleted(
                Undoing { state: old(state)@, diff: old(diff)@, fault: None },
                origin,
                outputs.deep_view(),
                outputs.deep_view().len(),
            );
            &&& final(state)@ == done.state
            &&& final(diff)@ == done.diff
            &&& match r {
                Ok(()) => done.fault is None,
                Err(e) => done.fault == reported(e),
            }
        }),
{
    let ghost all = outputs.deep_view();
    let ghost goal = outputs_deleted(
        Undoing { state: state@, diff: diff@, fault: None },
        origin,
        all,
        all.len(),
    );
    let mut left: usize = outputs.len();
    while left > 0
        invariant
            all == outputs.deep_view(),
            left <= outputs@.len(),
            goal == outputs_deleted(
                Undoing { state: state@, diff: diff@, fault: None },
                origin,
                all,
                left as nat,
            ),
            goal == outputs_deleted(
                Undoing { state: old(state)@, diff: old(diff)@, fault: None },
                origin,
                all,
                all.len(),
            ),
        decreases left,
    {
        left = left - 1;
        assert(all[left as int] == outputs@[left as int].deep_view());
        let outpoint = origin.outpoint_at(left);
        diff.remove(outputs[left].leaf);
        if !state.utxos.delete(&outpoint) {
            proof {
                reveal_with_fuel(outputs_deleted, 2);
            }
            return Err(Error::NoUtxo { outpoint });
        }
    }
    Ok(())
}

/// Gives back what inputs spent, last to first.
fn unspend_inputs(
    state: &mut State,
    diff: &mut AccumulatorDiff,
    inputs: &Vec<(OutPoint, Hash256)>,
) -> (r: Result<(), Error>)
    ensures
        ({
            let done = inputs_unspent(
                Undoing { state: old(state)@, diff: old(diff)@, fault: None },
                inputs@,
                inputs@.len(),
            );
            &&& final(state)@ == done.state
            &&& final(diff)@ == done.diff
            &&& match r {
                Ok(()) => done.fault is None,
                Err(e) => done.fault == reported(e),
            }
        }),
{
    let ghost goal = inputs_unspent(
        Undoing { state: state@, diff: diff@, fault: None },
        inputs@,
        inputs@.len(),
    );
    let mut left: usize = inputs.len();
    while left > 0
        invariant
            left <= inputs@.len(),
            goal == inputs_unspent(
                Undoing { state: state@, diff: diff@, fault: None },
                inputs@,
                left as nat,
            ),
            goal == inputs_unspent(
                Undoing { state: old(state)@, diff: old(diff)@, fault: None },
                inputs@,
                inputs@.len(),
            ),
        decreases left,
    {
        left = left - 1;
        let (outpoint, leaf) = inputs[left];
        let ghost before = state@;
        match state.stxos.take(&outpoint) {
            Some(spent_output) => {
                diff.insert(leaf);
                state.utxos.put(outpoint, spent_output.output);
            },
            None => {
                assert(state@.stxos =~= before.stxos);
                return Err(Error::NoStxo { outpoint });
            },
        }
    }
    Ok(())
}

/// Releases the outputs that are set aside for a swap and locked to it.
fn unlock_outputs(state: &mut State, origin: Origin, outputs: &Vec<Output>, swap_id: SwapId)
    ensures
        final(state)@ == (StateView {
            locked_swap_outputs: outputs_unlocked(
                old(state)@.locked_swap_outputs,
                origin,
                outputs.deep_view(),
                swap_id,
            ),
            ..old(state)@
        }),
{
    let ghost locks = state@.locked_swap_outputs;
    let ghost all = outputs.deep_view();
    let n: usize = outputs.len();
    let mut left: usize = n;
    assert(locks =~= outputs_unlocked_from(locks, origin, all, swap_id, n as int));
    while left > 0
        invariant
            n == outputs@.len(),
            left <= n,
            all == outputs.deep_view(),
            locks == old(state)@.locked_swap_outputs,
            state@ == (StateView {
                locked_swap_outputs: outputs_unlocked_from(
                    locks,
                    origin,
                    all,
                    swap_id,
                    left as int,
                ),
                ..old(state)@
            }),
        decreases left,
    {
        left = left - 1;
        assert(all[left as int] == outputs@[left as int].deep_view());
        if outputs[left].content.is_swap_pending() {
            let outpoint = origin.outpoint_at(left);
            if state.is_output_locked_to_swap(&outpoint) == Some(swap_id) {
                state.unlock_output_from_swap(&outpoint);
            }
        }
        assert(state@.locked_swap_outputs =~= outputs_unlocked_from(
            locks,
            origin,
            all,
            swap_id,
            left as int,
        ));
    }
    assert(state@.locked_swap_outputs =~= outputs_unlocked(locks, origin, all, swap_id));
}

/// The outputs from place `from` on that are set aside for a swap, and locked to
/// it, are released.
spec fn outputs_unlocked_from(
    locks: Map<OutPoint, SwapId>,
    origin: Origin,
    outputs: Seq<OutputView>,
    swap_id: SwapId,
    from: int,
) -> Map<OutPoint, SwapId> {
    locks.restrict(
        Set::new(
            |k: OutPoint|
                !(locks.contains_key(k) && locks[k] == swap_id && exists|i: int|
                    from <= i < outputs.len() && (#[trigger] outputs[i]).content is SwapPending
                        && origin.outpoint(i) == k),
        ),
    )
}

/// Locks inputs to a swap where they are not locked.
fn lock_inputs(state: &mut State, inputs: &Vec<(OutPoint, Hash256)>, swap_id: SwapId)
    ensures
        final(state)@ == (StateView {
            locked_swap_outputs: inputs_locked(
                old(state)@.locked_swap_outputs,
                inputs@,
                swap_id,
                inputs@.len(),
            ),
            ..old(state)@
        }),
{
    let mut left: usize = inputs.len();
    while left > 0
        invariant
            left <= inputs@.len(),
            (StateView { locked_swap_outputs: state@.locked_swap_outputs, ..old(state)@ })
                == state@,
            inputs_locked(
                old(state)@.locked_swap_outputs,
                inputs@,
                swap_id,
                inputs@.len(),
            ) == inputs_locked(state@.locked_swap_outputs, inputs@, swap_id, left as nat),
        decreases left,
    {
        left = left - 1;
        let outpoint = inputs[left].0;
        if state.is_output_locked_to_swap(&outpoint).is_none() {
            state.lock_output_to_swap(&outpoint, &swap_id);
        }
    }
}

/// Undoes what a transaction did to swaps.
fn disconnect_swap(state: &mut State, tx: &Transaction) -> (r: Result<(), Error>)
    ensures
        ({
            let step = swap_disconnected(old(state)@, tx.deep_view());
            &&& final(state)@ == step.state
            &&& match r {
                Ok(()) => step.fault is None,
                Err(e) => step.fault == reported(e),
            }
        }),
{
    match &tx.data {
        TxData::Regular => Ok(()),
        TxData::SwapCreate { swap_id, .. } => {
            unlock_outputs(state, Origin::Transaction(tx.txid), &tx.outputs, *swap_id);
            state.delete_swap_unchecked(swap_id);
            Ok(())
        },
        TxData::SwapClaim { swap_id, .. } => {
            let mut swap = match state.get_swap(swap_id) {
                Some(swap) => swap,
                None => {
                    return Err(Error::SwapNotFound { swap_id: *swap_id });
                },
            };
            lock_inputs(state, &tx.inputs, *swap_id);
            if swap.state == SwapState::Completed {
                swap.state = SwapState::ReadyToClaim;
                state.save_swap(swap);
            }
            Ok(())
        },
    }
}

/// Takes a transaction back.
fn undo_transaction(state: &mut State, diff: &mut AccumulatorDiff, tx: &Transaction) -> (r: Result<
    (),
    Error,
>)
    ensures
        ({
            let done = transaction_undone(
                Undoing { state: old(state)@, diff: old(diff)@, fault: None },
                tx.deep_view(),
            );
            &&& final(state)@ == done.state
            &&& final(diff)@ == done.diff
            &&& match r {
                Ok(()) => done.fault is None,
                Err(e) => done.fault == reported(e),
            }
        }),
{
    match disconnect_swap(state, tx) {
        Ok(()) => {},
        Err(e) => {
            return Err(e);
        },
    }
    match delete_outputs(state, diff, Origin::Transaction(tx.txid), &tx.outputs) {
        Ok(()) => {},
        Err(e) => {
            return Err(e);
        },
    }
    unspend_inputs(state, diff, &tx.inputs)
}

/// Disconnects the block at the tip, up to the change to the accumulator, which
/// is handed out. Where that fails, what was done until then is left as it is.
pub fn stage_disconnect_tip(state: &mut State, header: &Header, body: &Body) -> (r: Result<
    AccumulatorDiff,
    Fault,
>)
    ensures
        ({
            let done = tip_disconnect_staged(old(state)@, header.deep_view(), body.deep_view());
            &&& final(state)@ == done.state
            &&& match r {
                Ok(diff) => done.fault is None && diff@ == done.diff,
                Err(fault) => done.fault == Some(fault),
            }
        }),
{
    let tip = match state.tip {
        Some(tip) => tip,
        None => {
            return Err(Fault::Error(Error::NoTip));
        },
    };
    if tip != header.hash {
        return Err(
            Fault::Error(
                Error::InvalidHeader(
                    InvalidHeader::BlockHash { expected: tip, computed: header.hash },
                ),
            ),
        );
    }
    let mut diff = AccumulatorDiff::new();
    let ghost txs = body.deep_view().transactions;
    let ghost goal = transactions_undone(
        Undoing { state: state@, diff: diff@, fault: None },
        txs,
        txs.len(),
    );
    let mut left: usize = body.transactions.len();
    while left > 0
        invariant
            txs == body.transactions.deep_view(),
            left <= body.transactions@.len(),
            old(state)@.tip == Some(header.hash),
            goal == transactions_undone(
                Undoing { state: state@, diff: diff@, fault: None },
                txs,
                left as nat,
            ),
            goal == transactions_undone(
                Undoing { state: old(state)@, diff: DiffView::none(), fault: None },
                txs,
                txs.len(),
            ),
        decreases left,
    {
        left = left - 1;
        let tx = &body.transactions[left];
        assert(txs[left as int] == tx.deep_view());
        match undo_transaction(state, &mut diff, tx) {
            Ok(()) => {},
            Err(e) => {
                proof {
                    reveal_with_fuel(transactions_undone, 2);
                }
                return Err(Fault::Error(e));
            },
        }
    }
    match delete_outputs(
        state,
        &mut diff,
        Origin::Coinbase(header.merkle_root),
        &body.coinbase,
    ) {
        Ok(()) => {},
        Err(e) => {
            return Err(Fault::Error(e));
        },
    }
    let height: u32 = match state.height {
        Some(height) => height,
        None => {
            return Err(Fault::Halt(Halt::NoHeight));
        },
    };
    match (header.prev_side_hash, height) {
        (None, 0) => {
            state.tip = None;
            state.height = None;
        },
        (None, _) | (_, 0) => {
            return Err(Fault::Error(Error::NoTip));
        },
        (Some(previous), height) => {
            state.tip = Some(previous);
            state.height = Some(height - 1);
        },
    }
    Ok(diff)
}

/// Disconnects the block at the tip. Where that fails, what was done until then
/// is left as it is.
pub fn try_disconnect_tip(state: &mut State, header: &Header, body: &Body) -> (r: Result<
    (),
    Fault,
>)
    ensures
        ({
            let step = tip_disconnected(old(state)@, header.deep_view(), body.deep_view());
            &&& final(state)@ == step.state
            &&& r == step.reports(())
        }),
{
    match stage_disconnect_tip(state, header, body) {
        Err(fault) => Err(fault),
        Ok(diff) => {
            let changed = state.accumulator.with_diff(&diff);
            state.take_change(changed)
        },
    }
}

/// Disconnects the block at the tip, where that does not come upon a state that
/// cannot be; `try_disconnect_tip` tells where it does. Where this fails, what was
/// done until then is left as it is.
pub fn disconnect_tip(state: &mut State, header: &Header, body: &Body) -> (r: Result<(), Error>)
    requires
        !halts(tip_disconnected(old(state)@, header.deep_view(), body.deep_view()).fault),
    ensures
        ({
            let step = tip_disconnected(old(state)@, header.deep_view(), body.deep_view());
            &&& final(state)@ == step.state
            &&& match r {
                Ok(()) => step.fault is None,
                Err(e) => step.fault == reported(e),
            }
        }),
{
    match try_disconnect_tip(state, header, body) {
        Ok(()) => Ok(()),
        Err(Fault::Error(e)) => Err(e),
        Err(Fault::Halt(_)) => {
            assert(false);
            Err(Error::NoTip)
        },
    }
}

/// A check that failed stays failed.
proof fn proof_first_stays(
    utxos: Map<OutPoint, OutputView>,
    txs: Seq<TransactionView>,
    facts: Seq<TransactionFacts>,
    verdicts: Seq<Option<bool>>,
    i: nat,
    n: nat,
)
    requires
        i <= n,
        all_proof_first(utxos, txs, facts, verdicts, i) is Err,
    ensures
        all_proof_first(utxos, txs, facts, verdicts, n) == all_proof_first(
            utxos,
            txs,
            facts,
            verdicts,
            i,
        ),
    decreases n - i,
{
    if i < n {
        proof_first_stays(utxos, txs, facts, verdicts, i, (n - 1) as nat);
    }
}

/// A check that failed stays failed.
proof fn proof_last_stays(
    txs: Seq<TransactionView>,
    facts: Seq<TransactionFacts>,
    verdicts: Seq<Option<bool>>,
    i: nat,
    n: nat,
)
    requires
        i <= n,
        all_proof_last(txs, facts, verdicts, i) is Err,
    ensures
        all_proof_last(txs, facts, verdicts, n) == all_proof_last(txs, facts, verdicts, i),
    decreases n - i,
{
    if i < n {
        proof_last_stays(txs, facts, verdicts, i, (n - 1) as nat);
    }
}

/// Filling that failed stays failed.
proof fn filling_stays(
    utxos: Map<OutPoint, OutputView>,
    txs: Seq<TransactionView>,
    i: nat,
    n: nat,
)
    requires
        i <= n,
        all_filled(utxos, txs, i) is Err,
    ensures
        all_filled(utxos, txs, n) == all_filled(utxos, txs, i),
    decreases n - i,
{
    if i < n {
        filling_stays(utxos, txs, i, (n - 1) as nat);
    }
}

/// Adds a fee.
fn add_fee(fees: u64, fee: Result<u64, Rejection>) -> (r: Result<u64, Error>)
    ensures
        r == fee_added(fees, fee),
{
    match fee {
        Err(why) => Err(Error::Transaction(why)),
        Ok(fee) => match fees.checked_add(fee) {
            Some(sum) => Ok(sum),
            None => Err(Error::AmountOverflow),
        },
    }
}

/// The change that a body makes to the accumulator.
fn find_diff(body: &Body) -> (r: AccumulatorDiff)
    ensures
        r@ == body_diff(body.deep_view()),
{
    let ghost txs = body.deep_view().transactions;
    let mut diff = AccumulatorDiff::new();
    add_leaves(&mut diff, &body.coinbase);
    let n: usize = body.transactions.len();
    for i in 0..n
        invariant
            n == body.transactions@.len(),
            txs == body.transactions.deep_view(),
            diff@ == transactions_diff(coinbase_diff(body.coinbase.deep_view()), txs, i as nat),
    {
        assert(txs[i as int] == body.transactions@[i as int].deep_view());
        add_transaction(&mut diff, &body.transactions[i]);
    }
    diff
}

/// Checks a transaction, its proof first, and adds its fee.
fn check_proof_first(
    state: &State,
    tx: &Transaction,
    facts: TransactionFacts,
    verdict: Option<bool>,
    fees: u64,
) -> (r: Result<(FilledTransaction, u64), Error>)
    ensures
        match r {
            Ok((f, sum)) => {
                &&& filled(state@.utxos, tx.deep_view()) == Ok::<_, Error>(f.deep_view())
                &&& proof_first(state@.utxos, tx.deep_view(), facts, verdict, fees) == Ok::<
                    u64,
                    Error,
                >(sum)
            },
            Err(e) => proof_first(state@.utxos, tx.deep_view(), facts, verdict, fees) == Err::<
                u64,
                Error,
            >(e),
        },
{
    let f = match state.fill_transaction(tx) {
        Ok(f) => f,
        Err(e) => {
            return Err(e);
        },
    };
    match check_verdict(verdict, tx.txid) {
        Ok(()) => {},
        Err(e) => {
            return Err(e);
        },
    }
    match facts.swap {
        Ok(()) => {},
        Err(why) => {
            return Err(Error::Swap(why));
        },
    }
    match add_fee(fees, facts.fee) {
        Ok(sum) => Ok((f, sum)),
        Err(e) => Err(e),
    }
}

/// Checks a transaction, its proof last, and adds its fee.
fn check_proof_last(
    tx: &Transaction,
    facts: TransactionFacts,
    verdict: Option<bool>,
    fees: u64,
) -> (r: Result<u64, Error>)
    ensures
        r == proof_last(tx.deep_view(), facts, verdict, fees),
{
    match facts.swap {
        Ok(()) => {},
        Err(why) => {
            return Err(Error::Swap(why));
        },
    }
    let sum: u64 = match add_fee(fees, facts.fee) {
        Ok(sum) => sum,
        Err(e) => {
            return Err(e);
        },
    };
    match check_verdict(verdict, tx.txid) {
        Ok(()) => Ok(sum),
        Err(e) => Err(e),
    }
}

/// Checks a block, up to the roots that it commits to, and finds what connecting
/// it needs. `facts` are those of `body` at the height after the tip, and
/// `verdicts` tells whether the proofs of its transactions hold.
pub fn stage_prevalidate(
    state: &State,
    header: &Header,
    body: &Body,
    facts: &BodyFacts,
    verdicts: &Vec<Option<bool>>,
) -> (r: Result<PrevalidatedBlock, Fault>)
    requires
        facts@.transactions.len() == body.deep_view().transactions.len(),
        verdicts@.len() == body.deep_view().transactions.len(),
    ensures
        ({
            let expected = prevalidate_staged(
                state@,
                header.deep_view(),
                body.deep_view(),
                facts@,
                verdicts@,
            );
            match r {
                Ok(pre) => expected == Ok::<PrevalidatedBlockView, Fault>(pre.deep_view()),
                Err(fault) => expected == Err::<PrevalidatedBlockView, Fault>(fault),
            }
        }),
{
    match state.check_frame(header, body, facts) {
        Ok(()) => {},
        Err(fault) => {
            return Err(fault);
        },
    }
    let ghost txs = body.deep_view().transactions;
    let mut filled_transactions: Vec<FilledTransaction> = Vec::new();
    let mut total_fees: u64 = 0;
    assert(filled_transactions.deep_view() =~= Seq::empty());
    let n: usize = body.transactions.len();
    for i in 0..n
        invariant
            n == body.transactions@.len(),
            n == facts.transactions@.len(),
            n == verdicts@.len(),
            txs == body.transactions.deep_view(),
            frame_fault(state@, header.deep_view(), body.deep_view(), facts@) is None,
            all_proof_first(
                state@.utxos,
                txs,
                facts.transactions@,
                verdicts@,
                i as nat,
            ) == Ok::<u64, Error>(total_fees),
            all_filled(state@.utxos, txs, i as nat) == Ok::<_, Error>(
                filled_transactions.deep_view(),
            ),
    {
        let tx = &body.transactions[i];
        assert(txs[i as int] == tx.deep_view());
        match check_proof_first(state, tx, facts.transactions[i], verdicts[i], total_fees) {
            Ok((f, sum)) => {
                let ghost before = filled_transactions.deep_view();
                filled_transactions.push(f);
                assert(filled_transactions.deep_view() =~= before.push(f.deep_view()));
                total_fees = sum;
            },
            Err(e) => {
                proof {
                    proof_first_stays(
                        state@.utxos,
                        txs,
                        facts.transactions@,
                        verdicts@,
                        (i + 1) as nat,
                        n as nat,
                    );
                }
                return Err(Fault::Error(e));
            },
        }
    }
    match check_root(header, facts) {
        Ok(()) => {},
        Err(e) => {
            return Err(Fault::Error(e));
        },
    }
    if !spends_once(&body.transactions) {
        return Err(Fault::Error(Error::UtxoDoubleSpent));
    }
    let coinbase_value: u64 = match sum_coins(&body.coinbase) {
        Some(value) => value,
        None => {
            return Err(Fault::Error(Error::AmountOverflow));
        },
    };
    match check_ending(body, facts, &filled_transactions, total_fees, coinbase_value) {
        Ok(()) => {},
        Err(e) => {
            return Err(Fault::Error(e));
        },
    }
    Ok(
        PrevalidatedBlock {
            filled_transactions,
            computed_merkle_root: header.merkle_root,
            total_fees,
            coinbase_value,
            next_height: state.next_height(),
            accumulator_diff: find_diff(body),
        },
    )
}

/// Checks a block, and finds what connecting it needs. `facts` are those of
/// `body` at the height after the tip.
pub fn try_prevalidate(state: &State, header: &Header, body: &Body, facts: &BodyFacts) -> (r:
    Result<PrevalidatedBlock, Fault>)
    requires
        facts@.transactions.len() == body.deep_view().transactions.len(),
    ensures
        ({
            let expected = prevalidated(state@, header.deep_view(), body.deep_view(), facts@);
            match r {
                Ok(pre) => expected == Ok::<PrevalidatedBlockView, Fault>(pre.deep_view()),
                Err(fault) => expected == Err::<PrevalidatedBlockView, Fault>(fault),
            }
        }),
{
    let verdicts = state.judge_proofs(&body.transactions);
    match stage_prevalidate(state, header, body, facts, &verdicts) {
        Err(fault) => Err(fault),
        Ok(pre) => {
            let roots = state.find_roots_after(&pre.accumulator_diff);
            match check_roots(header, &roots) {
                Ok(()) => Ok(pre),
                Err(fault) => Err(fault),
            }
        },
    }
}

/// Checks a block, and finds what connecting it needs, where that does not come
/// upon a state that cannot be; `try_prevalidate` tells where it does. `facts` are
/// those of `body` at the height after the tip.
pub fn prevalidate(state: &State, header: &Header, body: &Body, facts: &BodyFacts) -> (r: Result<
    PrevalidatedBlock,
    Error,
>)
    requires
        facts@.transactions.len() == body.deep_view().transactions.len(),
        prevalidated(state@, header.deep_view(), body.deep_view(), facts@) is Err ==> prevalidated(
            state@,
            header.deep_view(),
            body.deep_view(),
            facts@,
        )->Err_0 is Error,
    ensures
        ({
            let expected = prevalidated(state@, header.deep_view(), body.deep_view(), facts@);
            match r {
                Ok(pre) => expected == Ok::<PrevalidatedBlockView, Fault>(pre.deep_view()),
                Err(e) => expected == Err::<PrevalidatedBlockView, Fault>(Fault::Error(e)),
            }
        }),
{
    match try_prevalidate(state, header, body, facts) {
        Ok(pre) => Ok(pre),
        Err(Fault::Error(e)) => Err(e),
        Err(Fault::Halt(_)) => {
            assert(false);
            Err(Error::NoTip)
        },
    }
}

/// Checks a block, up to the roots that it commits to, and finds the fees that
/// its transactions pay. `facts` are those of `body` at the height after the
/// tip, and `verdicts` tells whether the proofs of its transactions hold.
pub fn stage_validate(
    state: &State,
    header: &Header,
    body: &Body,
    facts: &BodyFacts,
    verdicts: &Vec<Option<bool>>,
) -> (r: Result<(u64, MerkleRoot), Fault>)
    requires
        facts@.transactions.len() == body.deep_view().transactions.len(),
        verdicts@.len() == body.deep_view().transactions.len(),
    ensures
        r == validate_staged(state@, header.deep_view(), body.deep_view(), facts@, verdicts@),
{
    match state.check_frame(header, body, facts) {
        Ok(()) => {},
        Err(fault) => {
            return Err(fault);
        },
    }
    let ghost txs = body.deep_view().transactions;
    let mut filled_transactions: Vec<FilledTransaction> = Vec::new();
    assert(filled_transactions.deep_view() =~= Seq::empty());
    let n: usize = body.transactions.len();
    for i in 0..n
        invariant
            n == body.transactions@.len(),
            txs == body.transactions.deep_view(),
            frame_fault(state@, header.deep_view(), body.deep_view(), facts@) is None,
            all_filled(state@.utxos, txs, i as nat) == Ok::<_, Error>(
                filled_transactions.deep_view(),
            ),
    {
        let tx = &body.transactions[i];
        assert(txs[i as int] == tx.deep_view());
        match state.fill_transaction(tx) {
            Ok(f) => {
                let ghost before = filled_transactions.deep_view();
                filled_transactions.push(f);
                assert(filled_transactions.deep_view() =~= before.push(f.deep_view()));
            },
            Err(e) => {
                proof {
                    filling_stays(state@.utxos, txs, (i + 1) as nat, n as nat);
                }
                return Err(Fault::Error(e));
            },
        }
    }
    match check_root(header, facts) {
        Ok(()) => {},
        Err(e) => {
            return Err(Fault::Error(e));
        },
    }
    let coinbase_value: u64 = match sum_coins(&body.coinbase) {
        Some(value) => value,
        None => {
            return Err(Fault::Error(Error::AmountOverflow));
        },
    };
    let ghost all = filled_transactions.deep_view();
    let mut total_fees: u64 = 0;
    for i in 0..n
        invariant
            n == body.transactions@.len(),
            n == facts.transactions@.len(),
            n == verdicts@.len(),
            txs == body.transactions.deep_view(),
            frame_fault(state@, header.deep_view(), body.deep_view(), facts@) is None,
            all_filled(state@.utxos, txs, n as nat) == Ok::<_, Error>(all),
            root_fault(header.deep_view(), facts@) is None,
            coins(body.deep_view().coinbase, body.deep_view().coinbase.len()) <= u64::MAX,
            all_proof_last(txs, facts.transactions@, verdicts@, i as nat) == Ok::<u64, Error>(
                total_fees,
            ),
    {
        let tx = &body.transactions[i];
        assert(txs[i as int] == tx.deep_view());
        match check_proof_last(tx, facts.transactions[i], verdicts[i], total_fees) {
            Ok(sum) => {
                total_fees = sum;
            },
            Err(e) => {
                proof {
                    proof_last_stays(
                        txs,
                        facts.transactions@,
                        verdicts@,
                        (i + 1) as nat,
                        n as nat,
                    );
                }
                return Err(Fault::Error(e));
            },
        }
    }
    if !spends_once(&body.transactions) {
        return Err(Fault::Error(Error::UtxoDoubleSpent));
    }
    match check_ending(body, facts, &filled_transactions, total_fees, coinbase_value) {
        Ok(()) => Ok((total_fees, header.merkle_root)),
        Err(e) => Err(Fault::Error(e)),
    }
}

/// Checks a block, and finds the fees that its transactions pay. `facts` are
/// those of `body` at the height after the tip.
pub fn try_validate(state: &State, header: &Header, body: &Body, facts: &BodyFacts) -> (r: Result<
    (u64, MerkleRoot),
    Fault,
>)
    requires
        facts@.transactions.len() == body.deep_view().transactions.len(),
    ensures
        r == validated(state@, header.deep_view(), body.deep_view(), facts@),
{
    let verdicts = state.judge_proofs(&body.transactions);
    match stage_validate(state, header, body, facts, &verdicts) {
        Err(fault) => Err(fault),
        Ok(found) => {
            let roots = state.find_roots_after(&find_diff(body));
            match check_roots(header, &roots) {
                Ok(()) => Ok(found),
                Err(fault) => Err(fault),
            }
        },
    }
}

/// Checks a block, and finds the fees that its transactions pay, where that does
/// not come upon a state that cannot be; `try_validate` tells where it does.
/// `facts` are those of `body` at the height after the tip.
pub fn validate(state: &State, header: &Header, body: &Body, facts: &BodyFacts) -> (r: Result<
    (u64, MerkleRoot),
    Error,
>)
    requires
        facts@.transactions.len() == body.deep_view().transactions.len(),
        validated(state@, header.deep_view(), body.deep_view(), facts@) is Err ==> validated(
            state@,
            header.deep_view(),
            body.deep_view(),
            facts@,
        )->Err_0 is Error,
    ensures
        ({
            let expected = validated(state@, header.deep_view(), body.deep_view(), facts@);
            match r {
                Ok(found) => expected == Ok::<(u64, MerkleRoot), Fault>(found),
                Err(e) => expected == Err::<(u64, MerkleRoot), Fault>(Fault::Error(e)),
            }
        }),
{
    match try_validate(state, header, body, facts) {
        Ok(found) => Ok(found),
        Err(Fault::Error(e)) => Err(e),
        Err(Fault::Halt(_)) => {
            assert(false);
            Err(Error::NoTip)
        },
    }
}

} // verus!
