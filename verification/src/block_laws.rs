//! What holds of checking, connecting and disconnecting blocks, taken together.
use vstd::prelude::*;

use crate::accumulator::{forest_roots, taken_out, DiffView, UtreexoError};
use crate::block_model::{
    all_coins_moved, all_filled, all_filled_connected, all_proof_first, all_proof_last,
    coinbase_made, coins, coins_moved, coins_moved_keeps, connected, diff_applied, expiration_fits,
    filled, filled_connected, filled_in_turn, halted, inputs_locked, inputs_spent, inputs_unspent,
    inputs_unspent_keeps, locks_with, looked_up, names, outputs_deleted, outputs_deleted_keeps,
    outputs_unlocked, prevalidated, prevalidated_connected, reported, set_aside, spent_outpoints,
    swap_connected, swap_disconnected, tip_disconnect_staged, tip_disconnected, transaction_undone,
    transaction_undone_keeps, transactions_undone, utxos_with, validated, verdicts, BodyFactsView,
    PrevalidatedBlockView, Step, TransactionFacts, Undoing,
};
use crate::error::{Error, Fault, Halt, Rejection};
use crate::ids::{Hash256, MerkleRoot, SwapId, Txid};
use crate::state::StateView;
use crate::swap::SwapState;
use crate::types::{
    BodyView, FilledTransactionView, HeaderView, Origin, OutPoint, OutputView, SpentOutputView,
    TransactionView, TxDataView,
};

verus! {

/// Checking proofs first or last comes to the same, as long as nothing is wrong.
proof fn orders_agree(
    utxos: Map<OutPoint, OutputView>,
    txs: Seq<TransactionView>,
    facts: Seq<TransactionFacts>,
    verdicts: Seq<Option<bool>>,
    n: nat,
)
    ensures
        all_proof_first(utxos, txs, facts, verdicts, n) is Ok <==> all_filled(utxos, txs, n) is Ok
            && all_proof_last(txs, facts, verdicts, n) is Ok,
        all_proof_first(utxos, txs, facts, verdicts, n) is Ok ==> all_proof_first(
            utxos,
            txs,
            facts,
            verdicts,
            n,
        ) == all_proof_last(txs, facts, verdicts, n),
    decreases n,
{
    if n > 0 {
        orders_agree(utxos, txs, facts, verdicts, (n - 1) as nat);
    }
}

/// Checking proofs first or last comes to the same for all transactions.
pub(crate) proof fn accepted_are_filled(
    s: StateView,
    txs: Seq<TransactionView>,
    facts: Seq<TransactionFacts>,
)
    ensures
        ({
            let judged = verdicts(s.accumulator, txs);
            let first = all_proof_first(s.utxos, txs, facts, judged, txs.len());
            let last = all_proof_last(txs, facts, judged, txs.len());
            &&& first is Ok <==> all_filled(s.utxos, txs, txs.len()) is Ok && last is Ok
            &&& first is Ok ==> first == last
        }),
{
    orders_agree(s.utxos, txs, facts, verdicts(s.accumulator, txs), txs.len());
}

/// A block passes `validate` exactly if it passes `prevalidate`, and both find
/// the same fees and the same merkle root.
pub proof fn checks_agree(s: StateView, header: HeaderView, body: BodyView, facts: BodyFactsView)
    ensures
        validated(s, header, body, facts) is Ok <==> prevalidated(s, header, body, facts) is Ok,
        prevalidated(s, header, body, facts) matches Ok(pre) ==> validated(
            s,
            header,
            body,
            facts,
        ) == Ok::<(u64, MerkleRoot), Fault>((pre.total_fees, pre.computed_merkle_root)),
{
    accepted_are_filled(s, body.transactions, facts.transactions);
}

/// A block that is accepted follows the tip, pays its coinbase out of the fees
/// of its transactions, spends no output twice, and commits to the roots that
/// the accumulator has once the block's change is made.
pub proof fn accepted_blocks_are_sound(
    s: StateView,
    header: HeaderView,
    body: BodyView,
    facts: BodyFactsView,
)
    requires
        prevalidated(s, header, body, facts) is Ok,
    ensures
        ({
            let pre = prevalidated(s, header, body, facts)->Ok_0;
            &&& header.prev_side_hash == s.tip
            &&& pre.computed_merkle_root == header.merkle_root
            &&& pre.coinbase_value == coins(body.coinbase, body.coinbase.len())
            &&& pre.coinbase_value <= pre.total_fees
            &&& spent_outpoints(body.transactions, body.transactions.len()).no_duplicates()
            &&& pre.accumulator_diff.applied(s.accumulator) is Ok
            &&& forest_roots(pre.accumulator_diff.applied(s.accumulator)->Ok_0) == header.roots
        }),
{
}

/// An input that was looked up names an unspent output.
proof fn lookups_found(utxos: Map<OutPoint, OutputView>, inputs: Seq<(OutPoint, Hash256)>, n: nat)
    requires
        looked_up(utxos, inputs, n) is Ok,
        n <= inputs.len(),
    ensures
        forall|j: int| 0 <= j < n ==> utxos.contains_key((#[trigger] inputs[j]).0),
    decreases n,
{
    if n > 0 {
        lookups_found(utxos, inputs, (n - 1) as nat);
    }
}

/// Transactions that were filled are the transactions, each filled.
pub(crate) proof fn filled_each(utxos: Map<OutPoint, OutputView>, txs: Seq<TransactionView>, n: nat)
    requires
        all_filled(utxos, txs, n) is Ok,
        n <= txs.len(),
    ensures
        all_filled(utxos, txs, n)->Ok_0.len() == n,
        forall|i: int|
            0 <= i < n ==> (#[trigger] all_filled(utxos, txs, n)->Ok_0[i]).transaction == txs[i],
        forall|i: int, j: int|
            #![trigger txs[i].inputs[j]]
            0 <= i < n && 0 <= j < txs[i].inputs.len() ==> utxos.contains_key(
                txs[i].inputs[j].0,
            ),
    decreases n,
{
    if n > 0 {
        filled_each(utxos, txs, (n - 1) as nat);
        let tx = txs[n - 1];
        lookups_found(utxos, tx.inputs, tx.inputs.len());
    }
}

/// The outpoints that one transaction spends stand in a row among those that
/// many spend.
proof fn spent_in_a_row(txs: Seq<TransactionView>, i: nat, n: nat)
    requires
        i < n <= txs.len(),
    ensures
        spent_outpoints(txs, i).len() + txs[i as int].inputs.len() == spent_outpoints(
            txs,
            i + 1,
        ).len(),
        spent_outpoints(txs, i + 1).len() <= spent_outpoints(txs, n).len(),
        forall|j: int|
            0 <= j < txs[i as int].inputs.len() ==> spent_outpoints(txs, n)[spent_outpoints(
                txs,
                i,
            ).len() + j] == (#[trigger] txs[i as int].inputs[j]).0,
    decreases n - i,
{
    if i + 1 < n {
        spent_in_a_row(txs, i, (n - 1) as nat);
    }
}

/// All that is spent is there.
proof fn spent_are_there(utxos: Map<OutPoint, OutputView>, txs: Seq<TransactionView>, n: nat)
    requires
        n <= txs.len(),
        forall|i: int, j: int|
            #![trigger txs[i].inputs[j]]
            0 <= i < n && 0 <= j < txs[i].inputs.len() ==> utxos.contains_key(
                txs[i].inputs[j].0,
            ),
    ensures
        forall|q: int|
            0 <= q < spent_outpoints(txs, n).len() ==> utxos.contains_key(
                #[trigger] spent_outpoints(txs, n)[q],
            ),
    decreases n,
{
    if n > 0 {
        spent_are_there(utxos, txs, (n - 1) as nat);
        let before = spent_outpoints(txs, (n - 1) as nat);
        assert forall|q: int| 0 <= q < spent_outpoints(txs, n).len() implies utxos.contains_key(
            #[trigger] spent_outpoints(txs, n)[q],
        ) by {
            if q >= before.len() {
                let j = q - before.len();
                assert(spent_outpoints(txs, n)[q] == txs[n - 1].inputs[j].0);
            } else {
                assert(spent_outpoints(txs, n)[q] == before[q]);
            }
        }
    }
}

/// Inputs that name different unspent outputs spend these, and no others.
proof fn spending_succeeds(
    utxos: Map<OutPoint, OutputView>,
    stxos: Map<OutPoint, SpentOutputView>,
    txid: Txid,
    inputs: Seq<(OutPoint, Hash256)>,
    n: nat,
)
    requires
        n <= inputs.len(),
        forall|j: int| 0 <= j < n ==> utxos.contains_key((#[trigger] inputs[j]).0),
        forall|i: int, j: int|
            #![trigger inputs[i], inputs[j]]
            0 <= i < j < n ==> inputs[i].0 != inputs[j].0,
    ensures
        inputs_spent(utxos, stxos, txid, inputs, n).missing is None,
        forall|k: OutPoint|
            utxos.contains_key(k) && (forall|j: int|
                0 <= j < n ==> (#[trigger] inputs[j]).0 != k) ==> #[trigger] inputs_spent(
                utxos,
                stxos,
                txid,
                inputs,
                n,
            ).utxos.contains_key(k),
    decreases n,
{
    if n > 0 {
        spending_succeeds(utxos, stxos, txid, inputs, (n - 1) as nat);
        let before = inputs_spent(utxos, stxos, txid, inputs, (n - 1) as nat);
        let point = inputs[n - 1].0;
        assert forall|j: int| 0 <= j < n - 1 implies (#[trigger] inputs[j]).0 != point by {
            assert(inputs[j].0 != inputs[n - 1].0);
        }
        assert(before.utxos.contains_key(point));
        assert forall|k: OutPoint|
            utxos.contains_key(k) && (forall|j: int|
                0 <= j < n ==> (#[trigger] inputs[j]).0 != k) implies #[trigger] inputs_spent(
            utxos,
            stxos,
            txid,
            inputs,
            n,
        ).utxos.contains_key(k) by {
            assert(inputs[n - 1].0 != k);
            assert(before.utxos.contains_key(k));
        }
    }
}

/// Outputs that were there stay when others are made.
proof fn utxos_with_keeps(
    utxos: Map<OutPoint, OutputView>,
    origin: Origin,
    outputs: Seq<OutputView>,
    n: nat,
)
    ensures
        forall|k: OutPoint|
            utxos.contains_key(k) ==> #[trigger] utxos_with(
                utxos,
                origin,
                outputs,
                n,
            ).contains_key(k),
    decreases n,
{
    if n > 0 {
        utxos_with_keeps(utxos, origin, outputs, (n - 1) as nat);
        let before = utxos_with(utxos, origin, outputs, (n - 1) as nat);
        assert forall|k: OutPoint| utxos.contains_key(k) implies #[trigger] utxos_with(
            utxos,
            origin,
            outputs,
            n,
        ).contains_key(k) by {
            assert(before.contains_key(k));
        }
    }
}

/// The fault is one that only a claim of a swap gives.
pub open spec fn is_claim_error(fault: Option<Fault>) -> bool {
    match fault {
        Some(Fault::Error(Error::SwapNotFound { .. })) => true,
        Some(Fault::Error(Error::InvalidTransaction(_))) => true,
        _ => false,
    }
}

/// The fault is one that only a change to the accumulator gives.
pub open spec fn is_change_fault(fault: Option<Fault>) -> bool {
    ||| fault == reported(Error::Utreexo(UtreexoError))
    ||| fault == halted(Halt::EqualSiblings)
    ||| fault == halted(Halt::OutOfRange)
}

/// Why leaves cannot be taken out.
proof fn taking_out_faults(forest: Seq<u8>, leaves: Seq<Hash256>, n: nat)
    ensures
        taken_out(forest, leaves, n) matches Err(fault) ==> is_change_fault(Some(fault)),
    decreases n,
{
    if n > 0 {
        taking_out_faults(forest, leaves, (n - 1) as nat);
    }
}

/// Why a change to the accumulator is not made.
proof fn change_faults(s: StateView, diff: DiffView)
    ensures
        ({
            let taken = diff_applied(s, diff);
            &&& taken.state == (StateView { accumulator: taken.state.accumulator, ..s })
            &&& taken.fault is None || is_change_fault(taken.fault)
        }),
{
    let turn = diff.turn(s.accumulator);
    taking_out_faults(s.accumulator, turn, turn.len());
}

/// What a transaction does to swaps at `height` gives the fault: it claims a
/// swap, or it makes one that runs out past all heights.
pub open spec fn is_stopped_by(
    fault: Option<Fault>,
    filled: FilledTransactionView,
    height: u32,
) -> bool {
    ||| filled.transaction.data is SwapClaim && is_claim_error(fault)
    ||| !expiration_fits(filled, height) && fault == halted(Halt::OutOfRange)
}

/// Transactions that spend what is there, each output once, connect, but for
/// what they do to swaps.
proof fn spenders_connect(
    s: StateView,
    txs: Seq<TransactionView>,
    list: Seq<FilledTransactionView>,
    height: u32,
    n: nat,
)
    requires
        n <= txs.len(),
        list.len() == txs.len(),
        forall|i: int| 0 <= i < txs.len() ==> (#[trigger] list[i]).transaction == txs[i],
        spent_outpoints(txs, txs.len()).no_duplicates(),
        forall|q: int|
            0 <= q < spent_outpoints(txs, txs.len()).len() ==> s.utxos.contains_key(
                #[trigger] spent_outpoints(txs, txs.len())[q],
            ),
    ensures
        ({
            let step = all_filled_connected(s, list, height, n);
            let points = spent_outpoints(txs, txs.len());
            &&& step.fault is None || exists|i: int|
                0 <= i < n && is_stopped_by(step.fault, #[trigger] list[i], height)
            &&& step.fault is None ==> forall|q: int|
                spent_outpoints(txs, n).len() <= q < points.len()
                    ==> step.state.utxos.contains_key(#[trigger] points[q])
            &&& step.state.accumulator == s.accumulator
        }),
    decreases n,
{
    if n > 0 {
        spenders_connect(s, txs, list, height, (n - 1) as nat);
        let before = all_filled_connected(s, list, height, (n - 1) as nat);
        let after = all_filled_connected(s, list, height, n);
        let points = spent_outpoints(txs, txs.len());
        let tx = txs[n - 1];
        assert(list[n - 1].transaction == tx);
        let start = spent_outpoints(txs, (n - 1) as nat).len();
        spent_in_a_row(txs, (n - 1) as nat, txs.len());
        if before.fault is None {
            assert forall|j: int| 0 <= j < tx.inputs.len() implies before.state.utxos.contains_key(
                (#[trigger] tx.inputs[j]).0,
            ) by {
                assert(points[start + j] == tx.inputs[j].0);
            }
            assert forall|i: int, j: int|
                #![trigger tx.inputs[i], tx.inputs[j]]
                0 <= i < j < tx.inputs.len() implies tx.inputs[i].0 != tx.inputs[j].0 by {
                assert(points[start + i] == tx.inputs[i].0);
                assert(points[start + j] == tx.inputs[j].0);
            }
            spending_succeeds(
                before.state.utxos,
                before.state.stxos,
                tx.txid,
                tx.inputs,
                tx.inputs.len(),
            );
            let spending = inputs_spent(
                before.state.utxos,
                before.state.stxos,
                tx.txid,
                tx.inputs,
                tx.inputs.len(),
            );
            utxos_with_keeps(
                spending.utxos,
                Origin::Transaction(tx.txid),
                tx.outputs,
                tx.outputs.len(),
            );
            if after.fault is None {
                assert forall|q: int|
                    spent_outpoints(txs, n).len() <= q
                        < points.len() implies after.state.utxos.contains_key(
                    #[trigger] points[q],
                ) by {
                    assert forall|j: int| 0 <= j < tx.inputs.len() implies (
                    #[trigger] tx.inputs[j]).0 != points[q] by {
                        assert(points[start + j] == tx.inputs[j].0);
                    }
                    assert(before.state.utxos.contains_key(points[q]));
                    assert(spending.utxos.contains_key(points[q]));
                }
            } else {
                assert(is_stopped_by(after.fault, list[n - 1], height));
            }
        } else {
            let i = choose|i: int|
                0 <= i < n - 1 && is_stopped_by(before.fault, #[trigger] list[i], height);
            assert(is_stopped_by(after.fault, list[i], height));
        }
    }
}

/// A block that was accepted connects: its tip, its height and its roots become
/// those of the state. Only what its transactions do to swaps can still stop it.
pub proof fn accepted_blocks_connect(
    s: StateView,
    header: HeaderView,
    body: BodyView,
    facts: BodyFactsView,
)
    requires
        prevalidated(s, header, body, facts) is Ok,
    ensures
        ({
            let pre = prevalidated(s, header, body, facts)->Ok_0;
            let step = prevalidated_connected(s, header, body, pre);
            &&& step.fault is None || exists|i: int|
                0 <= i < pre.filled_transactions.len() && is_stopped_by(
                    step.fault,
                    #[trigger] pre.filled_transactions[i],
                    pre.next_height,
                )
            &&& step.fault is None ==> step.state.tip == Some(header.hash)
                && step.state.height == Some(s.next_height() as u32) && forest_roots(
                step.state.accumulator,
            ) == header.roots
        }),
{
    let txs = body.transactions;
    let pre = prevalidated(s, header, body, facts)->Ok_0;
    accepted_are_filled(s, txs, facts.transactions);
    filled_each(s.utxos, txs, txs.len());
    spent_are_there(s.utxos, txs, txs.len());
    let made = coinbase_made(s, header.merkle_root, body.coinbase);
    utxos_with_keeps(
        s.utxos,
        Origin::Coinbase(header.merkle_root),
        body.coinbase,
        body.coinbase.len(),
    );
    assert forall|q: int|
        0 <= q < spent_outpoints(txs, txs.len()).len() implies made.utxos.contains_key(
        #[trigger] spent_outpoints(txs, txs.len())[q],
    ) by {
        assert(s.utxos.contains_key(spent_outpoints(txs, txs.len())[q]));
    }
    spenders_connect(made, txs, pre.filled_transactions, pre.next_height, txs.len());
}

/// Connecting transactions moves the same coins whether swaps are looked after
/// or not.
pub(crate) proof fn coins_move_alike(
    s: StateView,
    txs: Seq<TransactionView>,
    list: Seq<FilledTransactionView>,
    height: u32,
    n: nat,
)
    requires
        n <= txs.len(),
        list.len() == txs.len(),
        forall|i: int| 0 <= i < txs.len() ==> (#[trigger] list[i]).transaction == txs[i],
        all_filled_connected(s, list, height, n).fault is None,
    ensures
        all_coins_moved(s, txs, n) == (Step {
            state: StateView {
                swaps: s.swaps,
                locked_swap_outputs: s.locked_swap_outputs,
                ..all_filled_connected(s, list, height, n).state
            },
            fault: None,
        }),
        all_filled_connected(s, list, height, n).state.accumulator == s.accumulator,
    decreases n,
{
    if n > 0 {
        coins_move_alike(s, txs, list, height, (n - 1) as nat);
        assert(list[n - 1].transaction == txs[n - 1]);
    }
}

/// An accepted block that connects leaves the same state whether it is connected
/// with `connect` or with `connect_prevalidated`, but for swaps and what is
/// locked to them, which only the latter looks after.
pub proof fn ways_to_connect_agree(
    s: StateView,
    header: HeaderView,
    body: BodyView,
    facts: BodyFactsView,
)
    requires
        prevalidated(s, header, body, facts) is Ok,
        prevalidated_connected(
            s,
            header,
            body,
            prevalidated(s, header, body, facts)->Ok_0,
        ).fault is None,
    ensures
        connected(s, header, body, facts.merkle_root) == (Step {
            state: StateView {
                swaps: s.swaps,
                locked_swap_outputs: s.locked_swap_outputs,
                ..prevalidated_connected(
                    s,
                    header,
                    body,
                    prevalidated(s, header, body, facts)->Ok_0,
                ).state
            },
            fault: None,
        }),
{
    let txs = body.transactions;
    let pre = prevalidated(s, header, body, facts)->Ok_0;
    accepted_are_filled(s, txs, facts.transactions);
    filled_each(s.utxos, txs, txs.len());
    let made = coinbase_made(s, header.merkle_root, body.coinbase);
    coins_move_alike(made, txs, pre.filled_transactions, pre.next_height, txs.len());
    coins_moved_keeps(made, txs, txs.len());
}

// Disconnecting.
/// No outpoint is both spent and unspent.
pub open spec fn outputs_disjoint(s: StateView) -> bool {
    forall|k: OutPoint| #[trigger] s.utxos.contains_key(k) ==> !s.stxos.contains_key(k)
}

/// The outpoints of the outputs that `origin` made.
pub open spec fn made_by(origin: Origin, outputs: Seq<OutputView>) -> Seq<OutPoint> {
    Seq::new(outputs.len(), |i: int| origin.outpoint(i))
}

/// The outpoints that the first `n` transactions make.
pub open spec fn made_outpoints(txs: Seq<TransactionView>, n: nat) -> Seq<OutPoint>
    decreases n,
{
    if n == 0 {
        Seq::empty()
    } else {
        made_outpoints(txs, (n - 1) as nat) + made_by(
            Origin::Transaction(txs[n - 1].txid),
            txs[n - 1].outputs,
        )
    }
}

/// The outpoints that a block makes.
pub open spec fn block_outpoints(header: HeaderView, body: BodyView) -> Seq<OutPoint> {
    made_by(Origin::Coinbase(header.merkle_root), body.coinbase) + made_outpoints(
        body.transactions,
        body.transactions.len(),
    )
}

/// These outpoints are new to a state, and each is there once.
pub open spec fn are_new(s: StateView, points: Seq<OutPoint>) -> bool {
    &&& points.no_duplicates()
    &&& forall|q: int|
        0 <= q < points.len() ==> !s.utxos.contains_key(#[trigger] points[q])
            && !s.stxos.contains_key(points[q])
}

/// Outputs that are made hold what was there and what was made.
proof fn utxos_with_is(
    utxos: Map<OutPoint, OutputView>,
    origin: Origin,
    outputs: Seq<OutputView>,
    n: nat,
)
    requires
        n <= outputs.len(),
    ensures
        forall|k: OutPoint| #[trigger]
            utxos_with(utxos, origin, outputs, n).contains_key(k) ==> utxos.contains_key(k)
                || exists|i: int| 0 <= i < n && #[trigger] made_by(origin, outputs)[i] == k,
    decreases n,
{
    if n > 0 {
        utxos_with_is(utxos, origin, outputs, (n - 1) as nat);
        let before = utxos_with(utxos, origin, outputs, (n - 1) as nat);
        assert forall|k: OutPoint| #[trigger]
            utxos_with(utxos, origin, outputs, n).contains_key(k) implies utxos.contains_key(k)
            || exists|i: int| 0 <= i < n && #[trigger] made_by(origin, outputs)[i] == k by {
            if k == origin.outpoint(n - 1) {
                assert(made_by(origin, outputs)[n - 1] == k);
            } else {
                assert(before.contains_key(k));
                if !utxos.contains_key(k) {
                    let i = choose|i: int|
                        0 <= i < n - 1 && #[trigger] made_by(origin, outputs)[i] == k;
                    assert(made_by(origin, outputs)[i] == k);
                }
            }
        }
    }
}

/// Deleting outputs that were just made brings back what was there.
proof fn deleting_undoes_making(
    u: Undoing,
    utxos: Map<OutPoint, OutputView>,
    origin: Origin,
    outputs: Seq<OutputView>,
    n: nat,
)
    requires
        n <= outputs.len(),
        u.fault is None,
        u.state.utxos == utxos_with(utxos, origin, outputs, n),
        made_by(origin, outputs).no_duplicates(),
        forall|i: int|
            0 <= i < outputs.len() ==> !utxos.contains_key(#[trigger] made_by(origin, outputs)[i]),
    ensures
        outputs_deleted(u, origin, outputs, n).fault is None,
        outputs_deleted(u, origin, outputs, n).state == (StateView { utxos, ..u.state }),
    decreases n,
{
    if n > 0 {
        let point = origin.outpoint(n - 1);
        let before = utxos_with(utxos, origin, outputs, (n - 1) as nat);
        assert(made_by(origin, outputs)[n - 1] == point);
        utxos_with_is(utxos, origin, outputs, (n - 1) as nat);
        if before.contains_key(point) {
            let i = choose|i: int|
                0 <= i < n - 1 && #[trigger] made_by(origin, outputs)[i] == point;
            assert(made_by(origin, outputs)[i] != made_by(origin, outputs)[n - 1]);
        }
        assert(u.state.utxos.remove(point) =~= before);
        let next = Undoing {
            state: StateView { utxos: before, ..u.state },
            diff: u.diff.remove(outputs[n - 1].leaf),
            fault: None,
        };
        deleting_undoes_making(next, utxos, origin, outputs, (n - 1) as nat);
    }
}

/// Spending keeps spent and unspent outputs apart, and makes no outpoint known
/// that was not.
proof fn spending_keeps_apart(
    utxos: Map<OutPoint, OutputView>,
    stxos: Map<OutPoint, SpentOutputView>,
    txid: Txid,
    inputs: Seq<(OutPoint, Hash256)>,
    n: nat,
)
    requires
        forall|k: OutPoint| #[trigger] utxos.contains_key(k) ==> !stxos.contains_key(k),
    ensures
        ({
            let done = inputs_spent(utxos, stxos, txid, inputs, n);
            &&& forall|k: OutPoint| #[trigger]
                done.utxos.contains_key(k) ==> utxos.contains_key(k) && !done.stxos.contains_key(k)
            &&& forall|k: OutPoint| #[trigger]
                done.stxos.contains_key(k) ==> utxos.contains_key(k) || stxos.contains_key(k)
        }),
    decreases n,
{
    if n > 0 {
        spending_keeps_apart(utxos, stxos, txid, inputs, (n - 1) as nat);
    }
}

/// Giving back what was just spent brings back what was there.
proof fn unspending_undoes_spending(
    u: Undoing,
    utxos: Map<OutPoint, OutputView>,
    stxos: Map<OutPoint, SpentOutputView>,
    txid: Txid,
    inputs: Seq<(OutPoint, Hash256)>,
    n: nat,
)
    requires
        forall|k: OutPoint| #[trigger] utxos.contains_key(k) ==> !stxos.contains_key(k),
        u.fault is None,
        inputs_spent(utxos, stxos, txid, inputs, n).missing is None,
        u.state.utxos == inputs_spent(utxos, stxos, txid, inputs, n).utxos,
        u.state.stxos == inputs_spent(utxos, stxos, txid, inputs, n).stxos,
    ensures
        inputs_unspent(u, inputs, n).fault is None,
        inputs_unspent(u, inputs, n).state == (StateView { utxos, stxos, ..u.state }),
    decreases n,
{
    if n > 0 {
        let before = inputs_spent(utxos, stxos, txid, inputs, (n - 1) as nat);
        let (point, leaf) = inputs[n - 1];
        spending_keeps_apart(utxos, stxos, txid, inputs, (n - 1) as nat);
        assert(before.utxos.contains_key(point));
        assert(u.state.stxos.remove(point) =~= before.stxos);
        assert(u.state.utxos.insert(point, u.state.stxos[point].output) =~= before.utxos);
        let next = Undoing {
            state: StateView { utxos: before.utxos, stxos: before.stxos, ..u.state },
            diff: u.diff.insert(leaf),
            fault: None,
        };
        unspending_undoes_spending(next, utxos, stxos, txid, inputs, (n - 1) as nat);
    }
}

/// What a transaction does to swaps can be undone: a swap that it makes is new,
/// and so are the locks; a swap that it claims was ready, and all its inputs
/// were locked to the swap.
pub open spec fn is_reversible(s: StateView, tx: TransactionView) -> bool {
    match tx.data {
        TxDataView::Regular => true,
        TxDataView::SwapCreate { swap_id, .. } => {
            &&& !s.swaps.contains_key(swap_id)
            &&& forall|k: OutPoint| #[trigger]
                set_aside(Origin::Transaction(tx.txid), tx.outputs, k)
                    ==> !s.locked_swap_outputs.contains_key(k)
        },
        TxDataView::SwapClaim { swap_id, .. } => {
            &&& s.swaps.contains_key(swap_id)
            &&& s.swaps[swap_id].id == swap_id
            &&& s.swaps[swap_id].state is ReadyToClaim
            &&& forall|j: int|
                0 <= j < tx.inputs.len() ==> s.locked_swap_outputs.contains_key(
                    (#[trigger] tx.inputs[j]).0,
                ) && s.locked_swap_outputs[tx.inputs[j].0] == swap_id
        },
    }
}

/// Locking outputs that are set aside locks these, and no others.
proof fn locks_with_is(
    locks: Map<OutPoint, SwapId>,
    origin: Origin,
    outputs: Seq<OutputView>,
    swap_id: SwapId,
    n: nat,
)
    requires
        n <= outputs.len(),
    ensures
        ({
            let after = locks_with(locks, origin, outputs, swap_id, n);
            &&& forall|k: OutPoint| #[trigger]
                locks.contains_key(k) ==> after.contains_key(k)
            &&& forall|k: OutPoint| #[trigger]
                after.contains_key(k) ==> (after[k] == swap_id && set_aside(origin, outputs, k))
                    || (locks.contains_key(k) && after[k] == locks[k])
        }),
    decreases n,
{
    if n > 0 {
        locks_with_is(locks, origin, outputs, swap_id, (n - 1) as nat);
        let before = locks_with(locks, origin, outputs, swap_id, (n - 1) as nat);
        if outputs[n - 1].content is SwapPending {
            assert(set_aside(origin, outputs, origin.outpoint(n - 1)));
        }
    }
}

/// Locking inputs that are not locked locks these, and no others.
proof fn inputs_locked_is(
    locks: Map<OutPoint, SwapId>,
    inputs: Seq<(OutPoint, Hash256)>,
    swap_id: SwapId,
    n: nat,
)
    requires
        n <= inputs.len(),
    ensures
        ({
            let after = inputs_locked(locks, inputs, swap_id, n);
            &&& forall|k: OutPoint| #[trigger]
                after.contains_key(k) <==> locks.contains_key(k) || names(inputs.take(n as int), k)
            &&& forall|k: OutPoint| #[trigger]
                after.contains_key(k) ==> after[k] == if locks.contains_key(k) {
                    locks[k]
                } else {
                    swap_id
                }
        }),
    decreases n,
{
    let some = inputs.take(n as int);
    if n > 0 {
        let point = inputs[n - 1].0;
        let fewer = inputs.take(n - 1);
        let next = if locks.contains_key(point) {
            locks
        } else {
            locks.insert(point, swap_id)
        };
        inputs_locked_is(next, inputs, swap_id, (n - 1) as nat);
        assert forall|k: OutPoint| names(some, k) <==> names(fewer, k) || k == point by {
            if names(some, k) && k != point {
                let j = choose|j: int| 0 <= j < some.len() && (#[trigger] some[j]).0 == k;
                assert(fewer[j].0 == k);
            }
            if names(fewer, k) {
                let j = choose|j: int| 0 <= j < fewer.len() && (#[trigger] fewer[j]).0 == k;
                assert(some[j].0 == k);
            }
            assert(some[n - 1].0 == point);
        }
        let after = inputs_locked(locks, inputs, swap_id, n);
        assert(after == inputs_locked(next, inputs, swap_id, (n - 1) as nat));
        assert forall|k: OutPoint| #[trigger]
            after.contains_key(k) <==> locks.contains_key(k) || names(some, k) by {
            assert(after.contains_key(k) <==> next.contains_key(k) || names(fewer, k));
            assert(names(some, k) <==> names(fewer, k) || k == point);
        }
        assert forall|k: OutPoint| #[trigger] after.contains_key(k) implies after[k] == if
            locks.contains_key(k) {
            locks[k]
        } else {
            swap_id
        } by {
            assert(after[k] == if next.contains_key(k) {
                next[k]
            } else {
                swap_id
            });
        }
    } else {
        assert forall|k: OutPoint| !names(some, k) by {
            if names(some, k) {
                let j = choose|j: int| 0 <= j < some.len() && (#[trigger] some[j]).0 == k;
            }
        }
    }
}

/// Undoing what a transaction did to swaps brings back what was there.
proof fn swap_undone(s: StateView, x: StateView, filled: FilledTransactionView, height: u32)
    requires
        is_reversible(s, filled.transaction),
        swap_connected(s, filled, height).fault is None,
        x.swaps == swap_connected(s, filled, height).state.swaps,
        x.locked_swap_outputs == swap_connected(s, filled, height).state.locked_swap_outputs,
    ensures
        swap_disconnected(x, filled.transaction) == (Step {
            state: StateView {
                swaps: s.swaps,
                locked_swap_outputs: s.locked_swap_outputs,
                ..x
            },
            fault: None,
        }),
{
    let tx = filled.transaction;
    let locks = s.locked_swap_outputs;
    match tx.data {
        TxDataView::Regular => {},
        TxDataView::SwapCreate { swap_id, .. } => {
            let origin = Origin::Transaction(tx.txid);
            locks_with_is(locks, origin, tx.outputs, swap_id, tx.outputs.len());
            assert(x.swaps.remove(swap_id) =~= s.swaps);
            assert(outputs_unlocked(x.locked_swap_outputs, origin, tx.outputs, swap_id) =~= locks);
        },
        TxDataView::SwapClaim { swap_id, .. } => {
            let swap = s.swaps[swap_id];
            assert(x.swaps.contains_key(swap_id));
            assert(x.swaps.insert(swap_id, swap) =~= s.swaps);
            assert(x.swaps[swap_id].in_state(SwapState::ReadyToClaim) == swap);
            inputs_locked_is(x.locked_swap_outputs, tx.inputs, swap_id, tx.inputs.len());
            assert(tx.inputs.take(tx.inputs.len() as int) =~= tx.inputs);
            let after = inputs_locked(
                x.locked_swap_outputs,
                tx.inputs,
                swap_id,
                tx.inputs.len(),
            );
            assert forall|k: OutPoint| names(tx.inputs, k) implies locks.contains_key(k)
                && locks[k] == swap_id by {
                let j = choose|j: int|
                    0 <= j < tx.inputs.len() && (#[trigger] tx.inputs[j]).0 == k;
                assert(tx.inputs[j].0 == k);
            }
            assert(after =~= locks);
        },
    }
}

/// Taking back a transaction that was just connected brings back what was there.
proof fn transaction_taken_back(
    s: StateView,
    u: Undoing,
    filled: FilledTransactionView,
    height: u32,
)
    requires
        outputs_disjoint(s),
        are_new(s, made_by(Origin::Transaction(filled.transaction.txid), filled.transaction.outputs)),
        is_reversible(s, filled.transaction),
        filled_connected(s, filled, height).fault is None,
        u.fault is None,
        u.state.utxos == filled_connected(s, filled, height).state.utxos,
        u.state.stxos == filled_connected(s, filled, height).state.stxos,
        u.state.swaps == filled_connected(s, filled, height).state.swaps,
        u.state.locked_swap_outputs == filled_connected(
            s,
            filled,
            height,
        ).state.locked_swap_outputs,
    ensures
        transaction_undone(u, filled.transaction).fault is None,
        transaction_undone(u, filled.transaction).state == (StateView {
            utxos: s.utxos,
            stxos: s.stxos,
            swaps: s.swaps,
            locked_swap_outputs: s.locked_swap_outputs,
            ..u.state
        }),
{
    let tx = filled.transaction;
    let origin = Origin::Transaction(tx.txid);
    let moved = coins_moved(s, tx).state;
    let spending = inputs_spent(s.utxos, s.stxos, tx.txid, tx.inputs, tx.inputs.len());
    swap_undone(moved, u.state, filled, height);
    let first = Undoing {
        state: swap_disconnected(u.state, tx).state,
        diff: u.diff,
        fault: None,
    };
    spending_keeps_apart(s.utxos, s.stxos, tx.txid, tx.inputs, tx.inputs.len());
    assert forall|i: int| 0 <= i < tx.outputs.len() implies !spending.utxos.contains_key(
        #[trigger] made_by(origin, tx.outputs)[i],
    ) by {
        assert(!s.utxos.contains_key(made_by(origin, tx.outputs)[i]));
    }
    deleting_undoes_making(first, spending.utxos, origin, tx.outputs, tx.outputs.len());
    let second = outputs_deleted(first, origin, tx.outputs, tx.outputs.len());
    unspending_undoes_spending(
        second,
        s.utxos,
        s.stxos,
        tx.txid,
        tx.inputs,
        tx.inputs.len(),
    );
}

/// Connecting a transaction whose outputs are new keeps spent and unspent
/// outputs apart, and makes no outpoint known but those of its outputs.
proof fn connecting_keeps_apart(s: StateView, filled: FilledTransactionView, height: u32)
    requires
        outputs_disjoint(s),
        are_new(s, made_by(Origin::Transaction(filled.transaction.txid), filled.transaction.outputs)),
    ensures
        ({
            let tx = filled.transaction;
            let after = filled_connected(s, filled, height).state;
            let made = made_by(Origin::Transaction(tx.txid), tx.outputs);
            &&& outputs_disjoint(after)
            &&& forall|k: OutPoint|
                (#[trigger] after.utxos.contains_key(k) || after.stxos.contains_key(k))
                    ==> s.utxos.contains_key(k) || s.stxos.contains_key(k) || made.contains(k)
        }),
{
    let tx = filled.transaction;
    let origin = Origin::Transaction(tx.txid);
    let made = made_by(origin, tx.outputs);
    let after = filled_connected(s, filled, height).state;
    let spending = inputs_spent(s.utxos, s.stxos, tx.txid, tx.inputs, tx.inputs.len());
    spending_keeps_apart(s.utxos, s.stxos, tx.txid, tx.inputs, tx.inputs.len());
    utxos_with_is(spending.utxos, origin, tx.outputs, tx.outputs.len());
    assert forall|k: OutPoint| #[trigger]
        after.utxos.contains_key(k) implies !after.stxos.contains_key(k) && (
    spending.utxos.contains_key(k) || made.contains(k)) by {
        if !spending.utxos.contains_key(k) {
            let i = choose|i: int| 0 <= i < tx.outputs.len() && #[trigger] made[i] == k;
            assert(made.contains(k));
            assert(!s.utxos.contains_key(made[i]) && !s.stxos.contains_key(made[i]));
        }
    }
}

/// The outpoints that one transaction makes stand in a row among those that many
/// make.
proof fn made_in_a_row(txs: Seq<TransactionView>, i: nat, n: nat)
    requires
        i < n <= txs.len(),
    ensures
        ({
            let made = made_by(Origin::Transaction(txs[i as int].txid), txs[i as int].outputs);
            &&& made_outpoints(txs, i).len() + made.len() == made_outpoints(txs, i + 1).len()
            &&& made_outpoints(txs, i + 1).len() <= made_outpoints(txs, n).len()
            &&& forall|j: int|
                0 <= j < made.len() ==> made_outpoints(txs, n)[made_outpoints(txs, i).len() + j]
                    == #[trigger] made[j]
        }),
    decreases n - i,
{
    if i + 1 < n {
        made_in_a_row(txs, i, (n - 1) as nat);
    }
}

/// Outpoints that are made later are new until then.
proof fn later_stay_new(
    s: StateView,
    txs: Seq<TransactionView>,
    list: Seq<FilledTransactionView>,
    height: u32,
    n: nat,
)
    requires
        n <= txs.len(),
        list.len() == txs.len(),
        forall|i: int| 0 <= i < txs.len() ==> (#[trigger] list[i]).transaction == txs[i],
        outputs_disjoint(s),
        are_new(s, made_outpoints(txs, txs.len())),
        all_filled_connected(s, list, height, n).fault is None,
    ensures
        ({
            let points = made_outpoints(txs, txs.len());
            let after = all_filled_connected(s, list, height, n).state;
            &&& outputs_disjoint(after)
            &&& forall|q: int|
                made_outpoints(txs, n).len() <= q < points.len() ==> !after.utxos.contains_key(
                    #[trigger] points[q],
                ) && !after.stxos.contains_key(points[q])
        }),
    decreases n,
{
    if n > 0 {
        later_stay_new(s, txs, list, height, (n - 1) as nat);
        let points = made_outpoints(txs, txs.len());
        let before = all_filled_connected(s, list, height, (n - 1) as nat).state;
        let after = all_filled_connected(s, list, height, n).state;
        let filled = list[n - 1];
        assert(filled.transaction == txs[n - 1]);
        let start = made_outpoints(txs, (n - 1) as nat).len();
        made_in_a_row(txs, (n - 1) as nat, txs.len());
        made_are_new(before, txs, (n - 1) as nat);
        let made = made_by(Origin::Transaction(txs[n - 1].txid), txs[n - 1].outputs);
        connecting_keeps_apart(before, filled, height);
        assert forall|q: int|
            made_outpoints(txs, n).len() <= q < points.len() implies !after.utxos.contains_key(
            #[trigger] points[q],
        ) && !after.stxos.contains_key(points[q]) by {
            assert(!before.utxos.contains_key(points[q]));
            if made.contains(points[q]) {
                let j = choose|j: int| 0 <= j < made.len() && made[j] == points[q];
                assert(points[start + j] == made[j]);
            }
            assert(after.utxos.contains_key(points[q]) || after.stxos.contains_key(points[q])
                ==> made.contains(points[q]));
        }
    }
}

/// Where the outpoints that are made from one transaction on are new, those of
/// the transaction are.
proof fn made_are_new(s: StateView, txs: Seq<TransactionView>, i: nat)
    requires
        i < txs.len(),
        made_outpoints(txs, txs.len()).no_duplicates(),
        forall|q: int|
            made_outpoints(txs, i).len() <= q < made_outpoints(txs, txs.len()).len()
                ==> !s.utxos.contains_key(#[trigger] made_outpoints(txs, txs.len())[q])
                && !s.stxos.contains_key(made_outpoints(txs, txs.len())[q]),
    ensures
        are_new(s, made_by(Origin::Transaction(txs[i as int].txid), txs[i as int].outputs)),
{
    let points = made_outpoints(txs, txs.len());
    let start = made_outpoints(txs, i).len();
    let made = made_by(Origin::Transaction(txs[i as int].txid), txs[i as int].outputs);
    made_in_a_row(txs, i, txs.len());
    assert forall|q: int| 0 <= q < made.len() implies !s.utxos.contains_key(#[trigger] made[q])
        && !s.stxos.contains_key(made[q]) by {
        assert(points[start + q] == made[q]);
    }
    assert forall|a: int, b: int|
        0 <= a < made.len() && 0 <= b < made.len() && a != b implies made[a] != made[b] by {
        assert(points[start + a] == made[a]);
        assert(points[start + b] == made[b]);
    }
}

/// What the first `n` transactions do to swaps can be undone.
pub open spec fn all_reversible(
    s: StateView,
    list: Seq<FilledTransactionView>,
    height: u32,
    n: nat,
) -> bool {
    forall|i: int|
        0 <= i < n ==> is_reversible(
            all_filled_connected(s, list, height, i as nat).state,
            (#[trigger] list[i]).transaction,
        )
}

/// Taking back transactions that were just connected brings back what was there.
proof fn transactions_taken_back(
    s: StateView,
    u: Undoing,
    txs: Seq<TransactionView>,
    list: Seq<FilledTransactionView>,
    height: u32,
    n: nat,
)
    requires
        n <= txs.len(),
        list.len() == txs.len(),
        forall|i: int| 0 <= i < txs.len() ==> (#[trigger] list[i]).transaction == txs[i],
        outputs_disjoint(s),
        are_new(s, made_outpoints(txs, txs.len())),
        all_reversible(s, list, height, n),
        all_filled_connected(s, list, height, n).fault is None,
        u.fault is None,
        u.state.utxos == all_filled_connected(s, list, height, n).state.utxos,
        u.state.stxos == all_filled_connected(s, list, height, n).state.stxos,
        u.state.swaps == all_filled_connected(s, list, height, n).state.swaps,
        u.state.locked_swap_outputs == all_filled_connected(
            s,
            list,
            height,
            n,
        ).state.locked_swap_outputs,
    ensures
        transactions_undone(u, txs, n).fault is None,
        transactions_undone(u, txs, n).state == (StateView {
            utxos: s.utxos,
            stxos: s.stxos,
            swaps: s.swaps,
            locked_swap_outputs: s.locked_swap_outputs,
            ..u.state
        }),
    decreases n,
{
    if n > 0 {
        let before = all_filled_connected(s, list, height, (n - 1) as nat).state;
        let filled = list[n - 1];
        assert(filled.transaction == txs[n - 1]);
        later_stay_new(s, txs, list, height, (n - 1) as nat);
        made_are_new(before, txs, (n - 1) as nat);
        assert(is_reversible(before, list[n - 1].transaction));
        transaction_taken_back(before, u, filled, height);
        let next = transaction_undone(u, txs[n - 1]);
        transactions_taken_back(s, next, txs, list, height, (n - 1) as nat);
    }
}

/// The tip and its height are known together, or neither.
pub open spec fn tip_has_height(s: StateView) -> bool {
    s.tip is Some <==> s.height is Some
}

/// Disconnecting a block that was just connected brings back the state from
/// before, all but the accumulator: the tip and its height, the outputs, the
/// swaps and what is locked to them. This holds where the outpoints that the
/// block makes are new, and what it does to swaps can be undone.
#[verifier::rlimit(40)]
pub proof fn disconnecting_undoes_connecting(
    s: StateView,
    header: HeaderView,
    body: BodyView,
    facts: BodyFactsView,
)
    requires
        tip_has_height(s),
        outputs_disjoint(s),
        are_new(s, block_outpoints(header, body)),
        prevalidated(s, header, body, facts) is Ok,
        ({
            let pre = prevalidated(s, header, body, facts)->Ok_0;
            let made = coinbase_made(s, header.merkle_root, body.coinbase);
            let list = pre.filled_transactions;
            &&& all_reversible(made, list, pre.next_height, list.len())
            &&& prevalidated_connected(s, header, body, pre).fault is None
        }),
    ensures
        ({
            let pre = prevalidated(s, header, body, facts)->Ok_0;
            let after = prevalidated_connected(s, header, body, pre).state;
            let back = tip_disconnected(after, header, body);
            &&& back.state == (StateView { accumulator: back.state.accumulator, ..s })
            &&& back.fault is None || is_change_fault(back.fault)
        }),
{
    let pre = prevalidated(s, header, body, facts)->Ok_0;
    let txs = body.transactions;
    accepted_are_filled(s, txs, facts.transactions);
    filled_each(s.utxos, txs, txs.len());
    let after = prevalidated_connected(s, header, body, pre).state;
    block_taken_back(s, after, header, body, pre.filled_transactions, pre.next_height);
}

/// Once a coinbase is made, what the transactions of its block make is still
/// new.
proof fn coinbase_is_new(s: StateView, header: HeaderView, body: BodyView)
    requires
        outputs_disjoint(s),
        are_new(s, block_outpoints(header, body)),
    ensures
        ({
            let made = coinbase_made(s, header.merkle_root, body.coinbase);
            let coinbase = made_by(Origin::Coinbase(header.merkle_root), body.coinbase);
            &&& outputs_disjoint(made)
            &&& are_new(made, made_outpoints(body.transactions, body.transactions.len()))
            &&& are_new(s, coinbase)
        }),
{
    let txs = body.transactions;
    let origin = Origin::Coinbase(header.merkle_root);
    let coinbase = made_by(origin, body.coinbase);
    let made = coinbase_made(s, header.merkle_root, body.coinbase);
    let all = block_outpoints(header, body);
    let points = made_outpoints(txs, txs.len());
    assert forall|i: int| 0 <= i < coinbase.len() implies !s.utxos.contains_key(
        #[trigger] coinbase[i],
    ) && !s.stxos.contains_key(coinbase[i]) by {
        assert(all[i] == coinbase[i]);
    }
    assert forall|a: int, b: int|
        0 <= a < coinbase.len() && 0 <= b < coinbase.len() && a != b implies coinbase[a]
        != coinbase[b] by {
        assert(all[a] == coinbase[a]);
        assert(all[b] == coinbase[b]);
    }
    utxos_with_is(s.utxos, origin, body.coinbase, body.coinbase.len());
    assert forall|q: int| 0 <= q < points.len() implies !made.utxos.contains_key(
        #[trigger] points[q],
    ) && !made.stxos.contains_key(points[q]) by {
        assert(all[coinbase.len() + q] == points[q]);
        if made.utxos.contains_key(points[q]) {
            let i = choose|i: int| 0 <= i < coinbase.len() && #[trigger] coinbase[i] == points[q];
            assert(all[i] == coinbase[i]);
        }
    }
    assert forall|a: int, b: int|
        0 <= a < points.len() && 0 <= b < points.len() && a != b implies points[a] != points[b] by {
        assert(all[coinbase.len() + a] == points[a]);
        assert(all[coinbase.len() + b] == points[b]);
    }
    assert forall|k: OutPoint| #[trigger] made.utxos.contains_key(k) implies !made.stxos.contains_key(
        k,
    ) by {
        if !s.utxos.contains_key(k) {
            let i = choose|i: int| 0 <= i < coinbase.len() && #[trigger] coinbase[i] == k;
            assert(!s.stxos.contains_key(coinbase[i]));
        }
    }
}

/// Taking a block back brings back what was there.
proof fn block_taken_back(
    s: StateView,
    after: StateView,
    header: HeaderView,
    body: BodyView,
    list: Seq<FilledTransactionView>,
    height: u32,
)
    requires
        tip_has_height(s),
        s.height != Some(u32::MAX),
        height == s.next_height(),
        header.prev_side_hash == s.tip,
        outputs_disjoint(s),
        are_new(s, block_outpoints(header, body)),
        list.len() == body.transactions.len(),
        forall|i: int| 0 <= i < list.len() ==> (#[trigger] list[i]).transaction
            == body.transactions[i],
        ({
            let made = coinbase_made(s, header.merkle_root, body.coinbase);
            let step = all_filled_connected(made, list, height, list.len());
            &&& all_reversible(made, list, height, list.len())
            &&& step.fault is None
            &&& after == (StateView {
                tip: Some(header.hash),
                height: Some(height),
                accumulator: after.accumulator,
                ..step.state
            })
        }),
    ensures
        ({
            let back = tip_disconnected(after, header, body);
            &&& back.state == (StateView { accumulator: back.state.accumulator, ..s })
            &&& back.fault is None || is_change_fault(back.fault)
        }),
{
    let txs = body.transactions;
    let origin = Origin::Coinbase(header.merkle_root);
    let made = coinbase_made(s, header.merkle_root, body.coinbase);
    coinbase_is_new(s, header, body);
    let u = Undoing { state: after, diff: DiffView::none(), fault: None };
    transactions_taken_back(made, u, txs, list, height, txs.len());
    let undone = transactions_undone(u, txs, txs.len());
    deleting_undoes_making(undone, s.utxos, origin, body.coinbase, body.coinbase.len());
    connected_keeps(made, list, height, list.len());
    let staged = tip_disconnect_staged(after, header, body);
    assert(staged.fault is None);
    assert(staged.state == (StateView { accumulator: after.accumulator, ..s }));
    change_faults(staged.state, staged.diff);
}

/// Connecting transactions leaves all but outputs and swaps alone.
proof fn connected_keeps(s: StateView, list: Seq<FilledTransactionView>, height: u32, n: nat)
    ensures
        ({
            let after = all_filled_connected(s, list, height, n).state;
            after == (StateView {
                utxos: after.utxos,
                stxos: after.stxos,
                swaps: after.swaps,
                locked_swap_outputs: after.locked_swap_outputs,
                ..s
            })
        }),
    decreases n,
{
    if n > 0 {
        connected_keeps(s, list, height, (n - 1) as nat);
    }
}

/// Undoing what a transaction does to swaps would change nothing.
pub open spec fn leaves_swaps(s: StateView, tx: TransactionView) -> bool {
    swap_disconnected(s, tx) == (Step { state: s, fault: None })
}

/// A transaction as far as it moves coins.
spec fn plain(tx: TransactionView) -> TransactionView {
    TransactionView { data: TxDataView::Regular, ..tx }
}

/// Transactions as far as they move coins.
spec fn all_plain(txs: Seq<TransactionView>) -> Seq<TransactionView> {
    Seq::new(txs.len(), |i: int| plain(txs[i]))
}

/// Transactions as far as they move coins, as if they had been filled.
spec fn all_plain_filled(txs: Seq<TransactionView>) -> Seq<FilledTransactionView> {
    Seq::new(
        txs.len(),
        |i: int|
            FilledTransactionView { transaction: plain(txs[i]), spent_utxos: Seq::empty() },
    )
}

/// Moving coins is connecting as far as coins are moved.
proof fn moving_is_connecting(s: StateView, txs: Seq<TransactionView>, height: u32, n: nat)
    requires
        n <= txs.len(),
    ensures
        all_filled_connected(s, all_plain_filled(txs), height, n) == all_coins_moved(s, txs, n),
    decreases n,
{
    if n > 0 {
        moving_is_connecting(s, txs, height, (n - 1) as nat);
        assert(all_plain_filled(txs)[n - 1].transaction == plain(txs[n - 1]));
    }
}

/// The outpoints that transactions make have nothing to do with swaps.
proof fn plain_make_the_same(txs: Seq<TransactionView>, n: nat)
    requires
        n <= txs.len(),
    ensures
        made_outpoints(all_plain(txs), n) == made_outpoints(txs, n),
    decreases n,
{
    if n > 0 {
        plain_make_the_same(txs, (n - 1) as nat);
        assert(all_plain(txs)[n - 1] == plain(txs[n - 1]));
    }
}

/// Transactions are taken back alike where nothing is done to swaps.
proof fn plain_undone_alike(s: StateView, u: Undoing, txs: Seq<TransactionView>, n: nat)
    requires
        n <= txs.len(),
        forall|i: int| 0 <= i < txs.len() ==> leaves_swaps(s, #[trigger] txs[i]),
        u.state.swaps == s.swaps,
        u.state.locked_swap_outputs == s.locked_swap_outputs,
    ensures
        transactions_undone(u, txs, n) == transactions_undone(u, all_plain(txs), n),
    decreases n,
{
    if n > 0 && u.fault is None {
        let tx = txs[n - 1];
        assert(all_plain(txs)[n - 1] == plain(tx));
        assert(leaves_swaps(s, tx));
        assert(swap_disconnected(u.state, tx).state.swaps == swap_disconnected(s, tx).state.swaps);
        assert(swap_disconnected(u.state, tx) == (Step { state: u.state, fault: None }));
        assert(transaction_undone(u, tx) == transaction_undone(u, plain(tx)));
        let origin = Origin::Transaction(tx.txid);
        outputs_deleted_keeps(u, origin, tx.outputs, tx.outputs.len());
        inputs_unspent_keeps(
            outputs_deleted(u, origin, tx.outputs, tx.outputs.len()),
            tx.inputs,
            tx.inputs.len(),
        );
        plain_undone_alike(s, transaction_undone(u, tx), txs, (n - 1) as nat);
    }
}

/// Disconnecting a block that was just connected with `connect` brings back the
/// state from before, all but the accumulator. This holds where the outpoints
/// that the block makes are new, and where there is nothing to undo of swaps,
/// which `connect` does not look after.
pub proof fn disconnecting_undoes_unchecked_connecting(
    s: StateView,
    header: HeaderView,
    body: BodyView,
    merkle_root: Result<MerkleRoot, Rejection>,
)
    requires
        tip_has_height(s),
        outputs_disjoint(s),
        are_new(s, block_outpoints(header, body)),
        forall|i: int|
            0 <= i < body.transactions.len() ==> leaves_swaps(
                s,
                #[trigger] body.transactions[i],
            ),
        connected(s, header, body, merkle_root).fault is None,
    ensures
        ({
            let after = connected(s, header, body, merkle_root).state;
            let back = tip_disconnected(after, header, body);
            &&& back.state == (StateView { accumulator: back.state.accumulator, ..s })
            &&& back.fault is None || is_change_fault(back.fault)
        }),
{
    let txs = body.transactions;
    let simple = BodyView { transactions: all_plain(txs), ..body };
    let list = all_plain_filled(txs);
    let height = s.next_height() as u32;
    let made = coinbase_made(s, header.merkle_root, body.coinbase);
    let after = connected(s, header, body, merkle_root).state;
    moving_is_connecting(made, txs, height, txs.len());
    plain_make_the_same(txs, txs.len());
    assert forall|i: int| 0 <= i < list.len() implies (#[trigger] list[i]).transaction
        == simple.transactions[i] by {}
    connected_keeps(made, list, height, list.len());
    block_taken_back(s, after, header, simple, list, height);
    coins_moved_keeps(made, txs, txs.len());
    plain_undone_alike(
        s,
        Undoing { state: after, diff: DiffView::none(), fault: None },
        txs,
        txs.len(),
    );
}

/// Connecting an accepted block whose outpoints are new keeps spent and unspent
/// outputs apart.
pub proof fn connecting_keeps_outputs_disjoint(
    s: StateView,
    header: HeaderView,
    body: BodyView,
    facts: BodyFactsView,
)
    requires
        outputs_disjoint(s),
        are_new(s, block_outpoints(header, body)),
        prevalidated(s, header, body, facts) is Ok,
        prevalidated_connected(
            s,
            header,
            body,
            prevalidated(s, header, body, facts)->Ok_0,
        ).fault is None,
    ensures
        outputs_disjoint(
            prevalidated_connected(
                s,
                header,
                body,
                prevalidated(s, header, body, facts)->Ok_0,
            ).state,
        ),
{
    let txs = body.transactions;
    let pre = prevalidated(s, header, body, facts)->Ok_0;
    accepted_are_filled(s, txs, facts.transactions);
    filled_each(s.utxos, txs, txs.len());
    coinbase_is_new(s, header, body);
    let made = coinbase_made(s, header.merkle_root, body.coinbase);
    later_stay_new(made, txs, pre.filled_transactions, pre.next_height, txs.len());
}

/// Taking transactions back leaves the tip and its height alone, and keeps spent
/// and unspent outputs apart.
proof fn undone_keeps(u: Undoing, txs: Seq<TransactionView>, n: nat)
    ensures
        transactions_undone(u, txs, n).state.tip == u.state.tip,
        transactions_undone(u, txs, n).state.height == u.state.height,
        outputs_disjoint(u.state) ==> outputs_disjoint(transactions_undone(u, txs, n).state),
    decreases n,
{
    if n > 0 && u.fault is None {
        let tx = txs[n - 1];
        let swap = swap_disconnected(u.state, tx);
        let first = Undoing { state: swap.state, diff: u.diff, fault: swap.fault };
        let origin = Origin::Transaction(tx.txid);
        transaction_undone_keeps(u, tx);
        deleted_stay_apart(first, origin, tx.outputs, tx.outputs.len());
        let second = outputs_deleted(first, origin, tx.outputs, tx.outputs.len());
        unspent_stay_apart(second, tx.inputs, tx.inputs.len());
        undone_keeps(transaction_undone(u, tx), txs, (n - 1) as nat);
    }
}

/// Deleting outputs keeps spent and unspent outputs apart.
proof fn deleted_stay_apart(u: Undoing, origin: Origin, outputs: Seq<OutputView>, n: nat)
    ensures
        outputs_disjoint(u.state) ==> outputs_disjoint(
            outputs_deleted(u, origin, outputs, n).state,
        ),
    decreases n,
{
    if n > 0 && u.fault is None {
        let outpoint = origin.outpoint(n - 1);
        let next = Undoing {
            state: StateView { utxos: u.state.utxos.remove(outpoint), ..u.state },
            diff: u.diff.remove(outputs[n - 1].leaf),
            fault: if u.state.utxos.contains_key(outpoint) {
                None
            } else {
                reported(Error::NoUtxo { outpoint })
            },
        };
        deleted_stay_apart(next, origin, outputs, (n - 1) as nat);
    }
}

/// Giving back what inputs spent keeps spent and unspent outputs apart.
proof fn unspent_stay_apart(u: Undoing, inputs: Seq<(OutPoint, Hash256)>, n: nat)
    ensures
        outputs_disjoint(u.state) ==> outputs_disjoint(inputs_unspent(u, inputs, n).state),
    decreases n,
{
    if n > 0 && u.fault is None {
        let (outpoint, leaf) = inputs[n - 1];
        if u.state.stxos.contains_key(outpoint) {
            let next = Undoing {
                state: StateView {
                    stxos: u.state.stxos.remove(outpoint),
                    utxos: u.state.utxos.insert(outpoint, u.state.stxos[outpoint].output),
                    ..u.state
                },
                diff: u.diff.insert(leaf),
                fault: None,
            };
            unspent_stay_apart(next, inputs, (n - 1) as nat);
        }
    }
}

/// Disconnecting keeps spent and unspent outputs apart, whether it succeeds or
/// not.
pub proof fn disconnecting_keeps_outputs_disjoint(s: StateView, header: HeaderView, body: BodyView)
    requires
        outputs_disjoint(s),
    ensures
        outputs_disjoint(tip_disconnected(s, header, body).state),
{
    let start = Undoing { state: s, diff: DiffView::none(), fault: None };
    let txs = body.transactions;
    undone_keeps(start, txs, txs.len());
    deleted_stay_apart(
        transactions_undone(start, txs, txs.len()),
        Origin::Coinbase(header.merkle_root),
        body.coinbase,
        body.coinbase.len(),
    );
}

/// Connecting a block, checked before or not, and disconnecting one all keep the
/// tip and its height known together, whether they succeed or not.
pub proof fn tip_keeps_height(
    s: StateView,
    header: HeaderView,
    body: BodyView,
    pre: PrevalidatedBlockView,
    merkle_root: Result<MerkleRoot, Rejection>,
)
    requires
        tip_has_height(s),
    ensures
        tip_has_height(prevalidated_connected(s, header, body, pre).state),
        tip_has_height(connected(s, header, body, merkle_root).state),
        tip_has_height(tip_disconnected(s, header, body).state),
{
    let txs = body.transactions;
    connected_keeps(
        coinbase_made(s, pre.computed_merkle_root, body.coinbase),
        pre.filled_transactions,
        pre.next_height,
        pre.filled_transactions.len(),
    );
    coins_moved_keeps(coinbase_made(s, header.merkle_root, body.coinbase), txs, txs.len());
    let start = Undoing { state: s, diff: DiffView::none(), fault: None };
    undone_keeps(start, txs, txs.len());
    outputs_deleted_keeps(
        transactions_undone(start, txs, txs.len()),
        Origin::Coinbase(header.merkle_root),
        body.coinbase,
        body.coinbase.len(),
    );
}

// Filling.
/// The outputs that inputs name.
spec fn named_outputs(utxos: Map<OutPoint, OutputView>, inputs: Seq<(OutPoint, Hash256)>) -> Seq<
    OutputView,
> {
    Seq::new(inputs.len(), |j: int| utxos[inputs[j].0])
}

/// What was looked up are the outputs that the inputs name.
proof fn lookups_are(utxos: Map<OutPoint, OutputView>, inputs: Seq<(OutPoint, Hash256)>, n: nat)
    requires
        n <= inputs.len(),
        looked_up(utxos, inputs, n) is Ok,
    ensures
        looked_up(utxos, inputs, n)->Ok_0 == named_outputs(utxos, inputs).take(n as int),
    decreases n,
{
    let all = named_outputs(utxos, inputs);
    if n > 0 {
        lookups_are(utxos, inputs, (n - 1) as nat);
        assert(all.take(n - 1).push(all[n - 1]) =~= all.take(n as int));
    } else {
        assert(all.take(0) =~= Seq::empty());
    }
}

/// A transaction that was filled holds the outputs that its inputs name.
proof fn filled_are(utxos: Map<OutPoint, OutputView>, txs: Seq<TransactionView>, n: nat)
    requires
        n <= txs.len(),
        all_filled(utxos, txs, n) is Ok,
    ensures
        all_filled(utxos, txs, n)->Ok_0.len() == n,
        forall|i: int|
            0 <= i < n ==> (#[trigger] all_filled(utxos, txs, n)->Ok_0[i]).spent_utxos
                == named_outputs(utxos, txs[i].inputs),
    decreases n,
{
    if n > 0 {
        filled_are(utxos, txs, (n - 1) as nat);
        let tx = txs[n - 1];
        lookups_are(utxos, tx.inputs, tx.inputs.len());
        assert(named_outputs(utxos, tx.inputs).take(tx.inputs.len() as int) =~= named_outputs(
            utxos,
            tx.inputs,
        ));
    }
}

/// Outputs that are made leave others as they are.
proof fn made_leave_others(
    utxos: Map<OutPoint, OutputView>,
    origin: Origin,
    outputs: Seq<OutputView>,
    n: nat,
    k: OutPoint,
)
    requires
        n <= outputs.len(),
        utxos.contains_key(k),
        forall|i: int| 0 <= i < n ==> #[trigger] made_by(origin, outputs)[i] != k,
    ensures
        utxos_with(utxos, origin, outputs, n).contains_key(k),
        utxos_with(utxos, origin, outputs, n)[k] == utxos[k],
    decreases n,
{
    if n > 0 {
        made_leave_others(utxos, origin, outputs, (n - 1) as nat, k);
        assert(made_by(origin, outputs)[n - 1] != k);
    }
}

/// Inputs that name different unspent outputs are handed these, and others stay
/// as they are.
proof fn spending_gives(
    utxos: Map<OutPoint, OutputView>,
    stxos: Map<OutPoint, SpentOutputView>,
    txid: Txid,
    inputs: Seq<(OutPoint, Hash256)>,
    n: nat,
)
    requires
        n <= inputs.len(),
        forall|j: int| 0 <= j < inputs.len() ==> utxos.contains_key((#[trigger] inputs[j]).0),
        forall|i: int, j: int|
            #![trigger inputs[i], inputs[j]]
            0 <= i < j < inputs.len() ==> inputs[i].0 != inputs[j].0,
    ensures
        ({
            let done = inputs_spent(utxos, stxos, txid, inputs, n);
            &&& done.missing is None
            &&& done.spent == named_outputs(utxos, inputs).take(n as int)
            &&& forall|k: OutPoint|
                utxos.contains_key(k) && (forall|j: int|
                    0 <= j < n ==> (#[trigger] inputs[j]).0 != k) ==> #[trigger]
                    done.utxos.contains_key(k) && done.utxos[k] == utxos[k]
        }),
    decreases n,
{
    let all = named_outputs(utxos, inputs);
    if n > 0 {
        spending_gives(utxos, stxos, txid, inputs, (n - 1) as nat);
        let before = inputs_spent(utxos, stxos, txid, inputs, (n - 1) as nat);
        let point = inputs[n - 1].0;
        assert forall|j: int| 0 <= j < n - 1 implies (#[trigger] inputs[j]).0 != point by {
            assert(inputs[j].0 != inputs[n - 1].0);
        }
        assert(before.utxos.contains_key(point) && before.utxos[point] == utxos[point]);
        assert(all.take(n - 1).push(all[n - 1]) =~= all.take(n as int));
        let done = inputs_spent(utxos, stxos, txid, inputs, n);
        assert forall|k: OutPoint|
            utxos.contains_key(k) && (forall|j: int|
                0 <= j < n ==> (#[trigger] inputs[j]).0 != k) implies #[trigger]
        done.utxos.contains_key(k) && done.utxos[k] == utxos[k] by {
            assert(inputs[n - 1].0 != k);
            assert(before.utxos.contains_key(k));
        }
    } else {
        assert(all.take(0) =~= Seq::empty());
    }
}

/// As transactions move their coins, what those after them spend stays as it
/// was.
proof fn later_inputs_stay(
    utxos: Map<OutPoint, OutputView>,
    s: StateView,
    txs: Seq<TransactionView>,
    n: nat,
)
    requires
        n <= txs.len(),
        spent_outpoints(txs, txs.len()).no_duplicates(),
        forall|q: int|
            0 <= q < spent_outpoints(txs, txs.len()).len() ==> utxos.contains_key(
                #[trigger] spent_outpoints(txs, txs.len())[q],
            ),
        forall|q: int|
            0 <= q < made_outpoints(txs, txs.len()).len() ==> !utxos.contains_key(
                #[trigger] made_outpoints(txs, txs.len())[q],
            ),
        forall|k: OutPoint| #[trigger]
            utxos.contains_key(k) ==> s.utxos.contains_key(k) && s.utxos[k] == utxos[k],
    ensures
        ({
            let step = all_coins_moved(s, txs, n);
            let points = spent_outpoints(txs, txs.len());
            &&& step.fault is None
            &&& forall|q: int|
                spent_outpoints(txs, n).len() <= q < points.len() ==> step.state.utxos.contains_key(
                    #[trigger] points[q],
                ) && step.state.utxos[points[q]] == utxos[points[q]]
        }),
    decreases n,
{
    let points = spent_outpoints(txs, txs.len());
    if n > 0 {
        later_inputs_stay(utxos, s, txs, (n - 1) as nat);
        let before = all_coins_moved(s, txs, (n - 1) as nat).state;
        let after = all_coins_moved(s, txs, n).state;
        let tx = txs[n - 1];
        let start = spent_outpoints(txs, (n - 1) as nat).len();
        spent_in_a_row(txs, (n - 1) as nat, txs.len());
        inputs_stay_apart(txs, (n - 1) as nat);
        assert forall|j: int| 0 <= j < tx.inputs.len() implies before.utxos.contains_key(
            (#[trigger] tx.inputs[j]).0,
        ) by {
            assert(points[start + j] == tx.inputs[j].0);
        }
        spending_gives(before.utxos, before.stxos, tx.txid, tx.inputs, tx.inputs.len());
        let spending = inputs_spent(
            before.utxos,
            before.stxos,
            tx.txid,
            tx.inputs,
            tx.inputs.len(),
        );
        let origin = Origin::Transaction(tx.txid);
        made_in_a_row(txs, (n - 1) as nat, txs.len());
        assert forall|q: int|
            spent_outpoints(txs, n).len() <= q < points.len() implies after.utxos.contains_key(
            #[trigger] points[q],
        ) && after.utxos[points[q]] == utxos[points[q]] by {
            let k = points[q];
            assert forall|j: int| 0 <= j < tx.inputs.len() implies (#[trigger] tx.inputs[j]).0
                != k by {
                assert(points[start + j] == tx.inputs[j].0);
            }
            assert(spending.utxos.contains_key(k) && spending.utxos[k] == before.utxos[k]);
            assert forall|m: int| 0 <= m < tx.outputs.len() implies #[trigger] made_by(
                origin,
                tx.outputs,
            )[m] != k by {
                let all = made_outpoints(txs, txs.len());
                let at = made_outpoints(txs, (n - 1) as nat).len() + m;
                assert(all[at] == made_by(origin, tx.outputs)[m]);
                assert(!utxos.contains_key(all[at]));
                assert(utxos.contains_key(points[q]));
            }
            made_leave_others(spending.utxos, origin, tx.outputs, tx.outputs.len(), k);
        }
    }
}

/// Where no output is spent twice, no transaction spends one twice.
proof fn inputs_stay_apart(txs: Seq<TransactionView>, i: nat)
    requires
        i < txs.len(),
        spent_outpoints(txs, txs.len()).no_duplicates(),
    ensures
        forall|a: int, b: int|
            #![trigger txs[i as int].inputs[a], txs[i as int].inputs[b]]
            0 <= a < b < txs[i as int].inputs.len() ==> txs[i as int].inputs[a].0
                != txs[i as int].inputs[b].0,
{
    let points = spent_outpoints(txs, txs.len());
    let inputs = txs[i as int].inputs;
    let start = spent_outpoints(txs, i).len();
    spent_in_a_row(txs, i, txs.len());
    assert forall|a: int, b: int|
        #![trigger inputs[a], inputs[b]]
        0 <= a < b < inputs.len() implies inputs[a].0 != inputs[b].0 by {
        assert(points[start + a] == inputs[a].0);
        assert(points[start + b] == inputs[b].0);
    }
}

/// The transactions of an accepted block spend the same outputs when it is
/// checked and when it is connected, so that both find one merkle root. This holds
/// where the outpoints that the block makes are new.
pub proof fn accepted_blocks_are_filled_alike(
    s: StateView,
    header: HeaderView,
    body: BodyView,
    facts: BodyFactsView,
)
    requires
        are_new(s, block_outpoints(header, body)),
        prevalidated(s, header, body, facts) is Ok,
    ensures
        filled_in_turn(
            coinbase_made(s, header.merkle_root, body.coinbase),
            body.transactions,
        ) == prevalidated(s, header, body, facts)->Ok_0.filled_transactions,
{
    let txs = body.transactions;
    let list = prevalidated(s, header, body, facts)->Ok_0.filled_transactions;
    let made = coinbase_made(s, header.merkle_root, body.coinbase);
    let origin = Origin::Coinbase(header.merkle_root);
    let points = spent_outpoints(txs, txs.len());
    let news = block_outpoints(header, body);
    accepted_are_filled(s, txs, facts.transactions);
    filled_each(s.utxos, txs, txs.len());
    filled_are(s.utxos, txs, txs.len());
    spent_are_there(s.utxos, txs, txs.len());
    assert forall|q: int|
        0 <= q < made_outpoints(txs, txs.len()).len() implies !s.utxos.contains_key(
        #[trigger] made_outpoints(txs, txs.len())[q],
    ) by {
        assert(news[body.coinbase.len() + q] == made_outpoints(txs, txs.len())[q]);
    }
    assert forall|k: OutPoint| #[trigger] s.utxos.contains_key(k) implies made.utxos.contains_key(k)
        && made.utxos[k] == s.utxos[k] by {
        assert forall|i: int| 0 <= i < body.coinbase.len() implies #[trigger] made_by(
            origin,
            body.coinbase,
        )[i] != k by {
            assert(news[i] == made_by(origin, body.coinbase)[i]);
        }
        made_leave_others(s.utxos, origin, body.coinbase, body.coinbase.len(), k);
    }
    let turned = filled_in_turn(made, txs);
    assert forall|i: int| 0 <= i < txs.len() implies #[trigger] turned[i] == list[i] by {
        let tx = txs[i];
        let before = all_coins_moved(made, txs, i as nat).state;
        let start = spent_outpoints(txs, i as nat).len();
        later_inputs_stay(s.utxos, made, txs, i as nat);
        spent_in_a_row(txs, i as nat, txs.len());
        inputs_stay_apart(txs, i as nat);
        assert forall|j: int| 0 <= j < tx.inputs.len() implies before.utxos.contains_key(
            (#[trigger] tx.inputs[j]).0,
        ) && before.utxos[tx.inputs[j].0] == s.utxos[tx.inputs[j].0] by {
            assert(points[start + j] == tx.inputs[j].0);
        }
        spending_gives(before.utxos, before.stxos, tx.txid, tx.inputs, tx.inputs.len());
        let named = named_outputs(before.utxos, tx.inputs);
        assert(named.take(tx.inputs.len() as int) =~= named);
        assert(named =~= named_outputs(s.utxos, tx.inputs));
    }
    assert(turned =~= list);
}

} // verus!
