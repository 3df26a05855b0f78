//! What disconnecting a block brings back, wherever it succeeds.
use vstd::prelude::*;

use crate::accumulator::DiffView;
use crate::block_laws::{
    accepted_are_filled, block_outpoints, coins_move_alike, filled_each, leaves_swaps, made_by,
    made_outpoints, outputs_disjoint, tip_has_height,
};
use crate::block_model::{
    all_coins_moved, all_filled_connected, body_undone, coinbase_made, coins_moved,
    coins_moved_keeps, connected, inputs_spent, inputs_unspent, inputs_unspent_keeps, locks_with,
    names, outputs_deleted, outputs_deleted_keeps, outputs_unlocked, prevalidated,
    prevalidated_connected, set_aside, swap_disconnected, tip_disconnected, transaction_undone,
    transaction_undone_keeps, transactions_undone, utxos_with, BodyFactsView, PrevalidatedBlockView,
    Step, Undoing,
};
use crate::error::Rejection;
use crate::ids::{Hash256, MerkleRoot, SwapId, Txid};
use crate::state::StateView;
use crate::types::{
    BodyView, HeaderView, Origin, OutPoint, OutputView, SpentOutputView, TransactionView,
    TxDataView,
};

verus! {

/// Two states hold the same under an outpoint, spent or not.
pub open spec fn agree_at(a: StateView, b: StateView, k: OutPoint) -> bool {
    &&& a.utxos.contains_key(k) <==> b.utxos.contains_key(k)
    &&& a.utxos.contains_key(k) ==> a.utxos[k] == b.utxos[k]
    &&& a.stxos.contains_key(k) <==> b.stxos.contains_key(k)
    &&& a.stxos.contains_key(k) ==> a.stxos[k] == b.stxos[k]
}

/// A state knows nothing of an outpoint.
spec fn is_unused(s: StateView, k: OutPoint) -> bool {
    !s.utxos.contains_key(k) && !s.stxos.contains_key(k)
}

/// The first `n` inputs name one outpoint more than those before.
proof fn names_one_more(inputs: Seq<(OutPoint, Hash256)>, n: nat, k: OutPoint)
    requires
        0 < n <= inputs.len(),
    ensures
        names(inputs.take(n as int), k) <==> names(inputs.take(n - 1), k) || inputs[n - 1].0 == k,
{
    let some = inputs.take(n - 1);
    let more = inputs.take(n as int);
    if names(some, k) {
        let j = choose|j: int| 0 <= j < some.len() && (#[trigger] some[j]).0 == k;
        assert(more[j].0 == k);
    }
    if names(more, k) && inputs[n - 1].0 != k {
        let j = choose|j: int| 0 <= j < more.len() && (#[trigger] more[j]).0 == k;
        assert(some[j].0 == k);
    }
    if inputs[n - 1].0 == k {
        assert(more[n - 1].0 == k);
    }
}

/// What spending does to one outpoint.
pub(crate) proof fn spent_at(
    utxos: Map<OutPoint, OutputView>,
    stxos: Map<OutPoint, SpentOutputView>,
    txid: Txid,
    inputs: Seq<(OutPoint, Hash256)>,
    n: nat,
    k: OutPoint,
)
    requires
        n <= inputs.len(),
        inputs_spent(utxos, stxos, txid, inputs, n).missing is None,
    ensures
        ({
            let done = inputs_spent(utxos, stxos, txid, inputs, n);
            if names(inputs.take(n as int), k) {
                &&& utxos.contains_key(k)
                &&& !done.utxos.contains_key(k)
                &&& done.stxos.contains_key(k)
                &&& done.stxos[k].output == utxos[k]
            } else {
                &&& done.utxos.contains_key(k) <==> utxos.contains_key(k)
                &&& done.utxos.contains_key(k) ==> done.utxos[k] == utxos[k]
                &&& done.stxos.contains_key(k) <==> stxos.contains_key(k)
                &&& done.stxos.contains_key(k) ==> done.stxos[k] == stxos[k]
            }
        }),
    decreases n,
{
    if n > 0 {
        spent_at(utxos, stxos, txid, inputs, (n - 1) as nat, k);
        names_one_more(inputs, n, k);
    }
}

/// What making outputs does to one outpoint.
pub(crate) proof fn made_at(
    utxos: Map<OutPoint, OutputView>,
    origin: Origin,
    outputs: Seq<OutputView>,
    n: nat,
    k: OutPoint,
)
    requires
        n <= outputs.len(),
    ensures
        ({
            let done = utxos_with(utxos, origin, outputs, n);
            if made_by(origin, outputs).take(n as int).contains(k) {
                done.contains_key(k)
            } else {
                &&& done.contains_key(k) <==> utxos.contains_key(k)
                &&& done.contains_key(k) ==> done[k] == utxos[k]
            }
        }),
    decreases n,
{
    if n > 0 {
        made_at(utxos, origin, outputs, (n - 1) as nat, k);
        makes_one_more(origin, outputs, n, k);
    }
}

/// The first `n` outputs make one outpoint more than those before.
proof fn makes_one_more(origin: Origin, outputs: Seq<OutputView>, n: nat, k: OutPoint)
    requires
        0 < n <= outputs.len(),
    ensures
        made_by(origin, outputs).take(n as int).contains(k) <==> made_by(origin, outputs).take(
            n - 1,
        ).contains(k) || origin.outpoint(n - 1) == k,
{
    let some = made_by(origin, outputs).take(n - 1);
    let more = made_by(origin, outputs).take(n as int);
    if some.contains(k) {
        let j = choose|j: int| 0 <= j < some.len() && some[j] == k;
        assert(more[j] == k);
    }
    if more.contains(k) && origin.outpoint(n - 1) != k {
        let j = choose|j: int| 0 <= j < more.len() && more[j] == k;
        assert(some[j] == k);
    }
    assert(more[n - 1] == origin.outpoint(n - 1));
}

/// What deleting outputs does to one outpoint, where it succeeds.
pub(crate) proof fn deleted_at(u: Undoing, origin: Origin, outputs: Seq<OutputView>, n: nat, k: OutPoint)
    requires
        n <= outputs.len(),
        outputs_deleted(u, origin, outputs, n).fault is None,
    ensures
        ({
            let done = outputs_deleted(u, origin, outputs, n).state;
            &&& u.fault is None
            &&& done.stxos == u.state.stxos
            &&& if made_by(origin, outputs).take(n as int).contains(k) {
                !done.utxos.contains_key(k)
            } else {
                &&& done.utxos.contains_key(k) <==> u.state.utxos.contains_key(k)
                &&& done.utxos.contains_key(k) ==> done.utxos[k] == u.state.utxos[k]
            }
        }),
    decreases n,
{
    if n > 0 && u.fault is None {
        let outpoint = origin.outpoint(n - 1);
        let next = Undoing {
            state: StateView { utxos: u.state.utxos.remove(outpoint), ..u.state },
            diff: u.diff.remove(outputs[n - 1].leaf),
            fault: None,
        };
        makes_one_more(origin, outputs, n, k);
        reveal_with_fuel(outputs_deleted, 2);
        deleted_at(next, origin, outputs, (n - 1) as nat, k);
        if outpoint == k {
            deleted_stay_deleted(next, origin, outputs, (n - 1) as nat, k);
        }
    }
}

/// Deleting outputs brings none back.
proof fn deleted_stay_deleted(
    u: Undoing,
    origin: Origin,
    outputs: Seq<OutputView>,
    n: nat,
    k: OutPoint,
)
    requires
        !u.state.utxos.contains_key(k),
    ensures
        !outputs_deleted(u, origin, outputs, n).state.utxos.contains_key(k),
    decreases n,
{
    reveal_with_fuel(outputs_deleted, 2);
    if n > 0 && u.fault is None && u.state.utxos.contains_key(origin.outpoint(n - 1)) {
        let outpoint = origin.outpoint(n - 1);
        let next = Undoing {
            state: StateView { utxos: u.state.utxos.remove(outpoint), ..u.state },
            diff: u.diff.remove(outputs[n - 1].leaf),
            fault: None,
        };
        deleted_stay_deleted(next, origin, outputs, (n - 1) as nat, k);
    }
}

/// What giving back does to one outpoint, where it succeeds.
pub(crate) proof fn unspent_at(u: Undoing, inputs: Seq<(OutPoint, Hash256)>, n: nat, k: OutPoint)
    requires
        n <= inputs.len(),
        inputs_unspent(u, inputs, n).fault is None,
    ensures
        ({
            let done = inputs_unspent(u, inputs, n).state;
            &&& u.fault is None
            &&& if names(inputs.take(n as int), k) {
                &&& u.state.stxos.contains_key(k)
                &&& !done.stxos.contains_key(k)
                &&& done.utxos.contains_key(k)
                &&& done.utxos[k] == u.state.stxos[k].output
            } else {
                agree_at(done, u.state, k)
            }
        }),
    decreases n,
{
    if n > 0 && u.fault is None {
        let (outpoint, leaf) = inputs[n - 1];
        names_one_more(inputs, n, k);
        if u.state.stxos.contains_key(outpoint) {
            let next = Undoing {
                state: StateView {
                    stxos: u.state.stxos.remove(outpoint),
                    utxos: u.state.utxos.insert(outpoint, u.state.stxos[outpoint].output),
                    ..u.state
                },
                diff: u.diff.insert(leaf),
                fault: None,
            };
            unspent_at(next, inputs, (n - 1) as nat, k);
        }
    }
}

/// A transaction makes an output under this outpoint.
pub open spec fn makes(tx: TransactionView, k: OutPoint) -> bool {
    made_by(Origin::Transaction(tx.txid), tx.outputs).contains(k)
}

/// What moving the coins of a transaction does to one outpoint.
pub(crate) proof fn moved_at(s: StateView, tx: TransactionView, k: OutPoint)
    requires
        coins_moved(s, tx).fault is None,
    ensures
        ({
            let after = coins_moved(s, tx).state;
            &&& names(tx.inputs, k) ==> s.utxos.contains_key(k)
            &&& after.stxos.contains_key(k) <==> s.stxos.contains_key(k) || names(tx.inputs, k)
            &&& names(tx.inputs, k) ==> after.stxos[k].output == s.utxos[k]
            &&& !makes(tx, k) && names(tx.inputs, k) ==> !after.utxos.contains_key(k)
            &&& !makes(tx, k) && !names(tx.inputs, k) ==> agree_at(after, s, k)
        }),
{
    let spending = inputs_spent(s.utxos, s.stxos, tx.txid, tx.inputs, tx.inputs.len());
    let origin = Origin::Transaction(tx.txid);
    spent_at(s.utxos, s.stxos, tx.txid, tx.inputs, tx.inputs.len(), k);
    made_at(spending.utxos, origin, tx.outputs, tx.outputs.len(), k);
    assert(tx.inputs.take(tx.inputs.len() as int) =~= tx.inputs);
    let made = made_by(origin, tx.outputs);
    assert(made.take(tx.outputs.len() as int) =~= made);
}

/// What taking a transaction back does to one outpoint, where it succeeds.
pub(crate) proof fn undone_at(u: Undoing, tx: TransactionView, k: OutPoint)
    requires
        u.fault is None,
        transaction_undone(u, tx).fault is None,
    ensures
        ({
            let after = transaction_undone(u, tx).state;
            &&& after.stxos.contains_key(k) ==> u.state.stxos.contains_key(k) && !names(
                tx.inputs,
                k,
            )
            &&& names(tx.inputs, k) ==> u.state.stxos.contains_key(k) && after.utxos.contains_key(k)
                && after.utxos[k] == u.state.stxos[k].output
            &&& !names(tx.inputs, k) && makes(tx, k) ==> !after.utxos.contains_key(k)
            &&& !names(tx.inputs, k) && !makes(tx, k) ==> agree_at(after, u.state, k)
        }),
{
    let swap = swap_disconnected(u.state, tx);
    let first = Undoing { state: swap.state, diff: u.diff, fault: swap.fault };
    let origin = Origin::Transaction(tx.txid);
    let second = outputs_deleted(first, origin, tx.outputs, tx.outputs.len());
    unspent_at(second, tx.inputs, tx.inputs.len(), k);
    deleted_at(first, origin, tx.outputs, tx.outputs.len(), k);
    assert(tx.inputs.take(tx.inputs.len() as int) =~= tx.inputs);
    let made = made_by(origin, tx.outputs);
    assert(made.take(tx.outputs.len() as int) =~= made);
}

/// One more transaction makes its outpoints.
pub(crate) proof fn made_one_more(txs: Seq<TransactionView>, n: nat, k: OutPoint)
    requires
        0 < n <= txs.len(),
    ensures
        made_outpoints(txs, n).contains(k) <==> made_outpoints(txs, (n - 1) as nat).contains(k)
            || makes(txs[n - 1], k),
{
    let before = made_outpoints(txs, (n - 1) as nat);
    let made = made_by(Origin::Transaction(txs[n - 1].txid), txs[n - 1].outputs);
    let all = made_outpoints(txs, n);
    if before.contains(k) {
        let j = choose|j: int| 0 <= j < before.len() && before[j] == k;
        assert(all[j] == k);
    }
    if made.contains(k) {
        let j = choose|j: int| 0 <= j < made.len() && made[j] == k;
        assert(all[before.len() + j] == k);
    }
    if all.contains(k) {
        let j = choose|j: int| 0 <= j < all.len() && all[j] == k;
        if j < before.len() {
            assert(before[j] == k);
        } else {
            assert(made[j - before.len()] == k);
        }
    }
}

/// An outpoint that transactions do not make is not spent and unspent at once
/// after them if it was not before, and is not known if it was not.
proof fn others_stay(s: StateView, txs: Seq<TransactionView>, n: nat, k: OutPoint)
    requires
        n <= txs.len(),
        all_coins_moved(s, txs, n).fault is None,
        !made_outpoints(txs, n).contains(k),
        !(s.utxos.contains_key(k) && s.stxos.contains_key(k)),
    ensures
        ({
            let after = all_coins_moved(s, txs, n).state;
            &&& !(after.utxos.contains_key(k) && after.stxos.contains_key(k))
            &&& is_unused(s, k) ==> is_unused(after, k)
        }),
    decreases n,
{
    if n > 0 {
        made_one_more(txs, n, k);
        others_stay(s, txs, (n - 1) as nat, k);
        moved_at(all_coins_moved(s, txs, (n - 1) as nat).state, txs[n - 1], k);
    }
}

/// Taking transactions back, where it succeeds, brings back what there was under
/// one outpoint before they moved their coins.
proof fn taken_back_at(s: StateView, u: Undoing, txs: Seq<TransactionView>, n: nat, k: OutPoint)
    requires
        n <= txs.len(),
        all_coins_moved(s, txs, n).fault is None,
        u.fault is None,
        transactions_undone(u, txs, n).fault is None,
        !(s.utxos.contains_key(k) && s.stxos.contains_key(k)),
        made_outpoints(txs, n).contains(k) ==> is_unused(s, k),
        u.state.stxos.contains_key(k) ==> all_coins_moved(s, txs, n).state.stxos.contains_key(k),
        made_outpoints(txs, n).contains(k) || agree_at(
            u.state,
            all_coins_moved(s, txs, n).state,
            k,
        ),
    ensures
        agree_at(transactions_undone(u, txs, n).state, s, k),
    decreases n,
{
    reveal_with_fuel(transactions_undone, 2);
    if n > 0 {
        let before = all_coins_moved(s, txs, (n - 1) as nat).state;
        let tx = txs[n - 1];
        let next = transaction_undone(u, tx);
        made_one_more(txs, n, k);
        moved_at(before, tx, k);
        undone_at(u, tx, k);
        if !made_outpoints(txs, (n - 1) as nat).contains(k) {
            others_stay(s, txs, (n - 1) as nat, k);
            assert(agree_at(next.state, before, k));
        }
        taken_back_at(s, next, txs, (n - 1) as nat, k);
    } else {
        assert(!made_outpoints(txs, 0).contains(k));
    }
}

/// None of these outpoints is known to a state.
pub open spec fn are_unused(s: StateView, points: Seq<OutPoint>) -> bool {
    forall|q: int|
        0 <= q < points.len() ==> !s.utxos.contains_key(#[trigger] points[q])
            && !s.stxos.contains_key(points[q])
}

/// Taking a body back, where it succeeds, brings back what there was under one
/// outpoint before its block was connected.
proof fn body_taken_back_at(
    s: StateView,
    after: StateView,
    header: HeaderView,
    body: BodyView,
    k: OutPoint,
)
    requires
        outputs_disjoint(s),
        are_unused(s, block_outpoints(header, body)),
        ({
            let made = coinbase_made(s, header.merkle_root, body.coinbase);
            let step = all_coins_moved(made, body.transactions, body.transactions.len());
            &&& step.fault is None
            &&& after.utxos == step.state.utxos
            &&& after.stxos == step.state.stxos
        }),
        body_undone(after, header, body).fault is None,
    ensures
        agree_at(body_undone(after, header, body).state, s, k),
{
    let txs = body.transactions;
    let origin = Origin::Coinbase(header.merkle_root);
    let coinbase = made_by(origin, body.coinbase);
    let points = made_outpoints(txs, txs.len());
    let all = block_outpoints(header, body);
    let made = coinbase_made(s, header.merkle_root, body.coinbase);
    let u = Undoing { state: after, diff: DiffView::none(), fault: None };
    let undone = transactions_undone(u, txs, txs.len());
    made_at(s.utxos, origin, body.coinbase, body.coinbase.len(), k);
    deleted_at(undone, origin, body.coinbase, body.coinbase.len(), k);
    assert(coinbase.take(body.coinbase.len() as int) =~= coinbase);
    if coinbase.contains(k) {
        let i = choose|i: int| 0 <= i < coinbase.len() && coinbase[i] == k;
        assert(all[i] == k);
        assert(is_unused(s, all[i]));
    }
    if points.contains(k) {
        let i = choose|i: int| 0 <= i < points.len() && points[i] == k;
        assert(all[coinbase.len() + i] == k);
        assert(is_unused(s, all[coinbase.len() + i]));
        made_by_transactions(txs, txs.len(), k);
    }
    taken_back_at(made, u, txs, txs.len(), k);
}

/// What transactions make is no coinbase.
proof fn made_by_transactions(txs: Seq<TransactionView>, n: nat, k: OutPoint)
    requires
        n <= txs.len(),
        made_outpoints(txs, n).contains(k),
    ensures
        k is Regular,
    decreases n,
{
    if n > 0 {
        made_one_more(txs, n, k);
        if makes(txs[n - 1], k) {
            let made = made_by(Origin::Transaction(txs[n - 1].txid), txs[n - 1].outputs);
            let j = choose|j: int| 0 <= j < made.len() && made[j] == k;
            assert(made[j] == k);
        } else {
            made_by_transactions(txs, (n - 1) as nat, k);
        }
    }
}

/// Taking transactions back leaves the tip and its height alone.
pub(crate) proof fn undone_keeps_tip(u: Undoing, txs: Seq<TransactionView>, n: nat)
    ensures
        transactions_undone(u, txs, n).state.tip == u.state.tip,
        transactions_undone(u, txs, n).state.height == u.state.height,
    decreases n,
{
    if n > 0 && u.fault is None {
        transaction_undone_keeps(u, txs[n - 1]);
        undone_keeps_tip(transaction_undone(u, txs[n - 1]), txs, (n - 1) as nat);
    }
}

/// Disconnecting a block, where it succeeds, brings back the tip, its height and
/// the outputs from before.
proof fn outputs_come_back(s: StateView, after: StateView, header: HeaderView, body: BodyView)
    requires
        tip_has_height(s),
        s.height != Some(u32::MAX),
        header.prev_side_hash == s.tip,
        outputs_disjoint(s),
        are_unused(s, block_outpoints(header, body)),
        ({
            let made = coinbase_made(s, header.merkle_root, body.coinbase);
            let step = all_coins_moved(made, body.transactions, body.transactions.len());
            &&& step.fault is None
            &&& after.utxos == step.state.utxos
            &&& after.stxos == step.state.stxos
        }),
        after.tip == Some(header.hash),
        after.height == Some(s.next_height() as u32),
        tip_disconnected(after, header, body).fault is None,
    ensures
        ({
            let back = tip_disconnected(after, header, body).state;
            &&& back.utxos == s.utxos
            &&& back.stxos == s.stxos
            &&& back.tip == s.tip
            &&& back.height == s.height
        }),
{
    let txs = body.transactions;
    let u = Undoing { state: after, diff: DiffView::none(), fault: None };
    let undone = transactions_undone(u, txs, txs.len());
    let done = body_undone(after, header, body);
    assert(done.fault is None);
    undone_keeps_tip(u, txs, txs.len());
    outputs_deleted_keeps(
        undone,
        Origin::Coinbase(header.merkle_root),
        body.coinbase,
        body.coinbase.len(),
    );
    let back = tip_disconnected(after, header, body).state;
    assert forall|k: OutPoint| agree_at(back, s, k) by {
        body_taken_back_at(s, after, header, body, k);
    }
    assert forall|k: OutPoint| back.utxos.contains_key(k) <==> s.utxos.contains_key(k) by {
        assert(agree_at(back, s, k));
    }
    assert forall|k: OutPoint| back.utxos.contains_key(k) implies back.utxos[k] == s.utxos[k] by {
        assert(agree_at(back, s, k));
    }
    assert forall|k: OutPoint| back.stxos.contains_key(k) <==> s.stxos.contains_key(k) by {
        assert(agree_at(back, s, k));
    }
    assert forall|k: OutPoint| back.stxos.contains_key(k) implies back.stxos[k] == s.stxos[k] by {
        assert(agree_at(back, s, k));
    }
    assert(back.utxos =~= s.utxos);
    assert(back.stxos =~= s.stxos);
}

/// Taking transactions back leaves swaps alone where there is nothing to undo of
/// them.
proof fn swaps_stay(s: StateView, u: Undoing, txs: Seq<TransactionView>, n: nat)
    requires
        n <= txs.len(),
        forall|i: int| 0 <= i < txs.len() ==> leaves_swaps(s, #[trigger] txs[i]),
        u.state.swaps == s.swaps,
        u.state.locked_swap_outputs == s.locked_swap_outputs,
    ensures
        ({
            let done = transactions_undone(u, txs, n).state;
            done == (StateView { utxos: done.utxos, stxos: done.stxos, ..u.state })
        }),
    decreases n,
{
    if n > 0 && u.fault is None {
        let tx = txs[n - 1];
        let origin = Origin::Transaction(tx.txid);
        assert(leaves_swaps(s, tx));
        assert(swap_disconnected(u.state, tx).state.swaps == swap_disconnected(s, tx).state.swaps);
        assert(swap_disconnected(u.state, tx) == (Step { state: u.state, fault: None }));
        outputs_deleted_keeps(u, origin, tx.outputs, tx.outputs.len());
        inputs_unspent_keeps(
            outputs_deleted(u, origin, tx.outputs, tx.outputs.len()),
            tx.inputs,
            tx.inputs.len(),
        );
        swaps_stay(s, transaction_undone(u, tx), txs, (n - 1) as nat);
    }
}

/// Disconnecting a block that was just connected with `connect`, where it
/// succeeds, brings back the tip, its height and the outputs from before, and
/// where there is nothing to undo of swaps, the whole state but the accumulator.
/// This holds where the outpoints that the block makes were not known before,
/// even if it makes one of them twice.
pub proof fn disconnecting_brings_back_what_was_connected(
    s: StateView,
    header: HeaderView,
    body: BodyView,
    merkle_root: Result<MerkleRoot, Rejection>,
)
    requires
        tip_has_height(s),
        outputs_disjoint(s),
        are_unused(s, block_outpoints(header, body)),
        connected(s, header, body, merkle_root).fault is None,
        tip_disconnected(
            connected(s, header, body, merkle_root).state,
            header,
            body,
        ).fault is None,
    ensures
        ({
            let after = connected(s, header, body, merkle_root).state;
            let back = tip_disconnected(after, header, body).state;
            &&& back.utxos == s.utxos
            &&& back.stxos == s.stxos
            &&& back.tip == s.tip
            &&& back.height == s.height
            &&& (forall|i: int|
                0 <= i < body.transactions.len() ==> leaves_swaps(
                    s,
                    #[trigger] body.transactions[i],
                )) ==> back == (StateView { accumulator: back.accumulator, ..s })
        }),
{
    let txs = body.transactions;
    let after = connected(s, header, body, merkle_root).state;
    let made = coinbase_made(s, header.merkle_root, body.coinbase);
    coins_moved_keeps(made, txs, txs.len());
    outputs_come_back(s, after, header, body);
    if forall|i: int| 0 <= i < txs.len() ==> leaves_swaps(s, #[trigger] txs[i]) {
        let u = Undoing { state: after, diff: DiffView::none(), fault: None };
        swaps_stay(s, u, txs, txs.len());
        outputs_deleted_keeps(
            transactions_undone(u, txs, txs.len()),
            Origin::Coinbase(header.merkle_root),
            body.coinbase,
            body.coinbase.len(),
        );
    }
}

/// What connecting a checked block needs is what checking the block gave: its
/// transactions, and the height after the tip.
pub open spec fn is_prepared(s: StateView, body: BodyView, pre: PrevalidatedBlockView) -> bool {
    &&& pre.next_height == s.next_height()
    &&& pre.filled_transactions.len() == body.transactions.len()
    &&& forall|i: int|
        0 <= i < body.transactions.len() ==> (
        #[trigger] pre.filled_transactions[i]).transaction == body.transactions[i]
}

/// A block that was accepted is prepared for connecting it.
pub proof fn accepted_blocks_are_prepared(
    s: StateView,
    header: HeaderView,
    body: BodyView,
    facts: BodyFactsView,
)
    requires
        prevalidated(s, header, body, facts) is Ok,
    ensures
        is_prepared(s, body, prevalidated(s, header, body, facts)->Ok_0),
{
    let txs = body.transactions;
    accepted_are_filled(s, txs, facts.transactions);
    filled_each(s.utxos, txs, txs.len());
}

/// Disconnecting a block that was just connected with `connect_prevalidated`,
/// where it succeeds, brings back the tip, its height and the outputs from
/// before, whatever its transactions do to swaps. This holds where the outpoints
/// that the block makes were not known before, even if it makes one of them
/// twice.
pub proof fn disconnecting_brings_back_outputs(
    s: StateView,
    header: HeaderView,
    body: BodyView,
    pre: PrevalidatedBlockView,
)
    requires
        tip_has_height(s),
        outputs_disjoint(s),
        are_unused(s, block_outpoints(header, body)),
        is_prepared(s, body, pre),
        prevalidated_connected(s, header, body, pre).fault is None,
        tip_disconnected(
            prevalidated_connected(s, header, body, pre).state,
            header,
            body,
        ).fault is None,
    ensures
        ({
            let after = prevalidated_connected(s, header, body, pre).state;
            let back = tip_disconnected(after, header, body).state;
            &&& back.utxos == s.utxos
            &&& back.stxos == s.stxos
            &&& back.tip == s.tip
            &&& back.height == s.height
        }),
{
    let txs = body.transactions;
    let after = prevalidated_connected(s, header, body, pre).state;
    let made = coinbase_made(s, header.merkle_root, body.coinbase);
    coins_move_alike(made, txs, pre.filled_transactions, pre.next_height, txs.len());
    outputs_come_back(s, after, header, body);
}

/// What locking outputs that are set aside does to one outpoint.
proof fn locked_at(
    locks: Map<OutPoint, SwapId>,
    origin: Origin,
    outputs: Seq<OutputView>,
    swap_id: SwapId,
    n: nat,
    k: OutPoint,
)
    requires
        n <= outputs.len(),
    ensures
        ({
            let after = locks_with(locks, origin, outputs, swap_id, n);
            if set_aside(origin, outputs.take(n as int), k) {
                after.contains_key(k) && after[k] == swap_id
            } else {
                &&& after.contains_key(k) <==> locks.contains_key(k)
                &&& after.contains_key(k) ==> after[k] == locks[k]
            }
        }),
    decreases n,
{
    if n > 0 {
        locked_at(locks, origin, outputs, swap_id, (n - 1) as nat, k);
        let some = outputs.take(n - 1);
        let more = outputs.take(n as int);
        if set_aside(origin, some, k) {
            let i = choose|i: int|
                0 <= i < some.len() && (#[trigger] some[i]).content is SwapPending
                    && origin.outpoint(i) == k;
            assert(more[i].content is SwapPending);
        }
        if set_aside(origin, more, k) {
            let i = choose|i: int|
                0 <= i < more.len() && (#[trigger] more[i]).content is SwapPending
                    && origin.outpoint(i) == k;
            if i < n - 1 {
                assert(some[i].content is SwapPending);
            }
        }
        assert(more[n - 1] == outputs[n - 1]);
    }
}

/// Disconnecting a block that was just connected with `connect_prevalidated` and
/// whose one transaction made a swap that was not known before, where it
/// succeeds, forgets the swap: the swaps are those from before, no output that
/// the transaction set aside is locked, and all other locks are as they were.
/// The outputs of the transaction are gone, unless it spent them too; and what
/// it spent is there again, unless that was the coinbase of the same block.
pub proof fn disconnecting_forgets_a_new_swap(
    s: StateView,
    header: HeaderView,
    body: BodyView,
    pre: PrevalidatedBlockView,
)
    requires
        is_prepared(s, body, pre),
        body.transactions.len() == 1,
        body.transactions[0].data matches TxDataView::SwapCreate { swap_id, .. }
            && !s.swaps.contains_key(swap_id),
        prevalidated_connected(s, header, body, pre).fault is None,
        tip_disconnected(
            prevalidated_connected(s, header, body, pre).state,
            header,
            body,
        ).fault is None,
    ensures
        ({
            let tx = body.transactions[0];
            let origin = Origin::Transaction(tx.txid);
            let coinbase = made_by(Origin::Coinbase(header.merkle_root), body.coinbase);
            let after = prevalidated_connected(s, header, body, pre).state;
            let back = tip_disconnected(after, header, body).state;
            &&& back.swaps == s.swaps
            &&& forall|k: OutPoint|
                set_aside(origin, tx.outputs, k) ==> !(
                #[trigger] back.locked_swap_outputs.contains_key(k))
            &&& forall|k: OutPoint|
                !set_aside(origin, tx.outputs, k) ==> ((
                #[trigger] back.locked_swap_outputs.contains_key(k))
                    <==> s.locked_swap_outputs.contains_key(k)) && (
                s.locked_swap_outputs.contains_key(k) ==> back.locked_swap_outputs[k]
                    == s.locked_swap_outputs[k])
            &&& forall|k: OutPoint| #[trigger]
                made_by(origin, tx.outputs).contains(k) && !names(tx.inputs, k)
                    ==> !back.utxos.contains_key(k)
            &&& forall|k: OutPoint| #[trigger]
                names(tx.inputs, k) && !coinbase.contains(k) ==> s.utxos.contains_key(k)
                    && back.utxos.contains_key(k) && back.utxos[k] == s.utxos[k]
                    && !back.stxos.contains_key(k)
        }),
{
    let tx = body.transactions[0];
    let filled = pre.filled_transactions[0];
    let origin = Origin::Transaction(tx.txid);
    let swap_id = tx.data->SwapCreate_swap_id;
    let made = coinbase_made(s, header.merkle_root, body.coinbase);
    let after = prevalidated_connected(s, header, body, pre).state;
    let back = tip_disconnected(after, header, body).state;
    assert(filled.transaction == tx);
    reveal_with_fuel(all_filled_connected, 2);
    let locks = locks_with(
        s.locked_swap_outputs,
        origin,
        tx.outputs,
        swap_id,
        tx.outputs.len(),
    );
    assert(after.locked_swap_outputs == locks);
    let u = Undoing { state: after, diff: DiffView::none(), fault: None };
    let swap = swap_disconnected(after, tx);
    let first = Undoing { state: swap.state, diff: u.diff, fault: swap.fault };
    let second = outputs_deleted(first, origin, tx.outputs, tx.outputs.len());
    let third = inputs_unspent(second, tx.inputs, tx.inputs.len());
    reveal_with_fuel(transactions_undone, 2);
    assert(transactions_undone(u, body.transactions, 1) == third);
    outputs_deleted_keeps(first, origin, tx.outputs, tx.outputs.len());
    inputs_unspent_keeps(second, tx.inputs, tx.inputs.len());
    outputs_deleted_keeps(
        third,
        Origin::Coinbase(header.merkle_root),
        body.coinbase,
        body.coinbase.len(),
    );
    let coinbase_origin = Origin::Coinbase(header.merkle_root);
    let coinbase = made_by(coinbase_origin, body.coinbase);
    let done = outputs_deleted(third, coinbase_origin, body.coinbase, body.coinbase.len());
    assert(done == body_undone(after, header, body));
    assert(done.fault is None);
    assert(back.utxos == done.state.utxos && back.stxos == done.state.stxos);
    assert(coins_moved(made, tx).fault is None);
    assert(after.utxos == coins_moved(made, tx).state.utxos);
    assert(after.stxos == coins_moved(made, tx).state.stxos);
    assert(coinbase.take(body.coinbase.len() as int) =~= coinbase);
    assert forall|k: OutPoint| #[trigger]
        made_by(origin, tx.outputs).contains(k) && !names(
            tx.inputs,
            k,
        ) implies !back.utxos.contains_key(k) by {
        deleted_at(third, coinbase_origin, body.coinbase, body.coinbase.len(), k);
        undone_at(u, tx, k);
    }
    assert forall|k: OutPoint| #[trigger]
        names(tx.inputs, k) && !coinbase.contains(k) implies s.utxos.contains_key(k)
        && back.utxos.contains_key(k) && back.utxos[k] == s.utxos[k] && !back.stxos.contains_key(
        k,
    ) by {
        made_at(s.utxos, coinbase_origin, body.coinbase, body.coinbase.len(), k);
        deleted_at(third, coinbase_origin, body.coinbase, body.coinbase.len(), k);
        moved_at(made, tx, k);
        undone_at(u, tx, k);
    }
    assert(back.swaps == swap.state.swaps);
    assert(back.swaps =~= s.swaps);
    assert(back.locked_swap_outputs == outputs_unlocked(locks, origin, tx.outputs, swap_id));
    assert(tx.outputs.take(tx.outputs.len() as int) =~= tx.outputs);
    assert forall|k: OutPoint| set_aside(origin, tx.outputs, k) implies !(
    #[trigger] back.locked_swap_outputs.contains_key(k)) by {
        locked_at(s.locked_swap_outputs, origin, tx.outputs, swap_id, tx.outputs.len(), k);
    }
    assert forall|k: OutPoint| !set_aside(origin, tx.outputs, k) implies ((
    #[trigger] back.locked_swap_outputs.contains_key(k)) <==> s.locked_swap_outputs.contains_key(
        k,
    )) && (s.locked_swap_outputs.contains_key(k) ==> back.locked_swap_outputs[k]
        == s.locked_swap_outputs[k]) by {
        locked_at(s.locked_swap_outputs, origin, tx.outputs, swap_id, tx.outputs.len(), k);
    }
}

} // verus!
