//! Where coins are once a block is connected.
use vstd::prelude::*;

use crate::block_laws::{are_new, block_outpoints, coins_move_alike, made_by, made_outpoints};
use crate::block_model::{
    all_coins_moved, coinbase_made, connected, inputs_spent, names, prevalidated_connected,
    spent_outpoints, utxos_with, PrevalidatedBlockView,
};
use crate::error::Rejection;
use crate::ids::{Hash256, MerkleRoot, Txid};
use crate::state::StateView;
use crate::types::{
    BodyView, HeaderView, InPoint, Origin, OutPoint, OutputView, SpentOutputView, TransactionView,
};
use crate::undo_laws::{is_prepared, made_at, made_one_more, makes, moved_at, spent_at};

verus! {

/// With the outputs that the first `n` transactions make, none of them spent.
pub open spec fn all_made(
    utxos: Map<OutPoint, OutputView>,
    txs: Seq<TransactionView>,
    n: nat,
) -> Map<OutPoint, OutputView>
    decreases n,
{
    if n == 0 {
        utxos
    } else {
        utxos_with(
            all_made(utxos, txs, (n - 1) as nat),
            Origin::Transaction(txs[n - 1].txid),
            txs[n - 1].outputs,
            txs[n - 1].outputs.len(),
        )
    }
}

/// The unspent outputs of a state and all that a block makes.
pub open spec fn outputs_with_block(s: StateView, header: HeaderView, body: BodyView) -> Map<
    OutPoint,
    OutputView,
> {
    all_made(
        coinbase_made(s, header.merkle_root, body.coinbase).utxos,
        body.transactions,
        body.transactions.len(),
    )
}

/// `after` holds the coins of `s` as a block moves them. Unspent are the outputs
/// that were there and those that the block makes, but for what its inputs name.
/// Each input names another output; it is noted as spent, with what it was and
/// which input of which transaction spent it. What was spent before still is.
pub open spec fn moves_coins(
    s: StateView,
    after: StateView,
    header: HeaderView,
    body: BodyView,
) -> bool {
    let txs = body.transactions;
    let spent = spent_outpoints(txs, txs.len());
    let all = outputs_with_block(s, header, body);
    &&& spent.no_duplicates()
    &&& forall|k: OutPoint| #[trigger] spent.contains(k) ==> all.contains_key(k)
    &&& after.utxos == all.remove_keys(spent.to_set())
    &&& forall|k: OutPoint| #[trigger]
        after.stxos.contains_key(k) <==> s.stxos.contains_key(k) || spent.contains(k)
    &&& forall|k: OutPoint|
        s.stxos.contains_key(k) && !spent.contains(k) ==> #[trigger] after.stxos[k] == s.stxos[k]
    &&& forall|i: int, j: int|
        #![trigger txs[i].inputs[j]]
        0 <= i < txs.len() && 0 <= j < txs[i].inputs.len() ==> after.stxos[txs[i].inputs[j].0] == (
        SpentOutputView {
            output: all[txs[i].inputs[j].0],
            inpoint: InPoint::Regular { txid: txs[i].txid, vin: j as u32 },
        })
}

/// Outputs that are made are the same whatever was there before.
proof fn made_alike(
    a: Map<OutPoint, OutputView>,
    b: Map<OutPoint, OutputView>,
    origin: Origin,
    outputs: Seq<OutputView>,
    n: nat,
    k: OutPoint,
)
    requires
        n <= outputs.len(),
    ensures
        !a.contains_key(k) && utxos_with(a, origin, outputs, n).contains_key(k) ==> utxos_with(
            a,
            origin,
            outputs,
            n,
        )[k] == utxos_with(b, origin, outputs, n)[k],
    decreases n,
{
    if n > 0 {
        made_alike(a, b, origin, outputs, (n - 1) as nat, k);
    }
}

/// Where outpoints are made once, each stands for the output that was made.
proof fn made_is(
    utxos: Map<OutPoint, OutputView>,
    origin: Origin,
    outputs: Seq<OutputView>,
    n: nat,
    j: int,
)
    requires
        n <= outputs.len(),
        0 <= j < n,
        made_by(origin, outputs).no_duplicates(),
    ensures
        utxos_with(utxos, origin, outputs, n).contains_key(origin.outpoint(j)),
        utxos_with(utxos, origin, outputs, n)[origin.outpoint(j)] == outputs[j],
    decreases n,
{
    if j < n - 1 {
        made_is(utxos, origin, outputs, (n - 1) as nat, j);
        assert(made_by(origin, outputs)[j] != made_by(origin, outputs)[n - 1]);
    }
}

/// All that the first `n` transactions make is made.
proof fn all_made_at(
    utxos: Map<OutPoint, OutputView>,
    txs: Seq<TransactionView>,
    n: nat,
    k: OutPoint,
)
    requires
        n <= txs.len(),
    ensures
        ({
            let all = all_made(utxos, txs, n);
            &&& all.contains_key(k) <==> utxos.contains_key(k) || made_outpoints(txs, n).contains(k)
            &&& !made_outpoints(txs, n).contains(k) && utxos.contains_key(k) ==> all[k] == utxos[k]
        }),
    decreases n,
{
    if n > 0 {
        let tx = txs[n - 1];
        let origin = Origin::Transaction(tx.txid);
        all_made_at(utxos, txs, (n - 1) as nat, k);
        made_one_more(txs, n, k);
        made_at(all_made(utxos, txs, (n - 1) as nat), origin, tx.outputs, tx.outputs.len(), k);
        let made = made_by(origin, tx.outputs);
        assert(made.take(tx.outputs.len() as int) =~= made);
    } else {
        assert(!made_outpoints(txs, 0).contains(k));
    }
}

/// One more transaction spends the outpoints that its inputs name.
pub(crate) proof fn spent_one_more(txs: Seq<TransactionView>, n: nat, k: OutPoint)
    requires
        0 < n <= txs.len(),
    ensures
        spent_outpoints(txs, n).contains(k) <==> spent_outpoints(txs, (n - 1) as nat).contains(k)
            || names(txs[n - 1].inputs, k),
{
    let before = spent_outpoints(txs, (n - 1) as nat);
    let inputs = txs[n - 1].inputs;
    let all = spent_outpoints(txs, n);
    if before.contains(k) {
        let j = choose|j: int| 0 <= j < before.len() && before[j] == k;
        assert(all[j] == k);
    }
    if names(inputs, k) {
        let j = choose|j: int| 0 <= j < inputs.len() && (#[trigger] inputs[j]).0 == k;
        assert(all[before.len() + j] == k);
    }
    if all.contains(k) {
        let j = choose|j: int| 0 <= j < all.len() && all[j] == k;
        if j < before.len() {
            assert(before[j] == k);
        } else {
            assert(inputs[j - before.len()].0 == k);
        }
    }
}

/// What is made once by many transactions is made once by fewer, and not again by
/// the next.
pub(crate) proof fn made_once(txs: Seq<TransactionView>, n: nat, k: OutPoint)
    requires
        0 < n <= txs.len(),
        made_outpoints(txs, n).no_duplicates(),
    ensures
        made_outpoints(txs, (n - 1) as nat).no_duplicates(),
        made_by(Origin::Transaction(txs[n - 1].txid), txs[n - 1].outputs).no_duplicates(),
        !(makes(txs[n - 1], k) && made_outpoints(txs, (n - 1) as nat).contains(k)),
{
    let before = made_outpoints(txs, (n - 1) as nat);
    let made = made_by(Origin::Transaction(txs[n - 1].txid), txs[n - 1].outputs);
    let all = made_outpoints(txs, n);
    assert forall|a: int, b: int|
        0 <= a < before.len() && 0 <= b < before.len() && a != b implies before[a] != before[b] by {
        assert(all[a] == before[a]);
        assert(all[b] == before[b]);
    }
    assert forall|a: int, b: int|
        0 <= a < made.len() && 0 <= b < made.len() && a != b implies made[a] != made[b] by {
        assert(all[before.len() + a] == made[a]);
        assert(all[before.len() + b] == made[b]);
    }
    if made.contains(k) && before.contains(k) {
        let a = choose|a: int| 0 <= a < before.len() && before[a] == k;
        let b = choose|b: int| 0 <= b < made.len() && made[b] == k;
        assert(all[a] == all[before.len() + b]);
    }
}

/// Where one coin is once the first `n` transactions moved theirs.
pub(crate) proof fn coin_at(s: StateView, txs: Seq<TransactionView>, n: nat, k: OutPoint)
    requires
        n <= txs.len(),
        all_coins_moved(s, txs, n).fault is None,
        made_outpoints(txs, n).no_duplicates(),
        made_outpoints(txs, n).contains(k) ==> !s.utxos.contains_key(k),
    ensures
        ({
            let after = all_coins_moved(s, txs, n).state;
            let all = all_made(s.utxos, txs, n);
            let spent = spent_outpoints(txs, n).contains(k);
            &&& spent ==> all.contains_key(k) && after.stxos[k].output == all[k]
            &&& after.utxos.contains_key(k) <==> all.contains_key(k) && !spent
            &&& after.utxos.contains_key(k) ==> after.utxos[k] == all[k]
            &&& after.stxos.contains_key(k) <==> s.stxos.contains_key(k) || spent
            &&& !spent && s.stxos.contains_key(k) ==> after.stxos[k] == s.stxos[k]
        }),
    decreases n,
{
    if n > 0 {
        let tx = txs[n - 1];
        let origin = Origin::Transaction(tx.txid);
        let before = all_coins_moved(s, txs, (n - 1) as nat).state;
        let fewer = all_made(s.utxos, txs, (n - 1) as nat);
        let inputs = tx.inputs;
        let spending = inputs_spent(before.utxos, before.stxos, tx.txid, inputs, inputs.len());
        let made = made_by(origin, tx.outputs);
        made_once(txs, n, k);
        made_one_more(txs, n, k);
        spent_one_more(txs, n, k);
        coin_at(s, txs, (n - 1) as nat, k);
        moved_at(before, tx, k);
        all_made_at(s.utxos, txs, (n - 1) as nat, k);
        made_at(fewer, origin, tx.outputs, tx.outputs.len(), k);
        made_at(spending.utxos, origin, tx.outputs, tx.outputs.len(), k);
        spent_at(before.utxos, before.stxos, tx.txid, inputs, inputs.len(), k);
        assert(inputs.take(inputs.len() as int) =~= inputs);
        assert(made.take(tx.outputs.len() as int) =~= made);
        if makes(tx, k) {
            made_alike(fewer, spending.utxos, origin, tx.outputs, tx.outputs.len(), k);
        }
    } else {
        assert(!spent_outpoints(txs, 0).contains(k));
    }
}

/// An input that spends is noted with what it spent.
pub(crate) proof fn input_noted(
    utxos: Map<OutPoint, OutputView>,
    stxos: Map<OutPoint, SpentOutputView>,
    txid: Txid,
    inputs: Seq<(OutPoint, Hash256)>,
    n: nat,
    j: int,
)
    requires
        n <= inputs.len(),
        0 <= j < n,
        inputs_spent(utxos, stxos, txid, inputs, n).missing is None,
    ensures
        ({
            let done = inputs_spent(utxos, stxos, txid, inputs, n);
            let k = inputs[j].0;
            &&& !done.utxos.contains_key(k)
            &&& done.stxos[k].inpoint == InPoint::Regular { txid, vin: j as u32 }
            &&& forall|i: int| 0 <= i < n && i != j ==> (#[trigger] inputs[i]).0 != k
        }),
    decreases n,
{
    if j < n - 1 {
        input_noted(utxos, stxos, txid, inputs, (n - 1) as nat, j);
    } else {
        assert forall|i: int| 0 <= i < n && i != j implies (#[trigger] inputs[i]).0
            != inputs[j].0 by {
            input_noted(utxos, stxos, txid, inputs, (n - 1) as nat, i);
        }
    }
}

/// An input of one of the first `n` transactions is noted with what it spent.
proof fn inputs_noted(s: StateView, txs: Seq<TransactionView>, n: nat, i: int, j: int)
    requires
        n <= txs.len(),
        0 <= i < n,
        0 <= j < txs[i].inputs.len(),
        all_coins_moved(s, txs, n).fault is None,
        made_outpoints(txs, n).no_duplicates(),
        forall|k: OutPoint| #[trigger]
            made_outpoints(txs, n).contains(k) ==> !s.utxos.contains_key(k),
    ensures
        all_coins_moved(s, txs, n).state.stxos[txs[i].inputs[j].0].inpoint == (InPoint::Regular {
            txid: txs[i].txid,
            vin: j as u32,
        }),
        spent_outpoints(txs, n).contains(txs[i].inputs[j].0),
    decreases n,
{
    let k = txs[i].inputs[j].0;
    let tx = txs[n - 1];
    let before = all_coins_moved(s, txs, (n - 1) as nat).state;
    spent_one_more(txs, n, k);
    if i == n - 1 {
        input_noted(before.utxos, before.stxos, tx.txid, tx.inputs, tx.inputs.len(), j);
    } else {
        made_once(txs, n, k);
        assert forall|p: OutPoint| #[trigger]
            made_outpoints(txs, (n - 1) as nat).contains(p) implies !s.utxos.contains_key(p) by {
            made_one_more(txs, n, p);
        }
        inputs_noted(s, txs, (n - 1) as nat, i, j);
        coin_at(s, txs, (n - 1) as nat, k);
        spent_at(before.utxos, before.stxos, tx.txid, tx.inputs, tx.inputs.len(), k);
        assert(tx.inputs.take(tx.inputs.len() as int) =~= tx.inputs);
    }
}

/// No output is spent twice.
proof fn spent_once(s: StateView, txs: Seq<TransactionView>, n: nat)
    requires
        n <= txs.len(),
        all_coins_moved(s, txs, n).fault is None,
        made_outpoints(txs, n).no_duplicates(),
        forall|k: OutPoint| #[trigger]
            made_outpoints(txs, n).contains(k) ==> !s.utxos.contains_key(k),
    ensures
        spent_outpoints(txs, n).no_duplicates(),
    decreases n,
{
    if n > 0 {
        let tx = txs[n - 1];
        let before = all_coins_moved(s, txs, (n - 1) as nat).state;
        let fewer = spent_outpoints(txs, (n - 1) as nat);
        let all = spent_outpoints(txs, n);
        assert forall|p: OutPoint| #[trigger]
            made_outpoints(txs, (n - 1) as nat).contains(p) implies !s.utxos.contains_key(p) by {
            made_one_more(txs, n, p);
        }
        assert(made_outpoints(txs, (n - 1) as nat).no_duplicates()) by {
            made_once(txs, n, arbitrary());
        }
        spent_once(s, txs, (n - 1) as nat);
        assert forall|a: int, b: int| 0 <= a < b < all.len() implies all[a] != all[b] by {
            if b < fewer.len() {
                assert(fewer[a] != fewer[b]);
            } else {
                let j = b - fewer.len();
                let k = tx.inputs[j].0;
                assert(all[b] == k);
                input_noted(before.utxos, before.stxos, tx.txid, tx.inputs, tx.inputs.len(), j);
                if a >= fewer.len() {
                    assert(all[a] == tx.inputs[a - fewer.len()].0);
                } else {
                    assert(all[a] == fewer[a]);
                    assert(names(tx.inputs, k));
                    coin_at(s, txs, (n - 1) as nat, k);
                    moved_at(before, tx, k);
                }
            }
        }
    }
}

/// Coins are where they belong once a coinbase is made and transactions moved
/// theirs.
proof fn coins_are_moved(s: StateView, after: StateView, header: HeaderView, body: BodyView)
    requires
        are_new(s, block_outpoints(header, body)),
        ({
            let made = coinbase_made(s, header.merkle_root, body.coinbase);
            let step = all_coins_moved(made, body.transactions, body.transactions.len());
            &&& step.fault is None
            &&& after.utxos == step.state.utxos
            &&& after.stxos == step.state.stxos
        }),
    ensures
        moves_coins(s, after, header, body),
{
    let txs = body.transactions;
    let made = coinbase_made(s, header.merkle_root, body.coinbase);
    let spent = spent_outpoints(txs, txs.len());
    let all = outputs_with_block(s, header, body);
    made_are_new(s, header, body);
    spent_once(made, txs, txs.len());
    assert forall|k: OutPoint| #[trigger] spent.contains(k) implies all.contains_key(k) by {
        coin_at(made, txs, txs.len(), k);
    }
    let left = all.remove_keys(spent.to_set());
    assert forall|k: OutPoint| after.utxos.contains_key(k) <==> left.contains_key(k) by {
        coin_at(made, txs, txs.len(), k);
    }
    assert forall|k: OutPoint| after.utxos.contains_key(k) implies after.utxos[k] == left[k] by {
        coin_at(made, txs, txs.len(), k);
        assert(left.contains_key(k));
    }
    assert(after.utxos =~= left);
    assert forall|k: OutPoint| #[trigger]
        after.stxos.contains_key(k) <==> s.stxos.contains_key(k) || spent.contains(k) by {
        coin_at(made, txs, txs.len(), k);
    }
    assert forall|k: OutPoint|
        s.stxos.contains_key(k) && !spent.contains(k) implies #[trigger] after.stxos[k]
        == s.stxos[k] by {
        coin_at(made, txs, txs.len(), k);
    }
    assert forall|i: int, j: int|
        #![trigger txs[i].inputs[j]]
        0 <= i < txs.len() && 0 <= j < txs[i].inputs.len() implies after.stxos[txs[i].inputs[j].0]
        == (SpentOutputView {
        output: all[txs[i].inputs[j].0],
        inpoint: InPoint::Regular { txid: txs[i].txid, vin: j as u32 },
    }) by {
        inputs_noted(made, txs, txs.len(), i, j);
        coin_at(made, txs, txs.len(), txs[i].inputs[j].0);
    }
}

/// What the transactions of a block make is made once, and the coinbase has none
/// of it.
pub(crate) proof fn made_are_new(s: StateView, header: HeaderView, body: BodyView)
    requires
        are_new(s, block_outpoints(header, body)),
    ensures
        ({
            let txs = body.transactions;
            let made = coinbase_made(s, header.merkle_root, body.coinbase);
            let points = made_outpoints(txs, txs.len());
            &&& points.no_duplicates()
            &&& made_by(Origin::Coinbase(header.merkle_root), body.coinbase).no_duplicates()
            &&& forall|k: OutPoint| #[trigger] points.contains(k) ==> !made.utxos.contains_key(k)
        }),
{
    let txs = body.transactions;
    let origin = Origin::Coinbase(header.merkle_root);
    let coinbase = made_by(origin, body.coinbase);
    let made = coinbase_made(s, header.merkle_root, body.coinbase);
    let points = made_outpoints(txs, txs.len());
    let all = block_outpoints(header, body);
    assert forall|a: int, b: int|
        0 <= a < points.len() && 0 <= b < points.len() && a != b implies points[a] != points[b] by {
        assert(all[coinbase.len() + a] == points[a]);
        assert(all[coinbase.len() + b] == points[b]);
    }
    assert forall|a: int, b: int|
        0 <= a < coinbase.len() && 0 <= b < coinbase.len() && a != b implies coinbase[a]
        != coinbase[b] by {
        assert(all[a] == coinbase[a]);
        assert(all[b] == coinbase[b]);
    }
    assert forall|k: OutPoint| #[trigger] points.contains(k) implies !made.utxos.contains_key(k) by {
        let q = choose|q: int| 0 <= q < points.len() && points[q] == k;
        assert(all[coinbase.len() + q] == k);
        made_at(s.utxos, origin, body.coinbase, body.coinbase.len(), k);
        assert(coinbase.take(body.coinbase.len() as int) =~= coinbase);
        if coinbase.contains(k) {
            let a = choose|a: int| 0 <= a < coinbase.len() && coinbase[a] == k;
            assert(all[a] == k);
        }
    }
}

/// Where the outpoints that a block makes are new, the outputs of a state and of
/// the block are those that the state held unspent, as they were, and each output
/// of the coinbase and of each transaction, under the outpoint of its place.
pub proof fn outputs_with_block_are(s: StateView, header: HeaderView, body: BodyView)
    requires
        are_new(s, block_outpoints(header, body)),
    ensures
        ({
            let all = outputs_with_block(s, header, body);
            let txs = body.transactions;
            &&& forall|k: OutPoint| #[trigger]
                all.contains_key(k) <==> s.utxos.contains_key(k) || block_outpoints(
                    header,
                    body,
                ).contains(k)
            &&& forall|k: OutPoint| #[trigger] s.utxos.contains_key(k) ==> all[k] == s.utxos[k]
            &&& forall|j: int|
                0 <= j < body.coinbase.len() ==> all[Origin::Coinbase(header.merkle_root).outpoint(
                    j,
                )] == #[trigger] body.coinbase[j]
            &&& forall|i: int, j: int|
                #![trigger txs[i].outputs[j]]
                0 <= i < txs.len() && 0 <= j < txs[i].outputs.len() ==> all[Origin::Transaction(
                    txs[i].txid,
                ).outpoint(j)] == txs[i].outputs[j]
        }),
{
    let txs = body.transactions;
    let origin = Origin::Coinbase(header.merkle_root);
    let coinbase = made_by(origin, body.coinbase);
    let made = coinbase_made(s, header.merkle_root, body.coinbase);
    let points = made_outpoints(txs, txs.len());
    let all = outputs_with_block(s, header, body);
    let block = block_outpoints(header, body);
    made_are_new(s, header, body);
    assert(coinbase.take(body.coinbase.len() as int) =~= coinbase);
    assert forall|k: OutPoint| #[trigger]
        all.contains_key(k) <==> s.utxos.contains_key(k) || block.contains(k) by {
        all_made_at(made.utxos, txs, txs.len(), k);
        made_at(s.utxos, origin, body.coinbase, body.coinbase.len(), k);
        in_either(coinbase, points, k);
    }
    assert forall|k: OutPoint| #[trigger] s.utxos.contains_key(k) implies all[k] == s.utxos[k] by {
        all_made_at(made.utxos, txs, txs.len(), k);
        made_at(s.utxos, origin, body.coinbase, body.coinbase.len(), k);
        in_either(coinbase, points, k);
        if block.contains(k) {
            let q = choose|q: int| 0 <= q < block.len() && block[q] == k;
            assert(!s.utxos.contains_key(block[q]));
        }
    }
    assert forall|j: int| 0 <= j < body.coinbase.len() implies all[origin.outpoint(j)]
        == #[trigger] body.coinbase[j] by {
        let k = origin.outpoint(j);
        made_is(s.utxos, origin, body.coinbase, body.coinbase.len(), j);
        all_made_at(made.utxos, txs, txs.len(), k);
    }
    assert forall|i: int, j: int|
        #![trigger txs[i].outputs[j]]
        0 <= i < txs.len() && 0 <= j < txs[i].outputs.len() implies all[Origin::Transaction(
        txs[i].txid,
    ).outpoint(j)] == txs[i].outputs[j] by {
        all_made_are(made.utxos, txs, txs.len(), i, j);
    }
}

/// What is in one of two lists is in both together.
pub(crate) proof fn in_either(a: Seq<OutPoint>, b: Seq<OutPoint>, k: OutPoint)
    ensures
        (a + b).contains(k) <==> a.contains(k) || b.contains(k),
{
    let both = a + b;
    if a.contains(k) {
        let j = choose|j: int| 0 <= j < a.len() && a[j] == k;
        assert(both[j] == k);
    }
    if b.contains(k) {
        let j = choose|j: int| 0 <= j < b.len() && b[j] == k;
        assert(both[a.len() + j] == k);
    }
    if both.contains(k) {
        let j = choose|j: int| 0 <= j < both.len() && both[j] == k;
        if j < a.len() {
            assert(a[j] == k);
        } else {
            assert(b[j - a.len()] == k);
        }
    }
}

/// Where outpoints are made once, each stands for the output that one of the
/// first `n` transactions made.
proof fn all_made_are(
    utxos: Map<OutPoint, OutputView>,
    txs: Seq<TransactionView>,
    n: nat,
    i: int,
    j: int,
)
    requires
        n <= txs.len(),
        0 <= i < n,
        0 <= j < txs[i].outputs.len(),
        made_outpoints(txs, n).no_duplicates(),
    ensures
        all_made(utxos, txs, n)[Origin::Transaction(txs[i].txid).outpoint(j)]
            == txs[i].outputs[j],
        made_outpoints(txs, n).contains(Origin::Transaction(txs[i].txid).outpoint(j)),
    decreases n,
{
    let k = Origin::Transaction(txs[i].txid).outpoint(j);
    let tx = txs[n - 1];
    let origin = Origin::Transaction(tx.txid);
    let fewer = all_made(utxos, txs, (n - 1) as nat);
    let made = made_by(origin, tx.outputs);
    made_once(txs, n, k);
    made_one_more(txs, n, k);
    if i == n - 1 {
        made_is(fewer, origin, tx.outputs, tx.outputs.len(), j);
        assert(made[j] == k);
    } else {
        all_made_are(utxos, txs, (n - 1) as nat, i, j);
        made_at(fewer, origin, tx.outputs, tx.outputs.len(), k);
        assert(made.take(tx.outputs.len() as int) =~= made);
        all_made_at(utxos, txs, (n - 1) as nat, k);
    }
}

/// Connecting a block without having checked it moves its coins, where the
/// outpoints that it makes are new.
pub proof fn connecting_moves_coins(
    s: StateView,
    header: HeaderView,
    body: BodyView,
    merkle_root: Result<MerkleRoot, Rejection>,
)
    requires
        are_new(s, block_outpoints(header, body)),
        connected(s, header, body, merkle_root).fault is None,
    ensures
        moves_coins(s, connected(s, header, body, merkle_root).state, header, body),
{
    coins_are_moved(s, connected(s, header, body, merkle_root).state, header, body);
}

/// Connecting a block that was checked before moves its coins, where the
/// outpoints that it makes are new, whatever its transactions do to swaps.
pub proof fn connecting_checked_moves_coins(
    s: StateView,
    header: HeaderView,
    body: BodyView,
    pre: PrevalidatedBlockView,
)
    requires
        are_new(s, block_outpoints(header, body)),
        is_prepared(s, body, pre),
        prevalidated_connected(s, header, body, pre).fault is None,
    ensures
        moves_coins(s, prevalidated_connected(s, header, body, pre).state, header, body),
{
    let txs = body.transactions;
    let made = coinbase_made(s, header.merkle_root, body.coinbase);
    coins_move_alike(made, txs, pre.filled_transactions, pre.next_height, txs.len());
    coins_are_moved(s, prevalidated_connected(s, header, body, pre).state, header, body);
}

} // verus!
