//! What connecting and disconnecting a block does, output by output, and to the
//! tip.
use vstd::prelude::*;

use crate::accumulator::DiffView;
use crate::block_laws::{are_new, block_outpoints, made_by, made_outpoints};
use crate::block_model::{
    all_coins_moved, all_filled_connected, body_diff, body_undone, coinbase_made, coins_moved,
    coins_moved_keeps, connected, filled_in_turn, inputs_spent, inputs_unspent, names,
    outputs_deleted, outputs_deleted_keeps, prevalidated_connected, spent_outpoints,
    tip_disconnected, transaction_undone, transaction_undone_keeps, transactions_undone,
    PrevalidatedBlockView, Undoing,
};
use crate::check_laws::spends_each_once;
use crate::coin_laws::{
    connecting_checked_moves_coins, connecting_moves_coins, moves_coins, outputs_with_block,
    outputs_with_block_are, spent_one_more,
};
use crate::error::{Error, Fault, Halt, InvalidHeader, Rejection};
use crate::ids::{Hash256, MerkleRoot, Txid};
use crate::state::StateView;
use crate::types::{
    BodyView, FilledTransactionView, HeaderView, InPoint, Origin, OutPoint, OutputView,
    SpentOutputView, TransactionView,
};
use crate::undo_laws::{deleted_at, is_prepared, made_one_more, makes, undone_at, undone_keeps_tip};

verus! {

/// The outpoint of an output of a coinbase.
pub open spec fn coinbase_point(header: HeaderView, j: int) -> OutPoint {
    OutPoint::Coinbase { merkle_root: header.merkle_root, vout: j as u32 }
}

/// The outpoint of an output of a transaction.
pub open spec fn output_point(tx: TransactionView, j: int) -> OutPoint {
    OutPoint::Regular { txid: tx.txid, vout: j as u32 }
}

/// The outpoints that the first `n` transactions make.
pub open spec fn points_of(txs: Seq<TransactionView>, n: nat) -> Seq<OutPoint>
    decreases n,
{
    if n == 0 {
        Seq::empty()
    } else {
        points_of(txs, (n - 1) as nat) + Seq::new(
            txs[n - 1].outputs.len(),
            |j: int| output_point(txs[n - 1], j),
        )
    }
}

/// The outpoints that a block makes.
pub open spec fn block_points(header: HeaderView, body: BodyView) -> Seq<OutPoint> {
    Seq::new(body.coinbase.len(), |j: int| coinbase_point(header, j)) + points_of(
        body.transactions,
        body.transactions.len(),
    )
}

/// An input of a transaction names this outpoint.
pub open spec fn spends(tx: TransactionView, k: OutPoint) -> bool {
    exists|j: int| 0 <= j < tx.inputs.len() && (#[trigger] tx.inputs[j]).0 == k
}

/// An input of a block names this outpoint.
pub open spec fn block_spends(body: BodyView, k: OutPoint) -> bool {
    exists|i: int| 0 <= i < body.transactions.len() && spends(#[trigger] body.transactions[i], k)
}

/// A transaction makes this outpoint.
pub open spec fn makes_point(tx: TransactionView, k: OutPoint) -> bool {
    exists|j: int| 0 <= j < tx.outputs.len() && k == output_point(tx, j)
}

/// `after` holds the coins of `s` once a block moved its own.
pub open spec fn coins_moved_each(
    s: StateView,
    after: StateView,
    header: HeaderView,
    body: BodyView,
) -> bool {
    let txs = body.transactions;
    // What is unspent.
    &&& forall|k: OutPoint| #[trigger]
        after.utxos.contains_key(k) <==> (s.utxos.contains_key(k) || block_points(
            header,
            body,
        ).contains(k)) && !block_spends(body, k)
    &&& forall|k: OutPoint|
        s.utxos.contains_key(k) && !block_spends(body, k) ==> #[trigger] after.utxos[k]
            == s.utxos[k]
    &&& forall|j: int|
        0 <= j < body.coinbase.len() && !block_spends(body, coinbase_point(header, j))
            ==> after.utxos[coinbase_point(header, j)] == #[trigger] body.coinbase[j]
    &&& forall|i: int, j: int|
        #![trigger txs[i].outputs[j]]
        0 <= i < txs.len() && 0 <= j < txs[i].outputs.len() && !block_spends(
            body,
            output_point(txs[i], j),
        )
            ==> after.utxos[output_point(txs[i], j)] == txs[i].outputs[j]
    // What is spent.
    &&& forall|k: OutPoint| #[trigger]
        after.stxos.contains_key(k) <==> s.stxos.contains_key(k) || block_spends(body, k)
    &&& forall|k: OutPoint|
        s.stxos.contains_key(k) && !block_spends(body, k) ==> #[trigger] after.stxos[k]
            == s.stxos[k]
    &&& forall|i: int, j: int|
        #![trigger txs[i].inputs[j]]
        0 <= i < txs.len() && 0 <= j < txs[i].inputs.len() ==> {
            let k = txs[i].inputs[j].0;
            &&& s.utxos.contains_key(k) || block_points(header, body).contains(k)
            &&& after.stxos[k].inpoint == (InPoint::Regular { txid: txs[i].txid, vin: j as u32 })
            &&& s.utxos.contains_key(k) ==> after.stxos[k].output == s.utxos[k]
            &&& forall|p: int, q: int|
                #![trigger txs[p].outputs[q]]
                0 <= p < txs.len() && 0 <= q < txs[p].outputs.len() && k == output_point(txs[p], q)
                    ==> after.stxos[k].output == txs[p].outputs[q]
        }
}

/// The outpoints that transactions make, told in two ways.
proof fn points_are(txs: Seq<TransactionView>, n: nat)
    ensures
        points_of(txs, n) == made_outpoints(txs, n),
    decreases n,
{
    if n > 0 {
        points_are(txs, (n - 1) as nat);
        assert(made_by(Origin::Transaction(txs[n - 1].txid), txs[n - 1].outputs) =~= Seq::new(
            txs[n - 1].outputs.len(),
            |j: int| output_point(txs[n - 1], j),
        ));
    }
}

/// The outpoints that a block makes, told in two ways.
proof fn block_points_are(header: HeaderView, body: BodyView)
    ensures
        block_points(header, body) == block_outpoints(header, body),
{
    points_are(body.transactions, body.transactions.len());
    assert(made_by(Origin::Coinbase(header.merkle_root), body.coinbase) =~= Seq::new(
        body.coinbase.len(),
        |j: int| coinbase_point(header, j),
    ));
}

/// What inputs name is what is spent.
proof fn spent_is(txs: Seq<TransactionView>, n: nat, k: OutPoint)
    requires
        n <= txs.len(),
    ensures
        spent_outpoints(txs, n).contains(k) <==> exists|i: int|
            0 <= i < n && spends(#[trigger] txs[i], k),
    decreases n,
{
    if n > 0 {
        spent_is(txs, (n - 1) as nat, k);
        spent_one_more(txs, n, k);
        assert(names(txs[n - 1].inputs, k) <==> spends(txs[n - 1], k));
        if exists|i: int| 0 <= i < n - 1 && spends(#[trigger] txs[i], k) {
            let i = choose|i: int| 0 <= i < n - 1 && spends(#[trigger] txs[i], k);
            assert(spends(txs[i], k));
        }
    }
}

/// Coins that are moved are moved one by one.
proof fn moved_each(s: StateView, after: StateView, header: HeaderView, body: BodyView)
    requires
        are_new(s, block_points(header, body)),
        moves_coins(s, after, header, body),
    ensures
        coins_moved_each(s, after, header, body),
{
    let txs = body.transactions;
    let spent = spent_outpoints(txs, txs.len());
    let all = outputs_with_block(s, header, body);
    let points = block_points(header, body);
    block_points_are(header, body);
    outputs_with_block_are(s, header, body);
    assert forall|k: OutPoint| #[trigger] spent.contains(k) <==> block_spends(body, k) by {
        spent_is(txs, txs.len(), k);
    }
    assert forall|k: OutPoint| #[trigger]
        after.utxos.contains_key(k) <==> (s.utxos.contains_key(k) || points.contains(k))
            && !block_spends(body, k) by {
        assert(all.contains_key(k) <==> s.utxos.contains_key(k) || points.contains(k));
        assert(spent.contains(k) <==> block_spends(body, k));
    }
    assert forall|k: OutPoint|
        s.utxos.contains_key(k) && !block_spends(body, k) implies #[trigger] after.utxos[k]
        == s.utxos[k] by {
        assert(after.utxos.contains_key(k));
    }
    assert forall|j: int|
        0 <= j < body.coinbase.len() && !block_spends(
            body,
            coinbase_point(header, j),
        ) implies after.utxos[coinbase_point(header, j)] == #[trigger] body.coinbase[j] by {
        let k = coinbase_point(header, j);
        assert(points[j] == k);
        assert(after.utxos.contains_key(k));
        assert(Origin::Coinbase(header.merkle_root).outpoint(j) == k);
    }
    assert forall|i: int, j: int|
        #![trigger txs[i].outputs[j]]
        0 <= i < txs.len() && 0 <= j < txs[i].outputs.len() && !block_spends(
            body,
            output_point(txs[i], j),
        ) implies after.utxos[output_point(txs[i], j)] == txs[i].outputs[j] by {
        let k = output_point(txs[i], j);
        assert(Origin::Transaction(txs[i].txid).outpoint(j) == k);
        point_is_made(header, body, i, j);
        assert(after.utxos.contains_key(k));
    }
    assert forall|k: OutPoint| #[trigger]
        after.stxos.contains_key(k) <==> s.stxos.contains_key(k) || block_spends(body, k) by {
        assert(spent.contains(k) <==> block_spends(body, k));
    }
    assert forall|k: OutPoint|
        s.stxos.contains_key(k) && !block_spends(body, k) implies #[trigger] after.stxos[k]
        == s.stxos[k] by {
        assert(spent.contains(k) <==> block_spends(body, k));
    }
    assert forall|i: int, j: int|
        #![trigger txs[i].inputs[j]]
        0 <= i < txs.len() && 0 <= j < txs[i].inputs.len() implies {
        let k = txs[i].inputs[j].0;
        &&& s.utxos.contains_key(k) || points.contains(k)
        &&& after.stxos[k].inpoint == (InPoint::Regular { txid: txs[i].txid, vin: j as u32 })
        &&& s.utxos.contains_key(k) ==> after.stxos[k].output == s.utxos[k]
        &&& forall|p: int, q: int|
            #![trigger txs[p].outputs[q]]
            0 <= p < txs.len() && 0 <= q < txs[p].outputs.len() && k == output_point(txs[p], q)
                ==> after.stxos[k].output == txs[p].outputs[q]
    } by {
        let k = txs[i].inputs[j].0;
        assert(spends(txs[i], k));
        assert(block_spends(body, k));
        assert(spent.contains(k));
        assert(all.contains_key(k));
        assert forall|p: int, q: int|
            #![trigger txs[p].outputs[q]]
            0 <= p < txs.len() && 0 <= q < txs[p].outputs.len() && k == output_point(
                txs[p],
                q,
            ) implies after.stxos[k].output == txs[p].outputs[q] by {
            assert(Origin::Transaction(txs[p].txid).outpoint(q) == k);
        }
    }
}

/// The outpoint of an output of a block is one that the block makes.
proof fn point_is_made(header: HeaderView, body: BodyView, i: int, j: int)
    requires
        0 <= i < body.transactions.len(),
        0 <= j < body.transactions[i].outputs.len(),
    ensures
        block_points(header, body).contains(output_point(body.transactions[i], j)),
{
    let txs = body.transactions;
    let k = output_point(txs[i], j);
    let coinbase = Seq::new(body.coinbase.len(), |j: int| coinbase_point(header, j));
    point_is_there(txs, txs.len(), i, j);
    let points = points_of(txs, txs.len());
    let q = choose|q: int| 0 <= q < points.len() && points[q] == k;
    assert(block_points(header, body)[coinbase.len() + q] == k);
}

/// The outpoint of an output of one of the first `n` transactions is one that they
/// make.
proof fn point_is_there(txs: Seq<TransactionView>, n: nat, i: int, j: int)
    requires
        0 <= i < n <= txs.len(),
        0 <= j < txs[i].outputs.len(),
    ensures
        points_of(txs, n).contains(output_point(txs[i], j)),
    decreases n,
{
    let k = output_point(txs[i], j);
    let before = points_of(txs, (n - 1) as nat);
    if i == n - 1 {
        assert(points_of(txs, n)[before.len() + j] == k);
    } else {
        point_is_there(txs, (n - 1) as nat, i, j);
        let q = choose|q: int| 0 <= q < before.len() && before[q] == k;
        assert(points_of(txs, n)[q] == k);
    }
}

/// Connecting a block without having checked it, where the outpoints that it makes
/// are new. Unspent are the outputs that were there, as they were, and those that
/// the block makes, but for what its inputs name. What an input names was there or
/// was made, and is spent then, as what it was, by that input of that transaction.
/// What was spent before still is.
pub proof fn connecting_moves_each_coin(
    s: StateView,
    header: HeaderView,
    body: BodyView,
    merkle_root: Result<MerkleRoot, Rejection>,
)
    requires
        are_new(s, block_points(header, body)),
        connected(s, header, body, merkle_root).fault is None,
    ensures
        coins_moved_each(s, connected(s, header, body, merkle_root).state, header, body),
{
    block_points_are(header, body);
    connecting_moves_coins(s, header, body, merkle_root);
    moved_each(s, connected(s, header, body, merkle_root).state, header, body);
}

/// Connecting a checked block moves each coin in the same way, whatever its
/// transactions do to swaps.
pub proof fn connecting_checked_moves_each_coin(
    s: StateView,
    header: HeaderView,
    body: BodyView,
    pre: PrevalidatedBlockView,
)
    requires
        are_new(s, block_points(header, body)),
        is_prepared(s, body, pre),
        prevalidated_connected(s, header, body, pre).fault is None,
    ensures
        coins_moved_each(s, prevalidated_connected(s, header, body, pre).state, header, body),
{
    block_points_are(header, body);
    connecting_checked_moves_coins(s, header, body, pre);
    moved_each(s, prevalidated_connected(s, header, body, pre).state, header, body);
}

// The tip.
/// All but blocks, outputs, the accumulator and swaps is as it was.
pub open spec fn same_peg(a: StateView, b: StateView) -> bool {
    &&& a.pending_withdrawal_bundle == b.pending_withdrawal_bundle
    &&& a.withdrawal_bundles == b.withdrawal_bundles
    &&& a.latest_failed_withdrawal_bundle == b.latest_failed_withdrawal_bundle
    &&& a.deposit_blocks == b.deposit_blocks
    &&& a.withdrawal_bundle_event_blocks == b.withdrawal_bundle_event_blocks
    &&& a.withdrawal_bundle_failure_gap == b.withdrawal_bundle_failure_gap
}

/// Connecting transactions leaves all else alone.
proof fn connecting_keeps_peg(
    s: StateView,
    list: Seq<FilledTransactionView>,
    height: u32,
    n: nat,
)
    ensures
        same_peg(all_filled_connected(s, list, height, n).state, s),
        all_filled_connected(s, list, height, n).state.tip == s.tip,
        all_filled_connected(s, list, height, n).state.height == s.height,
    decreases n,
{
    if n > 0 {
        connecting_keeps_peg(s, list, height, (n - 1) as nat);
    }
}

/// A block that is connected without having been checked follows the tip, has the
/// merkle root that was found, and becomes the tip, one higher; swaps, what is
/// locked to them, and all that has to do with the mainchain stay as they are.
pub proof fn connecting_moves_the_tip(
    s: StateView,
    header: HeaderView,
    body: BodyView,
    merkle_root: Result<MerkleRoot, Rejection>,
)
    requires
        connected(s, header, body, merkle_root).fault is None,
    ensures
        ({
            let after = connected(s, header, body, merkle_root).state;
            &&& header.prev_side_hash == s.tip
            &&& merkle_root is Ok && merkle_root->Ok_0 == header.merkle_root
            &&& after.tip == Some(header.hash)
            &&& after.height is Some
            &&& after.height->0 == match s.height {
                Some(height) => height + 1,
                None => 0,
            }
            &&& after.swaps == s.swaps
            &&& after.locked_swap_outputs == s.locked_swap_outputs
            &&& same_peg(after, s)
        }),
{
    let made = coinbase_made(s, header.merkle_root, body.coinbase);
    coins_moved_keeps(made, body.transactions, body.transactions.len());
}

/// A checked block that is connected follows the tip, has the merkle root that was
/// found, and becomes the tip, at the height that was found; all that has to do with
/// the mainchain stays as it is.
pub proof fn connecting_checked_moves_the_tip(
    s: StateView,
    header: HeaderView,
    body: BodyView,
    pre: PrevalidatedBlockView,
)
    requires
        prevalidated_connected(s, header, body, pre).fault is None,
    ensures
        ({
            let after = prevalidated_connected(s, header, body, pre).state;
            &&& header.prev_side_hash == s.tip
            &&& pre.computed_merkle_root == header.merkle_root
            &&& after.tip == Some(header.hash)
            &&& after.height == Some(pre.next_height)
            &&& same_peg(after, s)
        }),
{
    connecting_keeps_peg(
        coinbase_made(s, pre.computed_merkle_root, body.coinbase),
        pre.filled_transactions,
        pre.next_height,
        pre.filled_transactions.len(),
    );
}

/// A block that does not follow the tip is not connected, and nothing changes; nor
/// does it where a block that was checked has another merkle root than was found.
pub proof fn other_blocks_are_not_connected(
    s: StateView,
    header: HeaderView,
    body: BodyView,
    merkle_root: Result<MerkleRoot, Rejection>,
    pre: PrevalidatedBlockView,
)
    ensures
        header.prev_side_hash != s.tip ==> {
            let why = Some(
                Fault::Error(
                    Error::InvalidHeader(
                        InvalidHeader::PrevSideHash {
                            expected: s.tip,
                            received: header.prev_side_hash,
                        },
                    ),
                ),
            );
            &&& connected(s, header, body, merkle_root).fault == why
            &&& connected(s, header, body, merkle_root).state == s
            &&& prevalidated_connected(s, header, body, pre).fault == why
            &&& prevalidated_connected(s, header, body, pre).state == s
        },
        header.prev_side_hash == s.tip && pre.computed_merkle_root != header.merkle_root ==> {
            let done = prevalidated_connected(s, header, body, pre);
            &&& done.fault == Some(
                Fault::Error(
                    Error::InvalidBody {
                        expected: pre.computed_merkle_root,
                        computed: header.merkle_root,
                    },
                ),
            )
            &&& done.state == s
        },
{
}

/// Where the coins of a block can be moved, it is turned down for a merkle root that
/// cannot be told, or for another one; where there is no height for it, this halts.
/// The tip stays.
pub proof fn merkle_roots_must_be_right(
    s: StateView,
    header: HeaderView,
    body: BodyView,
    merkle_root: Result<MerkleRoot, Rejection>,
)
    requires
        header.prev_side_hash == s.tip,
        all_coins_moved(
            coinbase_made(s, header.merkle_root, body.coinbase),
            body.transactions,
            body.transactions.len(),
        ).fault is None,
    ensures
        ({
            let done = connected(s, header, body, merkle_root);
            &&& merkle_root matches Err(why) ==> done.fault == Some(
                Fault::Error(Error::MerkleRoot(why)),
            ) && done.state.tip == s.tip
            &&& merkle_root is Ok && merkle_root->Ok_0 != header.merkle_root ==> done.fault == Some(
                Fault::Error(
                    Error::InvalidBody {
                        expected: header.merkle_root,
                        computed: merkle_root->Ok_0,
                    },
                ),
            ) && done.state.tip == s.tip
            &&& merkle_root == Ok::<MerkleRoot, Rejection>(header.merkle_root) && s.height == Some(
                u32::MAX,
            ) ==> done.fault == Some(Fault::Halt(Halt::OutOfRange)) && done.state.tip == s.tip
        }),
{
    let made = coinbase_made(s, header.merkle_root, body.coinbase);
    coins_moved_keeps(made, body.transactions, body.transactions.len());
}

/// A transaction that fails to move its coins ends moving them.
proof fn moving_stops(s: StateView, txs: Seq<TransactionView>, m: nat, n: nat)
    requires
        m <= n,
        all_coins_moved(s, txs, m).fault is Some,
    ensures
        all_coins_moved(s, txs, n) == all_coins_moved(s, txs, m),
    decreases n - m,
{
    if m < n {
        moving_stops(s, txs, m, (n - 1) as nat);
    }
}

/// An input that names no unspent output, where those before it spend theirs, ends
/// spending.
proof fn spending_stops(
    utxos: Map<OutPoint, OutputView>,
    stxos: Map<OutPoint, SpentOutputView>,
    txid: Txid,
    inputs: Seq<(OutPoint, Hash256)>,
    m: nat,
    n: nat,
)
    requires
        m < n <= inputs.len(),
        inputs_spent(utxos, stxos, txid, inputs, m).missing is None,
        !inputs_spent(utxos, stxos, txid, inputs, m).utxos.contains_key(inputs[m as int].0),
    ensures
        inputs_spent(utxos, stxos, txid, inputs, n).missing == Some(inputs[m as int].0),
        inputs_spent(utxos, stxos, txid, inputs, n).utxos == inputs_spent(
            utxos,
            stxos,
            txid,
            inputs,
            m,
        ).utxos,
        inputs_spent(utxos, stxos, txid, inputs, n).stxos == inputs_spent(
            utxos,
            stxos,
            txid,
            inputs,
            m,
        ).stxos,
    decreases n,
{
    if m < n - 1 {
        spending_stops(utxos, stxos, txid, inputs, m, (n - 1) as nat);
    }
}

/// Inputs that name different unspent outputs can be spent.
proof fn spending_goes_on(
    utxos: Map<OutPoint, OutputView>,
    stxos: Map<OutPoint, SpentOutputView>,
    txid: Txid,
    inputs: Seq<(OutPoint, Hash256)>,
    n: nat,
)
    requires
        n <= inputs.len(),
        forall|j: int| 0 <= j < n ==> utxos.contains_key((#[trigger] inputs[j]).0),
        forall|i: int, j: int|
            #![trigger inputs[i], inputs[j]]
            0 <= i < j < n ==> inputs[i].0 != inputs[j].0,
    ensures
        inputs_spent(utxos, stxos, txid, inputs, n).missing is None,
        forall|k: OutPoint|
            utxos.contains_key(k) && (forall|j: int| 0 <= j < n ==> (#[trigger] inputs[j]).0 != k)
                ==> #[trigger] inputs_spent(utxos, stxos, txid, inputs, n).utxos.contains_key(k),
        forall|k: OutPoint| #[trigger]
            inputs_spent(utxos, stxos, txid, inputs, n).utxos.contains_key(k) ==> utxos.contains_key(
                k,
            ) && forall|j: int| 0 <= j < n ==> (#[trigger] inputs[j]).0 != k,
    decreases n,
{
    if n > 0 {
        spending_goes_on(utxos, stxos, txid, inputs, (n - 1) as nat);
        let before = inputs_spent(utxos, stxos, txid, inputs, (n - 1) as nat);
        let k = inputs[n - 1].0;
        assert(before.utxos.contains_key(k)) by {
            assert forall|j: int| 0 <= j < n - 1 implies (#[trigger] inputs[j]).0 != k by {
                assert(inputs[j].0 != inputs[n - 1].0);
            }
        }
        let after = inputs_spent(utxos, stxos, txid, inputs, n);
        assert forall|p: OutPoint|
            utxos.contains_key(p) && (forall|j: int|
                0 <= j < n ==> (#[trigger] inputs[j]).0 != p) implies #[trigger] after.utxos.contains_key(
        p) by {
            assert(inputs[n - 1].0 != p);
            assert(before.utxos.contains_key(p));
        }
        assert forall|p: OutPoint| #[trigger] after.utxos.contains_key(p) implies utxos.contains_key(
            p,
        ) && forall|j: int| 0 <= j < n ==> (#[trigger] inputs[j]).0 != p by {
            assert(before.utxos.contains_key(p));
        }
    }
}

/// Where the transactions before it moved their coins, the first input of a
/// transaction that names nothing that is unspent then, or what an input before it
/// named, is reported, with what it names.
pub proof fn inputs_must_name_unspent_outputs(
    s: StateView,
    header: HeaderView,
    body: BodyView,
    merkle_root: Result<MerkleRoot, Rejection>,
    i: int,
    m: int,
)
    requires
        header.prev_side_hash == s.tip,
        0 <= i < body.transactions.len(),
        0 <= m < body.transactions[i].inputs.len(),
        ({
            let before = all_coins_moved(
                coinbase_made(s, header.merkle_root, body.coinbase),
                body.transactions,
                i as nat,
            );
            let inputs = body.transactions[i].inputs;
            &&& before.fault is None
            &&& forall|j: int|
                0 <= j < m ==> before.state.utxos.contains_key((#[trigger] inputs[j]).0)
            &&& forall|p: int, q: int|
                #![trigger inputs[p], inputs[q]]
                0 <= p < q < m ==> inputs[p].0 != inputs[q].0
            &&& !before.state.utxos.contains_key(inputs[m].0) || exists|j: int|
                0 <= j < m && (#[trigger] inputs[j]).0 == inputs[m].0
        }),
    ensures
        connected(s, header, body, merkle_root).fault == Some(
            Fault::Error(Error::NoUtxo { outpoint: body.transactions[i].inputs[m].0 }),
        ),
        connected(s, header, body, merkle_root).state.tip == s.tip,
{
    let txs = body.transactions;
    let tx = txs[i];
    let made = coinbase_made(s, header.merkle_root, body.coinbase);
    let before = all_coins_moved(made, txs, i as nat).state;
    spending_goes_on(before.utxos, before.stxos, tx.txid, tx.inputs, m as nat);
    spending_stops(
        before.utxos,
        before.stxos,
        tx.txid,
        tx.inputs,
        m as nat,
        tx.inputs.len(),
    );
    assert(coins_moved(before, tx).fault is Some);
    assert(all_coins_moved(made, txs, (i + 1) as nat) == coins_moved(before, tx));
    moving_stops(made, txs, (i + 1) as nat, txs.len());
    coins_moved_keeps(made, txs, txs.len());
}

// Taking back.
/// A block that is disconnected was the tip. The block before it is the tip then,
/// one lower; if there was none, there is no tip then, and no height. All that has
/// to do with the mainchain stays as it is.
pub proof fn disconnecting_moves_the_tip_back(s: StateView, header: HeaderView, body: BodyView)
    requires
        tip_disconnected(s, header, body).fault is None,
    ensures
        ({
            let after = tip_disconnected(s, header, body).state;
            &&& s.tip == Some(header.hash)
            &&& s.height is Some
            &&& after.tip == header.prev_side_hash
            &&& header.prev_side_hash is None ==> s.height == Some(0u32) && after.height is None
            &&& header.prev_side_hash is Some ==> after.height is Some && after.height->0
                == s.height->0 - 1
            &&& same_peg(after, s)
        }),
{
    let u = Undoing { state: s, diff: DiffView::none(), fault: None };
    let undone = transactions_undone(u, body.transactions, body.transactions.len());
    undone_keeps_tip(u, body.transactions, body.transactions.len());
    undoing_keeps_peg(u, body.transactions, body.transactions.len());
    outputs_deleted_keeps(
        undone,
        Origin::Coinbase(header.merkle_root),
        body.coinbase,
        body.coinbase.len(),
    );
}

/// Taking transactions back leaves all that has to do with the mainchain alone.
proof fn undoing_keeps_peg(u: Undoing, txs: Seq<TransactionView>, n: nat)
    ensures
        same_peg(transactions_undone(u, txs, n).state, u.state),
    decreases n,
{
    if n > 0 && u.fault is None {
        transaction_undone_keeps(u, txs[n - 1]);
        undoing_keeps_peg(transaction_undone(u, txs[n - 1]), txs, (n - 1) as nat);
    }
}

/// Without a tip nothing is disconnected, and no block but the tip; nothing changes
/// then.
pub proof fn only_the_tip_is_taken_back(s: StateView, header: HeaderView, body: BodyView)
    ensures
        s.tip is None ==> tip_disconnected(s, header, body).fault == Some(
            Fault::Error(Error::NoTip),
        ) && tip_disconnected(s, header, body).state == s,
        s.tip is Some && s.tip->0 != header.hash ==> tip_disconnected(s, header, body).fault
            == Some(
            Fault::Error(
                Error::InvalidHeader(
                    InvalidHeader::BlockHash { expected: s.tip->0, computed: header.hash },
                ),
            ),
        ) && tip_disconnected(s, header, body).state == s,
{
}

/// What an outpoint holds once the first `n` transactions are taken back.
proof fn coin_back(u: Undoing, txs: Seq<TransactionView>, n: nat, k: OutPoint)
    requires
        n <= txs.len(),
        u.fault is None,
        transactions_undone(u, txs, n).fault is None,
    ensures
        ({
            let x = u.state;
            let after = transactions_undone(u, txs, n).state;
            let made = made_outpoints(txs, n).contains(k);
            let spent = exists|i: int| 0 <= i < n && spends(#[trigger] txs[i], k);
            &&& !made && !spent ==> {
                &&& after.utxos.contains_key(k) <==> x.utxos.contains_key(k)
                &&& after.utxos.contains_key(k) ==> after.utxos[k] == x.utxos[k]
            }
            &&& !spent ==> {
                &&& after.stxos.contains_key(k) <==> x.stxos.contains_key(k)
                &&& after.stxos.contains_key(k) ==> after.stxos[k] == x.stxos[k]
            }
            &&& made && !spent ==> !after.utxos.contains_key(k)
            &&& spent ==> x.stxos.contains_key(k) && !after.stxos.contains_key(k)
            &&& spent && !made ==> after.utxos.contains_key(k) && after.utxos[k]
                == x.stxos[k].output
        }),
    decreases n,
{
    reveal_with_fuel(transactions_undone, 2);
    if n > 0 {
        let tx = txs[n - 1];
        let next = transaction_undone(u, tx);
        made_one_more(txs, n, k);
        undone_at(u, tx, k);
        assert(names(tx.inputs, k) <==> spends(tx, k));
        if !names(tx.inputs, k) {
            undone_stxos(u, tx, k);
        }
        coin_back(next, txs, (n - 1) as nat, k);
        if exists|i: int| 0 <= i < n && spends(#[trigger] txs[i], k) {
            let i = choose|i: int| 0 <= i < n && spends(#[trigger] txs[i], k);
            assert(i < n - 1 || spends(tx, k));
        }
        if exists|i: int| 0 <= i < n - 1 && spends(#[trigger] txs[i], k) {
            let i = choose|i: int| 0 <= i < n - 1 && spends(#[trigger] txs[i], k);
            assert(spends(txs[i], k));
        }
    } else {
        assert(!made_outpoints(txs, 0).contains(k));
    }
}

/// Taking a transaction back leaves what it did not spend alone among the spent.
proof fn undone_stxos(u: Undoing, tx: TransactionView, k: OutPoint)
    requires
        u.fault is None,
        transaction_undone(u, tx).fault is None,
        !names(tx.inputs, k),
    ensures
        ({
            let after = transaction_undone(u, tx).state;
            &&& after.stxos.contains_key(k) <==> u.state.stxos.contains_key(k)
            &&& after.stxos.contains_key(k) ==> after.stxos[k] == u.state.stxos[k]
        }),
{
    let swap = crate::block_model::swap_disconnected(u.state, tx);
    let first = Undoing { state: swap.state, diff: u.diff, fault: swap.fault };
    let origin = Origin::Transaction(tx.txid);
    let second = outputs_deleted(first, origin, tx.outputs, tx.outputs.len());
    outputs_deleted_keeps(first, origin, tx.outputs, tx.outputs.len());
    crate::undo_laws::unspent_at(second, tx.inputs, tx.inputs.len(), k);
    assert(tx.inputs.take(tx.inputs.len() as int) =~= tx.inputs);
}

/// Disconnecting a block, outpoint by outpoint. What its inputs named was spent; it
/// is not spent then, and, unless the block made it, unspent again, as what it was.
/// What the block made is not unspent then, if it had not been spent in the block.
/// All other outputs, spent or not, stay as they are.
pub proof fn disconnecting_moves_each_coin_back(
    s: StateView,
    header: HeaderView,
    body: BodyView,
    k: OutPoint,
)
    requires
        tip_disconnected(s, header, body).fault is None,
    ensures
        ({
            let after = tip_disconnected(s, header, body).state;
            let made = block_points(header, body).contains(k);
            let spent = block_spends(body, k);
            &&& !made && !spent ==> {
                &&& after.utxos.contains_key(k) <==> s.utxos.contains_key(k)
                &&& after.utxos.contains_key(k) ==> after.utxos[k] == s.utxos[k]
            }
            &&& !spent ==> {
                &&& after.stxos.contains_key(k) <==> s.stxos.contains_key(k)
                &&& after.stxos.contains_key(k) ==> after.stxos[k] == s.stxos[k]
            }
            &&& made && !spent ==> !after.utxos.contains_key(k)
            &&& spent ==> s.stxos.contains_key(k) && !after.stxos.contains_key(k)
            &&& spent && !made ==> after.utxos.contains_key(k) && after.utxos[k]
                == s.stxos[k].output
        }),
{
    let txs = body.transactions;
    let u = Undoing { state: s, diff: DiffView::none(), fault: None };
    let undone = transactions_undone(u, txs, txs.len());
    let origin = Origin::Coinbase(header.merkle_root);
    let coinbase = made_by(origin, body.coinbase);
    let points = made_outpoints(txs, txs.len());
    assert(body_undone(s, header, body).fault is None);
    deleted_at(undone, origin, body.coinbase, body.coinbase.len(), k);
    coin_back(u, txs, txs.len(), k);
    outputs_deleted_keeps(undone, origin, body.coinbase, body.coinbase.len());
    assert(coinbase.take(body.coinbase.len() as int) =~= coinbase);
    block_points_are(header, body);
    crate::coin_laws::in_either(coinbase, points, k);
}

/// Where a block is the tip and its last transaction, one that has nothing to do with
/// swaps, made outputs, the last of which is not unspent, or made none and spent
/// outputs, the last of which is not spent, disconnecting the block is turned down
/// for that output.
pub proof fn missing_outputs_are_reported(s: StateView, header: HeaderView, body: BodyView)
    requires
        s.tip == Some(header.hash),
        body.transactions.len() > 0,
        body.transactions[body.transactions.len() - 1].data is Regular,
    ensures
        ({
            let tx = body.transactions[body.transactions.len() - 1];
            let done = tip_disconnected(s, header, body);
            let made = tx.outputs.len();
            let spent = tx.inputs.len();
            &&& made > 0 && !s.utxos.contains_key(output_point(tx, made - 1)) ==> done.fault == Some(
                Fault::Error(Error::NoUtxo { outpoint: output_point(tx, made - 1) }),
            )
            &&& made == 0 && spent > 0 && !s.stxos.contains_key(tx.inputs[spent - 1].0)
                ==> done.fault == Some(
                Fault::Error(Error::NoStxo { outpoint: tx.inputs[spent - 1].0 }),
            )
        }),
{
    reveal_with_fuel(transactions_undone, 2);
    reveal_with_fuel(outputs_deleted, 3);
    reveal_with_fuel(inputs_unspent, 2);
    let txs = body.transactions;
    let tx = txs[txs.len() - 1];
    let u = Undoing { state: s, diff: DiffView::none(), fault: None };
    let origin = Origin::Transaction(tx.txid);
    let second = outputs_deleted(u, origin, tx.outputs, tx.outputs.len());
    if tx.outputs.len() > 0 && !s.utxos.contains_key(output_point(tx, tx.outputs.len() - 1)) {
        assert(origin.outpoint(tx.outputs.len() - 1) == output_point(tx, tx.outputs.len() - 1));
        assert(second.fault is Some);
        assert(transaction_undone(u, tx) == second);
    }
    let next = transaction_undone(u, tx);
    if next.fault is Some {
        assert(transactions_undone(u, txs, txs.len()) == next);
        assert(outputs_deleted(
            next,
            Origin::Coinbase(header.merkle_root),
            body.coinbase,
            body.coinbase.len(),
        ) == next);
    }
}

// When coins can be moved, and what transactions are filled with.
/// What the inputs of the `i`-th transaction of a block name is unspent before the
/// block, or made by its coinbase or by a transaction before.
pub open spec fn names_what_is_there(
    s: StateView,
    header: HeaderView,
    body: BodyView,
    i: int,
) -> bool {
    forall|j: int|
        0 <= j < body.transactions[i].inputs.len() ==> {
            let k = (#[trigger] body.transactions[i].inputs[j]).0;
            ||| s.utxos.contains_key(k)
            ||| exists|q: int| 0 <= q < body.coinbase.len() && k == coinbase_point(header, q)
            ||| exists|p: int| 0 <= p < i && makes_point(#[trigger] body.transactions[p], k)
        }
}

/// A coinbase makes its outputs unspent.
proof fn coinbase_is_there(s: StateView, header: HeaderView, body: BodyView, k: OutPoint)
    ensures
        ({
            let made = coinbase_made(s, header.merkle_root, body.coinbase).utxos;
            made.contains_key(k) <==> s.utxos.contains_key(k) || exists|q: int|
                0 <= q < body.coinbase.len() && k == coinbase_point(header, q)
        }),
{
    let origin = Origin::Coinbase(header.merkle_root);
    let coinbase = made_by(origin, body.coinbase);
    crate::undo_laws::made_at(s.utxos, origin, body.coinbase, body.coinbase.len(), k);
    assert(coinbase.take(body.coinbase.len() as int) =~= coinbase);
    if coinbase.contains(k) {
        let q = choose|q: int| 0 <= q < coinbase.len() && coinbase[q] == k;
        assert(k == coinbase_point(header, q));
    }
    if exists|q: int| 0 <= q < body.coinbase.len() && k == coinbase_point(header, q) {
        let q = choose|q: int| 0 <= q < body.coinbase.len() && k == coinbase_point(header, q);
        assert(coinbase[q] == k);
    }
}

/// What was unspent or made, and not spent, is unspent after the first `n`
/// transactions.
proof fn still_there(s: StateView, txs: Seq<TransactionView>, n: nat, k: OutPoint)
    requires
        n <= txs.len(),
        all_coins_moved(s, txs, n).fault is None,
        forall|i: int| 0 <= i < n ==> !spends(#[trigger] txs[i], k),
        s.utxos.contains_key(k) || exists|p: int| 0 <= p < n && makes_point(#[trigger] txs[p], k),
    ensures
        all_coins_moved(s, txs, n).state.utxos.contains_key(k),
    decreases n,
{
    if n > 0 {
        let tx = txs[n - 1];
        let before = all_coins_moved(s, txs, (n - 1) as nat).state;
        let spending = inputs_spent(before.utxos, before.stxos, tx.txid, tx.inputs, tx.inputs.len());
        let origin = Origin::Transaction(tx.txid);
        let made = made_by(origin, tx.outputs);
        crate::undo_laws::spent_at(
            before.utxos,
            before.stxos,
            tx.txid,
            tx.inputs,
            tx.inputs.len(),
            k,
        );
        assert(tx.inputs.take(tx.inputs.len() as int) =~= tx.inputs);
        assert(!spends(tx, k));
        assert(!names(tx.inputs, k));
        crate::undo_laws::made_at(spending.utxos, origin, tx.outputs, tx.outputs.len(), k);
        assert(made.take(tx.outputs.len() as int) =~= made);
        if makes_point(tx, k) {
            let j = choose|j: int| 0 <= j < tx.outputs.len() && k == output_point(tx, j);
            assert(made[j] == k);
        } else {
            if !s.utxos.contains_key(k) {
                let p = choose|p: int| 0 <= p < n && makes_point(#[trigger] txs[p], k);
                assert(p < n - 1);
            }
            still_there(s, txs, (n - 1) as nat, k);
        }
    }
}

/// The coins of the first `n` transactions can be moved.
proof fn coins_can_be_moved(s: StateView, header: HeaderView, body: BodyView, n: nat)
    requires
        n <= body.transactions.len(),
        spends_each_once(body.transactions),
        forall|i: int|
            0 <= i < body.transactions.len() ==> #[trigger] names_what_is_there(
                s,
                header,
                body,
                i,
            ),
    ensures
        all_coins_moved(
            coinbase_made(s, header.merkle_root, body.coinbase),
            body.transactions,
            n,
        ).fault is None,
    decreases n,
{
    if n > 0 {
        coins_can_be_moved(s, header, body, (n - 1) as nat);
        let txs = body.transactions;
        let made = coinbase_made(s, header.merkle_root, body.coinbase);
        let before = all_coins_moved(made, txs, (n - 1) as nat).state;
        let inputs = txs[n - 1].inputs;
        assert(names_what_is_there(s, header, body, n - 1));
        assert forall|j: int| 0 <= j < inputs.len() implies before.utxos.contains_key(
            (#[trigger] inputs[j]).0,
        ) by {
            let k = txs[n - 1].inputs[j].0;
            coinbase_is_there(s, header, body, k);
            assert forall|i: int| 0 <= i < n - 1 implies !spends(#[trigger] txs[i], k) by {
                if spends(txs[i], k) {
                    let q = choose|q: int| 0 <= q < txs[i].inputs.len() && (
                    #[trigger] txs[i].inputs[q]).0 == k;
                    assert(txs[i].inputs[q].0 != txs[n - 1].inputs[j].0);
                }
            }
            still_there(made, txs, (n - 1) as nat, k);
        }
        assert forall|p: int, q: int|
            #![trigger inputs[p], inputs[q]]
            0 <= p < q < inputs.len() implies inputs[p].0 != inputs[q].0 by {
            assert(txs[n - 1].inputs[p].0 != txs[n - 1].inputs[q].0);
        }
        spending_goes_on(before.utxos, before.stxos, txs[n - 1].txid, inputs, inputs.len());
    }
}

/// A block that follows the tip, has the merkle root that was found, whose inputs name
/// different outputs, each unspent before or made in the block by then, is connected,
/// as far as there is a height for it, up to what the accumulator says to its change.
pub proof fn blocks_that_spend_what_is_there_connect(
    s: StateView,
    header: HeaderView,
    body: BodyView,
    merkle_root: Result<MerkleRoot, Rejection>,
)
    requires
        header.prev_side_hash == s.tip,
        s.height != Some(u32::MAX),
        merkle_root == Ok::<MerkleRoot, Rejection>(header.merkle_root),
        spends_each_once(body.transactions),
        forall|i: int|
            0 <= i < body.transactions.len() ==> #[trigger] names_what_is_there(
                s,
                header,
                body,
                i,
            ),
    ensures
        ({
            let done = connected(s, header, body, merkle_root);
            &&& done.state.tip == Some(header.hash)
            &&& body_diff(body).applied(s.accumulator) is Ok ==> done.fault is None
            &&& body_diff(body).applied(s.accumulator) matches Err(fault) ==> done.fault == Some(
                fault,
            )
        }),
{
    let made = coinbase_made(s, header.merkle_root, body.coinbase);
    coins_can_be_moved(s, header, body, body.transactions.len());
    coins_moved_keeps(made, body.transactions, body.transactions.len());
}

/// What inputs spend, in order.
proof fn spent_in_order(
    utxos: Map<OutPoint, OutputView>,
    stxos: Map<OutPoint, SpentOutputView>,
    txid: Txid,
    inputs: Seq<(OutPoint, Hash256)>,
    n: nat,
)
    requires
        n <= inputs.len(),
        inputs_spent(utxos, stxos, txid, inputs, n).missing is None,
    ensures
        ({
            let done = inputs_spent(utxos, stxos, txid, inputs, n);
            &&& done.spent.len() == n
            &&& forall|j: int| 0 <= j < n ==> #[trigger] done.spent[j] == utxos[inputs[j].0]
        }),
    decreases n,
{
    if n > 0 {
        spent_in_order(utxos, stxos, txid, inputs, (n - 1) as nat);
        let k = inputs[n - 1].0;
        crate::undo_laws::spent_at(utxos, stxos, txid, inputs, (n - 1) as nat, k);
    }
}

/// No transaction before one that fails fails.
proof fn moved_until(s: StateView, txs: Seq<TransactionView>, m: nat, n: nat)
    requires
        m <= n,
        all_coins_moved(s, txs, n).fault is None,
    ensures
        all_coins_moved(s, txs, m).fault is None,
{
    if all_coins_moved(s, txs, m).fault is Some {
        moving_stops(s, txs, m, n);
    }
}

/// What a transaction spent stays noted.
proof fn stays_noted(s: StateView, txs: Seq<TransactionView>, i: int, n: nat, k: OutPoint)
    requires
        0 <= i < n <= txs.len(),
        all_coins_moved(s, txs, n).fault is None,
        spends(txs[i], k),
        made_outpoints(txs, n).no_duplicates(),
        forall|p: OutPoint| #[trigger]
            made_outpoints(txs, n).contains(p) ==> !s.utxos.contains_key(p),
    ensures
        all_coins_moved(s, txs, n).state.stxos[k].output == all_coins_moved(
            s,
            txs,
            i as nat,
        ).state.utxos[k],
    decreases n,
{
    let tx = txs[n - 1];
    let before = all_coins_moved(s, txs, (n - 1) as nat).state;
    moved_until(s, txs, (n - 1) as nat, n);
    crate::undo_laws::moved_at(before, tx, k);
    assert(names(txs[i].inputs, k) <==> spends(txs[i], k));
    if i < n - 1 {
        crate::coin_laws::made_once(txs, n, k);
        assert forall|p: OutPoint| #[trigger]
            made_outpoints(txs, (n - 1) as nat).contains(p) implies !s.utxos.contains_key(p) by {
            made_one_more(txs, n, p);
        }
        stays_noted(s, txs, i, (n - 1) as nat, k);
        spent_is(txs, (n - 1) as nat, k);
        crate::coin_laws::coin_at(s, txs, (n - 1) as nat, k);
        crate::undo_laws::spent_at(
            before.utxos,
            before.stxos,
            tx.txid,
            tx.inputs,
            tx.inputs.len(),
            k,
        );
        assert(tx.inputs.take(tx.inputs.len() as int) =~= tx.inputs);
    }
}

/// When a block moves its coins, and the outpoints that it makes are new, each
/// transaction is filled with what its inputs spend, in their order.
pub proof fn transactions_are_filled_in_turn(
    s: StateView,
    header: HeaderView,
    body: BodyView,
    merkle_root: Result<MerkleRoot, Rejection>,
)
    requires
        are_new(s, block_points(header, body)),
        connected(s, header, body, merkle_root).fault is None,
    ensures
        ({
            let txs = body.transactions;
            let after = connected(s, header, body, merkle_root).state;
            let list = filled_in_turn(
                coinbase_made(s, header.merkle_root, body.coinbase),
                body.transactions,
            );
            &&& list.len() == txs.len()
            &&& forall|i: int|
                0 <= i < txs.len() ==> (#[trigger] list[i]).transaction == txs[i]
                    && list[i].spent_utxos.len() == txs[i].inputs.len()
            &&& forall|i: int, j: int|
                #![trigger txs[i].inputs[j]]
                0 <= i < txs.len() && 0 <= j < txs[i].inputs.len() ==> list[i].spent_utxos[j]
                    == after.stxos[txs[i].inputs[j].0].output
        }),
{
    let txs = body.transactions;
    let n = txs.len();
    let made = coinbase_made(s, header.merkle_root, body.coinbase);
    let list = filled_in_turn(made, txs);
    let after = connected(s, header, body, merkle_root).state;
    block_points_are(header, body);
    crate::coin_laws::made_are_new(s, header, body);
    assert forall|i: int| 0 <= i < n implies (#[trigger] list[i]).transaction == txs[i]
        && list[i].spent_utxos.len() == txs[i].inputs.len() by {
        filled_one(made, txs, i, n);
    }
    assert forall|i: int, j: int|
        #![trigger txs[i].inputs[j]]
        0 <= i < n && 0 <= j < txs[i].inputs.len() implies list[i].spent_utxos[j]
        == after.stxos[txs[i].inputs[j].0].output by {
        let k = txs[i].inputs[j].0;
        filled_one(made, txs, i, n);
        assert(spends(txs[i], k));
        stays_noted(made, txs, i, n, k);
    }
}

/// A transaction is filled with what is unspent before it.
proof fn filled_one(s: StateView, txs: Seq<TransactionView>, i: int, n: nat)
    requires
        0 <= i < n <= txs.len(),
        all_coins_moved(s, txs, n).fault is None,
    ensures
        ({
            let before = all_coins_moved(s, txs, i as nat).state;
            let filled = filled_in_turn(s, txs)[i];
            &&& filled.transaction == txs[i]
            &&& filled.spent_utxos.len() == txs[i].inputs.len()
            &&& forall|j: int|
                0 <= j < txs[i].inputs.len() ==> #[trigger] filled.spent_utxos[j]
                    == before.utxos[txs[i].inputs[j].0]
        }),
{
    let before = all_coins_moved(s, txs, i as nat).state;
    let tx = txs[i];
    moved_until(s, txs, i as nat, n);
    moved_until(s, txs, (i + 1) as nat, n);
    assert(coins_moved(before, tx).fault is None);
    spent_in_order(before.utxos, before.stxos, tx.txid, tx.inputs, tx.inputs.len());
}

/// Where the body of the tip can be taken back, this halts without a height; a first
/// block above height 0, or another one at height 0, is turned down.
pub proof fn tips_must_have_their_height(s: StateView, header: HeaderView, body: BodyView)
    requires
        s.tip == Some(header.hash),
        body_undone(s, header, body).fault is None,
    ensures
        ({
            let done = tip_disconnected(s, header, body);
            &&& s.height is None ==> done.fault == Some(Fault::Halt(Halt::NoHeight))
            &&& s.height is Some && (header.prev_side_hash is None) != (s.height->0 == 0)
                ==> done.fault == Some(Fault::Error(Error::NoTip))
        }),
{
    let u = Undoing { state: s, diff: DiffView::none(), fault: None };
    let undone = transactions_undone(u, body.transactions, body.transactions.len());
    undone_keeps_tip(u, body.transactions, body.transactions.len());
    outputs_deleted_keeps(
        undone,
        Origin::Coinbase(header.merkle_root),
        body.coinbase,
        body.coinbase.len(),
    );
}

// One transaction.
/// A transaction moves its coins exactly if its inputs name different unspent outputs,
/// whatever it makes. What they name is then spent by them, as what it was; what the
/// transaction makes is unspent, even where something else was before under that
/// outpoint; all else stays as it is.
pub proof fn transactions_move_their_coins(s: StateView, tx: TransactionView, k: OutPoint)
    ensures
        ({
            let done = coins_moved(s, tx);
            let after = done.state;
            let inputs = tx.inputs;
            &&& done.fault is None <==> (forall|j: int|
                0 <= j < inputs.len() ==> s.utxos.contains_key((#[trigger] inputs[j]).0)) && (
            forall|i: int, j: int|
                #![trigger inputs[i], inputs[j]]
                0 <= i < j < inputs.len() ==> inputs[i].0 != inputs[j].0)
            &&& done.fault is None ==> {
                &&& after.stxos.contains_key(k) <==> s.stxos.contains_key(k) || spends(tx, k)
                &&& !spends(tx, k) && s.stxos.contains_key(k) ==> after.stxos[k] == s.stxos[k]
                &&& forall|j: int|
                    0 <= j < inputs.len() && (#[trigger] inputs[j]).0 == k ==> after.stxos[k] == (
                    SpentOutputView {
                        output: s.utxos[k],
                        inpoint: InPoint::Regular { txid: tx.txid, vin: j as u32 },
                    })
                &&& makes_point(tx, k) ==> after.utxos.contains_key(k)
                &&& !makes_point(tx, k) ==> (after.utxos.contains_key(k)
                    <==> s.utxos.contains_key(k) && !spends(tx, k))
                &&& !makes_point(tx, k) && after.utxos.contains_key(k) ==> after.utxos[k]
                    == s.utxos[k]
            }
        }),
{
    let inputs = tx.inputs;
    let n = inputs.len();
    let origin = Origin::Transaction(tx.txid);
    let made = made_by(origin, tx.outputs);
    let spending = inputs_spent(s.utxos, s.stxos, tx.txid, inputs, n);
    assert(names(inputs, k) <==> spends(tx, k));
    assert(makes(tx, k) <==> makes_point(tx, k)) by {
        if makes(tx, k) {
            let j = choose|j: int| 0 <= j < made.len() && made[j] == k;
            assert(k == output_point(tx, j));
        }
        if makes_point(tx, k) {
            let j = choose|j: int| 0 <= j < tx.outputs.len() && k == output_point(tx, j);
            assert(made[j] == k);
        }
    }
    if (forall|j: int| 0 <= j < n ==> s.utxos.contains_key((#[trigger] inputs[j]).0)) && (forall|
        i: int,
        j: int,
    |
        #![trigger inputs[i], inputs[j]]
        0 <= i < j < n ==> inputs[i].0 != inputs[j].0) {
        spending_goes_on(s.utxos, s.stxos, tx.txid, inputs, n);
    }
    if coins_moved(s, tx).fault is None {
        assert(inputs.take(n as int) =~= inputs);
        assert(made.take(tx.outputs.len() as int) =~= made);
        crate::undo_laws::moved_at(s, tx, k);
        crate::undo_laws::spent_at(s.utxos, s.stxos, tx.txid, inputs, n, k);
        crate::undo_laws::made_at(spending.utxos, origin, tx.outputs, tx.outputs.len(), k);
        assert forall|j: int| 0 <= j < n implies s.utxos.contains_key((#[trigger] inputs[j]).0) by {
            crate::undo_laws::spent_at(s.utxos, s.stxos, tx.txid, inputs, n, inputs[j].0);
            assert(names(inputs, inputs[j].0));
        }
        assert forall|i: int, j: int|
            #![trigger inputs[i], inputs[j]]
            0 <= i < j < n implies inputs[i].0 != inputs[j].0 by {
            crate::coin_laws::input_noted(s.utxos, s.stxos, tx.txid, inputs, n, i);
        }
        assert forall|j: int| 0 <= j < n && (#[trigger] inputs[j]).0 == k implies coins_moved(
            s,
            tx,
        ).state.stxos[k] == (SpentOutputView {
            output: s.utxos[k],
            inpoint: InPoint::Regular { txid: tx.txid, vin: j as u32 },
        }) by {
            crate::coin_laws::input_noted(s.utxos, s.stxos, tx.txid, inputs, n, j);
        }
    }
}

/// The first input that names nothing unspent, or what an input before it named, is reported.
/// What the inputs before it named is spent then, and all else is as it was.
pub proof fn missing_inputs_end_a_transaction(
    s: StateView,
    tx: TransactionView,
    m: int,
    k: OutPoint,
)
    requires
        0 <= m < tx.inputs.len(),
        forall|j: int| 0 <= j < m ==> s.utxos.contains_key((#[trigger] tx.inputs[j]).0),
        forall|p: int, q: int|
            #![trigger tx.inputs[p], tx.inputs[q]]
            0 <= p < q < m ==> tx.inputs[p].0 != tx.inputs[q].0,
        !s.utxos.contains_key(tx.inputs[m].0) || exists|j: int|
            0 <= j < m && (#[trigger] tx.inputs[j]).0 == tx.inputs[m].0,
    ensures
        ({
            let done = coins_moved(s, tx);
            let after = done.state;
            &&& done.fault == Some(Fault::Error(Error::NoUtxo { outpoint: tx.inputs[m].0 }))
            &&& after == (StateView { utxos: after.utxos, stxos: after.stxos, ..s })
            &&& forall|j: int|
                0 <= j < m && (#[trigger] tx.inputs[j]).0 == k ==> !after.utxos.contains_key(k)
                    && after.stxos.contains_key(k) && after.stxos[k] == (SpentOutputView {
                    output: s.utxos[k],
                    inpoint: InPoint::Regular { txid: tx.txid, vin: j as u32 },
                })
            &&& (forall|j: int| 0 <= j < m ==> (#[trigger] tx.inputs[j]).0 != k) ==> {
                &&& after.utxos.contains_key(k) <==> s.utxos.contains_key(k)
                &&& s.utxos.contains_key(k) ==> after.utxos[k] == s.utxos[k]
                &&& after.stxos.contains_key(k) <==> s.stxos.contains_key(k)
                &&& s.stxos.contains_key(k) ==> after.stxos[k] == s.stxos[k]
            }
        }),
{
    let inputs = tx.inputs;
    let n = m as nat;
    let first = inputs.take(m);
    spending_goes_on(s.utxos, s.stxos, tx.txid, inputs, n);
    spending_stops(s.utxos, s.stxos, tx.txid, inputs, n, inputs.len());
    crate::undo_laws::spent_at(s.utxos, s.stxos, tx.txid, inputs, n, k);
    assert forall|j: int| 0 <= j < m && (#[trigger] inputs[j]).0 == k implies names(first, k) && (
    coins_moved(s, tx).state.stxos[k] == (SpentOutputView {
        output: s.utxos[k],
        inpoint: InPoint::Regular { txid: tx.txid, vin: j as u32 },
    })) by {
        assert(first[j].0 == k);
        crate::coin_laws::input_noted(s.utxos, s.stxos, tx.txid, inputs, n, j);
    }
    if names(first, k) {
        let j = choose|j: int| 0 <= j < first.len() && (#[trigger] first[j]).0 == k;
        assert(inputs[j].0 == k);
    }
}

/// Where the transactions before it were connected, a transaction of a checked block whose
/// coins cannot be moved is turned down for that, before what it does to swaps is looked
/// at: the first input that names nothing unspent, or what an input before it named, is
/// reported.
pub proof fn coins_are_moved_before_swaps(
    s: StateView,
    header: HeaderView,
    body: BodyView,
    pre: PrevalidatedBlockView,
    i: int,
    m: int,
)
    requires
        header.prev_side_hash == s.tip,
        pre.computed_merkle_root == header.merkle_root,
        0 <= i < pre.filled_transactions.len(),
        0 <= m < pre.filled_transactions[i].transaction.inputs.len(),
        ({
            let before = all_filled_connected(
                coinbase_made(s, header.merkle_root, body.coinbase),
                pre.filled_transactions,
                pre.next_height,
                i as nat,
            );
            let inputs = pre.filled_transactions[i].transaction.inputs;
            &&& before.fault is None
            &&& forall|j: int|
                0 <= j < m ==> before.state.utxos.contains_key((#[trigger] inputs[j]).0)
            &&& forall|p: int, q: int|
                #![trigger inputs[p], inputs[q]]
                0 <= p < q < m ==> inputs[p].0 != inputs[q].0
            &&& !before.state.utxos.contains_key(inputs[m].0) || exists|j: int|
                0 <= j < m && (#[trigger] inputs[j]).0 == inputs[m].0
        }),
    ensures
        prevalidated_connected(s, header, body, pre).fault == Some(
            Fault::Error(
                Error::NoUtxo { outpoint: pre.filled_transactions[i].transaction.inputs[m].0 },
            ),
        ),
        prevalidated_connected(s, header, body, pre).state.tip == s.tip,
{
    let list = pre.filled_transactions;
    let tx = list[i].transaction;
    let made = coinbase_made(s, header.merkle_root, body.coinbase);
    let before = all_filled_connected(made, list, pre.next_height, i as nat).state;
    spending_goes_on(before.utxos, before.stxos, tx.txid, tx.inputs, m as nat);
    spending_stops(
        before.utxos,
        before.stxos,
        tx.txid,
        tx.inputs,
        m as nat,
        tx.inputs.len(),
    );
    assert(coins_moved(before, tx).fault is Some);
    crate::swap_laws::connecting_stops(
        made,
        list,
        pre.next_height,
        (i + 1) as nat,
        list.len(),
    );
    connecting_keeps_peg(made, list, pre.next_height, list.len());
}

} // verus!
