//! Where swaps stand, and what is locked to them, once a block is connected or
//! taken back.
use vstd::prelude::*;

use crate::accumulator::DiffView;
use crate::block_model::{
    all_filled_connected, body_undone, coinbase_made, coins_moved, inputs_locked,
    inputs_unspent_keeps, locks_with, names, outputs_deleted, outputs_deleted_keeps, prevalidated,
    prevalidated_connected, set_aside, swap_disconnected, tip_disconnected, transaction_undone,
    transactions_undone, BodyFactsView, PrevalidatedBlockView, Undoing,
};
use crate::check_laws::{accepted_blocks_are_prepared_in_full, accepted_blocks_keep_all_rules};
use crate::coinshift_laws::swaps_by_id;
use crate::error::{Error, Fault, Halt, TransactionFault};
use crate::ids::{Hash256, SwapId};
use crate::state::StateView;
use crate::swap::{SwapDirection, SwapState, SwapView};
use crate::types::{
    BodyView, FilledTransactionView, HeaderView, Origin, OutPoint, OutputView, TransactionView,
    TxDataView,
};
use crate::undo_laws::is_prepared;

verus! {

/// A transaction makes the swap of this id.
pub open spec fn creates(tx: TransactionView, id: SwapId) -> bool {
    match tx.data {
        TxDataView::SwapCreate { swap_id, .. } => swap_id == id,
        _ => false,
    }
}

/// A transaction claims the swap of this id.
pub open spec fn claims(tx: TransactionView, id: SwapId) -> bool {
    match tx.data {
        TxDataView::SwapClaim { swap_id, .. } => swap_id == id,
        _ => false,
    }
}

/// The last of the first `n` transactions that makes the swap of this id.
pub open spec fn last_create(txs: Seq<TransactionView>, id: SwapId, n: nat) -> Option<int>
    decreases n,
{
    if n == 0 {
        None
    } else if creates(txs[n - 1], id) {
        Some(n - 1)
    } else {
        last_create(txs, id, (n - 1) as nat)
    }
}

/// One of the transactions from `from` on, up to `n`, claims the swap of this id.
pub open spec fn is_claimed(txs: Seq<TransactionView>, id: SwapId, from: int, n: nat) -> bool {
    exists|p: int| from <= p < n && claims(#[trigger] txs[p], id)
}

/// A swap, but for where it stands, is the one that a transaction describes: on the
/// chain, with the payment, the confirmations, the recipients and the amounts that
/// the transaction tells; made at this height, and open for as many blocks as the
/// rules of the chain say; by the owner of the first output that the transaction
/// spends. No payment was seen.
pub open spec fn is_as_told(
    swap: SwapView,
    tx: TransactionView,
    spent: Seq<OutputView>,
    height: u32,
) -> bool {
    match tx.data {
        TxDataView::SwapCreate {
            swap_id,
            parent_chain,
            l1_txid_bytes,
            required_confirmations,
            l2_recipient,
            l2_amount,
            l1_recipient_address,
            l1_amount,
        } => {
            &&& swap.id == swap_id
            &&& swap.direction == SwapDirection::L2ToL1
            &&& swap.parent_chain == parent_chain
            &&& swap.l1_txid == l1_txid_bytes
            &&& swap.required_confirmations == required_confirmations
            &&& swap.l2_recipient == l2_recipient
            &&& swap.l2_amount == l2_amount
            &&& swap.l1_recipient_address == Some(l1_recipient_address)
            &&& swap.l1_amount == Some(l1_amount)
            &&& swap.created_at_height == height
            &&& swap.expires_at_height is Some
            &&& swap.expires_at_height->0 == height + parent_chain.default_swap_expiration_blocks
            &&& swap.l2_creator_address == if spent.len() > 0 {
                Some(spent[0].address)
            } else {
                None
            }
            &&& swap.l1_txid_validated_at is None
        },
        _ => false,
    }
}

/// One more transaction may claim a swap.
proof fn one_more_claims(txs: Seq<TransactionView>, id: SwapId, from: int, n: nat)
    requires
        0 < n,
        from < n,
    ensures
        is_claimed(txs, id, from, n) <==> is_claimed(txs, id, from, (n - 1) as nat) || claims(
            txs[n - 1],
            id,
        ),
{
    if is_claimed(txs, id, from, n) && !claims(txs[n - 1], id) {
        let p = choose|p: int| from <= p < n && claims(#[trigger] txs[p], id);
        assert(claims(txs[p], id));
    }
    if is_claimed(txs, id, from, (n - 1) as nat) {
        let p = choose|p: int| from <= p < n - 1 && claims(#[trigger] txs[p], id);
        assert(claims(txs[p], id));
    }
}

/// The last transaction that makes a swap is one of them.
proof fn last_create_is(txs: Seq<TransactionView>, id: SwapId, n: nat)
    ensures
        last_create(txs, id, n) matches Some(i) ==> 0 <= i < n && creates(txs[i], id),
    decreases n,
{
    if n > 0 {
        last_create_is(txs, id, (n - 1) as nat);
    }
}

/// Where a swap stands after some transactions.
spec fn stands(
    s: StateView,
    after: StateView,
    txs: Seq<TransactionView>,
    list: Seq<FilledTransactionView>,
    height: u32,
    id: SwapId,
    n: nat,
) -> bool {
    match last_create(txs, id, n) {
        Some(i) => {
            &&& after.swaps.contains_key(id)
            &&& is_as_told(after.swaps[id], txs[i], list[i].spent_utxos, height)
            &&& after.swaps[id].state == if is_claimed(txs, id, i, n) {
                SwapState::Completed
            } else {
                SwapState::Pending
            }
        },
        None => {
            &&& after.swaps.contains_key(id) <==> s.swaps.contains_key(id)
            &&& is_claimed(txs, id, 0, n) ==> s.swaps.contains_key(id)
            &&& s.swaps.contains_key(id) ==> after.swaps[id] == (SwapView {
                state: if is_claimed(txs, id, 0, n) {
                    SwapState::Completed
                } else {
                    s.swaps[id].state
                },
                ..s.swaps[id]
            })
        },
    }
}

/// Where a swap stands after the first `n` transactions.
proof fn swap_stands(
    s: StateView,
    txs: Seq<TransactionView>,
    list: Seq<FilledTransactionView>,
    height: u32,
    id: SwapId,
    n: nat,
)
    requires
        n <= txs.len(),
        list.len() == txs.len(),
        forall|i: int| 0 <= i < txs.len() ==> (#[trigger] list[i]).transaction == txs[i],
        swaps_by_id(s),
        all_filled_connected(s, list, height, n).fault is None,
    ensures
        swaps_by_id(all_filled_connected(s, list, height, n).state),
        stands(s, all_filled_connected(s, list, height, n).state, txs, list, height, id, n),
    decreases n,
{
    if n > 0 {
        swap_stands(s, txs, list, height, id, (n - 1) as nat);
        last_create_is(txs, id, (n - 1) as nat);
        one_more_claims(txs, id, 0, n);
        match last_create(txs, id, (n - 1) as nat) {
            Some(i) => {
                one_more_claims(txs, id, i, n);
            },
            None => {},
        }
        let before = all_filled_connected(s, list, height, (n - 1) as nat).state;
        let moved = coins_moved(before, txs[n - 1]).state;
        assert(list[n - 1].transaction == txs[n - 1]);
        assert(moved.swaps == before.swaps);
        if creates(txs[n - 1], id) {
            if is_claimed(txs, id, n - 1, n) {
                let p = choose|p: int| n - 1 <= p < n && claims(#[trigger] txs[p], id);
                assert(p == n - 1);
            }
        }
        match txs[n - 1].data {
            TxDataView::SwapClaim { swap_id, .. } => {
                assert(before.swaps[swap_id].id == swap_id);
            },
            _ => {},
        }
    } else {
        assert(!is_claimed(txs, id, 0, 0));
    }
}

/// Where each swap stands once a checked block is connected. One that the block
/// makes is as the last transaction that makes it tells, pending, or completed if a
/// later one claims it. One that the block does not make is as it was, completed if
/// a transaction claims it; to be claimed it has to be there.
pub proof fn connecting_makes_and_completes_swaps(
    s: StateView,
    header: HeaderView,
    body: BodyView,
    pre: PrevalidatedBlockView,
    id: SwapId,
)
    requires
        swaps_by_id(s),
        is_prepared(s, body, pre),
        prevalidated_connected(s, header, body, pre).fault is None,
    ensures
        ({
            let txs = body.transactions;
            let n = txs.len();
            let after = prevalidated_connected(s, header, body, pre).state;
            match last_create(txs, id, n) {
                Some(i) => {
                    &&& after.swaps.contains_key(id)
                    &&& is_as_told(
                        after.swaps[id],
                        txs[i],
                        pre.filled_transactions[i].spent_utxos,
                        pre.next_height,
                    )
                    &&& after.swaps[id].state == if is_claimed(txs, id, i, n) {
                        SwapState::Completed
                    } else {
                        SwapState::Pending
                    }
                },
                None => {
                    &&& after.swaps.contains_key(id) <==> s.swaps.contains_key(id)
                    &&& is_claimed(txs, id, 0, n) ==> s.swaps.contains_key(id)
                    &&& s.swaps.contains_key(id) ==> after.swaps[id] == (SwapView {
                        state: if is_claimed(txs, id, 0, n) {
                            SwapState::Completed
                        } else {
                            s.swaps[id].state
                        },
                        ..s.swaps[id]
                    })
                },
            }
        }),
{
    let txs = body.transactions;
    let made = coinbase_made(s, pre.computed_merkle_root, body.coinbase);
    swap_stands(made, txs, pre.filled_transactions, pre.next_height, id, txs.len());
}

/// Connecting a block that was accepted makes the swap that its last transaction on
/// that swap describes: field by field as the transaction tells, at the height of
/// the block, for the owner of the unspent output that its first input names, and
/// pending.
pub proof fn accepted_blocks_make_swaps(
    s: StateView,
    header: HeaderView,
    body: BodyView,
    facts: BodyFactsView,
    i: int,
    id: SwapId,
)
    requires
        swaps_by_id(s),
        prevalidated(s, header, body, facts) is Ok,
        prevalidated_connected(
            s,
            header,
            body,
            prevalidated(s, header, body, facts)->Ok_0,
        ).fault is None,
        0 <= i < body.transactions.len(),
        creates(body.transactions[i], id),
        forall|p: int|
            i < p < body.transactions.len() ==> !creates(#[trigger] body.transactions[p], id)
                && !claims(body.transactions[p], id),
    ensures
        ({
            let tx = body.transactions[i];
            let after = prevalidated_connected(
                s,
                header,
                body,
                prevalidated(s, header, body, facts)->Ok_0,
            ).state;
            let height = match s.height {
                Some(height) => height + 1,
                None => 0,
            };
            &&& after.height is Some && after.height->0 == height
            &&& after.swaps.contains_key(id)
            &&& after.swaps[id].state == SwapState::Pending
            &&& is_as_told(
                after.swaps[id],
                tx,
                tx.inputs.map_values(|input: (OutPoint, Hash256)| s.utxos[input.0]),
                height as u32,
            )
        }),
{
    let txs = body.transactions;
    let tx = txs[i];
    let pre = prevalidated(s, header, body, facts)->Ok_0;
    accepted_blocks_keep_all_rules(s, header, body, facts);
    accepted_blocks_are_prepared_in_full(s, header, body, facts);
    connecting_makes_and_completes_swaps(s, header, body, pre, id);
    last_is(txs, id, i, txs.len());
    if is_claimed(txs, id, i, txs.len()) {
        let p = choose|p: int| i <= p < txs.len() && claims(#[trigger] txs[p], id);
        assert(p != i);
    }
    assert(pre.filled_transactions[i].transaction == tx);
    let spent = tx.inputs.map_values(|input: (OutPoint, Hash256)| s.utxos[input.0]);
    assert forall|j: int| 0 <= j < tx.inputs.len() implies #[trigger] spent[j]
        == pre.filled_transactions[i].spent_utxos[j] by {
        let input = txs[i].inputs[j];
    }
    assert(spent =~= pre.filled_transactions[i].spent_utxos);
}

/// A transaction that makes a swap, after which none does, is the last.
proof fn last_is(txs: Seq<TransactionView>, id: SwapId, i: int, n: nat)
    requires
        0 <= i < n,
        creates(txs[i], id),
        forall|p: int| i < p < n ==> !creates(#[trigger] txs[p], id),
    ensures
        last_create(txs, id, n) == Some(i),
    decreases n,
{
    if i < n - 1 {
        assert(!creates(txs[n - 1], id));
        last_is(txs, id, i, (n - 1) as nat);
    }
}

/// Where the transactions before it were connected, a transaction that claims a
/// swap that is not there is turned down; so is one that claims a swap without a
/// recipient and names none, and the swap is ready to be claimed then. A swap that
/// would run out at a height that cannot be counted halts.
pub proof fn bad_claims_are_turned_down(
    s: StateView,
    header: HeaderView,
    body: BodyView,
    pre: PrevalidatedBlockView,
    i: int,
)
    requires
        s.tip == header.prev_side_hash,
        pre.computed_merkle_root == header.merkle_root,
        0 <= i < pre.filled_transactions.len(),
        all_filled_connected(
            coinbase_made(s, header.merkle_root, body.coinbase),
            pre.filled_transactions,
            pre.next_height,
            i as nat,
        ).fault is None,
        coins_moved(
            all_filled_connected(
                coinbase_made(s, header.merkle_root, body.coinbase),
                pre.filled_transactions,
                pre.next_height,
                i as nat,
            ).state,
            pre.filled_transactions[i].transaction,
        ).fault is None,
    ensures
        ({
            let before = all_filled_connected(
                coinbase_made(s, header.merkle_root, body.coinbase),
                pre.filled_transactions,
                pre.next_height,
                i as nat,
            ).state;
            let done = prevalidated_connected(s, header, body, pre);
            match pre.filled_transactions[i].transaction.data {
                TxDataView::SwapClaim { swap_id, l2_claimer_address } => {
                    &&& !before.swaps.contains_key(swap_id) ==> done.fault == Some(
                        Fault::Error(Error::SwapNotFound { swap_id }),
                    ) && done.state.swaps == before.swaps
                    &&& before.swaps.contains_key(swap_id) && before.swaps[swap_id].id == swap_id
                        && before.swaps[swap_id].l2_recipient is None
                        && l2_claimer_address is None ==> done.fault == Some(
                        Fault::Error(
                            Error::InvalidTransaction(
                                TransactionFault::OpenSwapClaimWithoutClaimer,
                            ),
                        ),
                    ) && done.state.swaps == before.swaps.insert(
                        swap_id,
                        SwapView { state: SwapState::ReadyToClaim, ..before.swaps[swap_id] },
                    )
                },
                TxDataView::SwapCreate { parent_chain, .. } => pre.next_height
                    + parent_chain.default_swap_expiration_blocks > u32::MAX ==> done.fault == Some(
                    Fault::Halt(Halt::OutOfRange),
                ),
                TxDataView::Regular => true,
            }
        }),
{
    let made = coinbase_made(s, header.merkle_root, body.coinbase);
    let list = pre.filled_transactions;
    let before = all_filled_connected(made, list, pre.next_height, i as nat).state;
    let next = all_filled_connected(made, list, pre.next_height, (i + 1) as nat);
    if next.fault is Some {
        connecting_stops(made, list, pre.next_height, (i + 1) as nat, list.len());
    }
    match list[i].transaction.data {
        TxDataView::SwapClaim { swap_id, .. } => {
            let ready = SwapView { state: SwapState::ReadyToClaim, ..before.swaps[swap_id] };
            if before.swaps.contains_key(swap_id) && before.swaps[swap_id] == ready {
                assert(before.swaps.insert(swap_id, ready) =~= before.swaps);
            }
        },
        _ => {},
    }
}

/// A transaction that is turned down ends connecting.
pub(crate) proof fn connecting_stops(
    s: StateView,
    list: Seq<FilledTransactionView>,
    height: u32,
    m: nat,
    n: nat,
)
    requires
        m <= n,
        all_filled_connected(s, list, height, m).fault is Some,
    ensures
        all_filled_connected(s, list, height, n) == all_filled_connected(s, list, height, m),
    decreases n - m,
{
    if m < n {
        connecting_stops(s, list, height, m, (n - 1) as nat);
    }
}

// Locks.
/// A transaction makes a swap and, under this outpoint, an output set aside for
/// it.
pub open spec fn sets_aside(tx: TransactionView, k: OutPoint) -> bool {
    tx.data is SwapCreate && exists|j: int|
        0 <= j < tx.outputs.len() && (#[trigger] tx.outputs[j]).content is SwapPending && k == (
        OutPoint::Regular { txid: tx.txid, vout: j as u32 })
}

/// The swap that a transaction is on.
pub open spec fn swap_of(tx: TransactionView) -> Option<SwapId> {
    match tx.data {
        TxDataView::Regular => None,
        TxDataView::SwapCreate { swap_id, .. } => Some(swap_id),
        TxDataView::SwapClaim { swap_id, .. } => Some(swap_id),
    }
}

/// A transaction claims a swap and spends this outpoint.
pub open spec fn claims_with(tx: TransactionView, id: SwapId, k: OutPoint) -> bool {
    claims(tx, id) && exists|j: int| 0 <= j < tx.inputs.len() && (#[trigger] tx.inputs[j]).0 == k
}

/// The last of the first `n` transactions that sets an output aside under this
/// outpoint.
pub open spec fn last_set_aside(txs: Seq<TransactionView>, k: OutPoint, n: nat) -> Option<int>
    decreases n,
{
    if n == 0 {
        None
    } else if sets_aside(txs[n - 1], k) {
        Some(n - 1)
    } else {
        last_set_aside(txs, k, (n - 1) as nat)
    }
}

/// One of the transactions from `from` on, up to `n`, claims the swap with this
/// outpoint.
pub open spec fn is_claimed_with(
    txs: Seq<TransactionView>,
    id: SwapId,
    k: OutPoint,
    from: int,
    n: nat,
) -> bool {
    exists|p: int| from <= p < n && claims_with(#[trigger] txs[p], id, k)
}

/// One more transaction may claim a swap with an outpoint.
proof fn one_more_claims_with(
    txs: Seq<TransactionView>,
    id: SwapId,
    k: OutPoint,
    from: int,
    n: nat,
)
    requires
        0 < n,
        from < n,
    ensures
        is_claimed_with(txs, id, k, from, n) <==> is_claimed_with(
            txs,
            id,
            k,
            from,
            (n - 1) as nat,
        ) || claims_with(txs[n - 1], id, k),
{
    if is_claimed_with(txs, id, k, from, n) && !claims_with(txs[n - 1], id, k) {
        let p = choose|p: int| from <= p < n && claims_with(#[trigger] txs[p], id, k);
        assert(claims_with(txs[p], id, k));
    }
    if is_claimed_with(txs, id, k, from, (n - 1) as nat) {
        let p = choose|p: int| from <= p < n - 1 && claims_with(#[trigger] txs[p], id, k);
        assert(claims_with(txs[p], id, k));
    }
}

/// The last transaction that sets an output aside is one of them.
proof fn last_set_aside_is(txs: Seq<TransactionView>, k: OutPoint, n: nat)
    ensures
        last_set_aside(txs, k, n) matches Some(i) ==> 0 <= i < n && sets_aside(txs[i], k),
    decreases n,
{
    if n > 0 {
        last_set_aside_is(txs, k, (n - 1) as nat);
    }
}

/// Locking the first `n` outputs, seen at one outpoint.
proof fn locked_at_outpoint(
    locks: Map<OutPoint, SwapId>,
    tx: TransactionView,
    swap_id: SwapId,
    n: nat,
    k: OutPoint,
)
    requires
        n <= tx.outputs.len(),
    ensures
        ({
            let after = locks_with(locks, Origin::Transaction(tx.txid), tx.outputs, swap_id, n);
            if exists|j: int|
                0 <= j < n && (#[trigger] tx.outputs[j]).content is SwapPending && k == (
                OutPoint::Regular { txid: tx.txid, vout: j as u32 }) {
                after.contains_key(k) && after[k] == swap_id
            } else {
                &&& after.contains_key(k) <==> locks.contains_key(k)
                &&& after.contains_key(k) ==> after[k] == locks[k]
            }
        }),
    decreases n,
{
    if n > 0 {
        locked_at_outpoint(locks, tx, swap_id, (n - 1) as nat, k);
        if exists|j: int|
            0 <= j < n - 1 && (#[trigger] tx.outputs[j]).content is SwapPending && k == (
            OutPoint::Regular { txid: tx.txid, vout: j as u32 }) {
            let j = choose|j: int|
                0 <= j < n - 1 && (#[trigger] tx.outputs[j]).content is SwapPending && k == (
                OutPoint::Regular { txid: tx.txid, vout: j as u32 });
            assert(tx.outputs[j].content is SwapPending);
        }
        let last = tx.outputs[n - 1];
    }
}

/// What is locked under an outpoint after some transactions.
spec fn lock_stands(
    s: StateView,
    after: StateView,
    txs: Seq<TransactionView>,
    k: OutPoint,
    n: nat,
) -> bool {
    let before = s.locked_swap_outputs;
    let now = after.locked_swap_outputs;
    match last_set_aside(txs, k, n) {
        Some(i) => {
            let id = swap_of(txs[i])->0;
            &&& now.contains_key(k) <==> !is_claimed_with(txs, id, k, i, n)
            &&& now.contains_key(k) ==> now[k] == id
        },
        None => {
            &&& now.contains_key(k) <==> before.contains_key(k) && !is_claimed_with(
                txs,
                before[k],
                k,
                0,
                n,
            )
            &&& now.contains_key(k) ==> now[k] == before[k]
        },
    }
}

/// What is locked under an outpoint after the first `n` transactions.
proof fn lock_stands_after(
    s: StateView,
    txs: Seq<TransactionView>,
    list: Seq<FilledTransactionView>,
    height: u32,
    k: OutPoint,
    n: nat,
)
    requires
        n <= txs.len(),
        list.len() == txs.len(),
        forall|i: int| 0 <= i < txs.len() ==> (#[trigger] list[i]).transaction == txs[i],
        all_filled_connected(s, list, height, n).fault is None,
    ensures
        lock_stands(s, all_filled_connected(s, list, height, n).state, txs, k, n),
    decreases n,
{
    if n > 0 {
        lock_stands_after(s, txs, list, height, k, (n - 1) as nat);
        last_set_aside_is(txs, k, (n - 1) as nat);
        let tx = txs[n - 1];
        let before = all_filled_connected(s, list, height, (n - 1) as nat).state;
        assert(list[n - 1].transaction == tx);
        one_more_claims_with(txs, s.locked_swap_outputs[k], k, 0, n);
        match last_set_aside(txs, k, (n - 1) as nat) {
            Some(i) => {
                one_more_claims_with(txs, swap_of(txs[i])->0, k, i, n);
            },
            None => {},
        }
        match tx.data {
            TxDataView::SwapCreate { swap_id, .. } => {
                locked_at_outpoint(
                    before.locked_swap_outputs,
                    tx,
                    swap_id,
                    tx.outputs.len(),
                    k,
                );
                if sets_aside(tx, k) && is_claimed_with(txs, swap_id, k, n - 1, n) {
                    let p = choose|p: int|
                        n - 1 <= p < n && claims_with(#[trigger] txs[p], swap_id, k);
                    assert(p == n - 1);
                }
            },
            TxDataView::SwapClaim { swap_id, .. } => {
                assert(names(tx.inputs, k) <==> claims_with(tx, swap_id, k));
            },
            _ => {},
        }
    } else {
        assert(!is_claimed_with(txs, s.locked_swap_outputs[k], k, 0, 0));
    }
}

/// What is locked once a checked block is connected. An output that a transaction
/// sets aside for the swap that it makes is locked to that swap, until the swap is
/// claimed with it. Other outputs stay locked as they were, until the swap that they
/// are locked to is claimed with them.
pub proof fn connecting_locks_and_releases(
    s: StateView,
    header: HeaderView,
    body: BodyView,
    pre: PrevalidatedBlockView,
    k: OutPoint,
)
    requires
        is_prepared(s, body, pre),
        prevalidated_connected(s, header, body, pre).fault is None,
    ensures
        ({
            let txs = body.transactions;
            let n = txs.len();
            let before = s.locked_swap_outputs;
            let now = prevalidated_connected(s, header, body, pre).state.locked_swap_outputs;
            match last_set_aside(txs, k, n) {
                Some(i) => {
                    let id = swap_of(txs[i])->0;
                    &&& now.contains_key(k) <==> !is_claimed_with(txs, id, k, i, n)
                    &&& now.contains_key(k) ==> now[k] == id
                },
                None => {
                    &&& now.contains_key(k) <==> before.contains_key(k) && !is_claimed_with(
                        txs,
                        before[k],
                        k,
                        0,
                        n,
                    )
                    &&& now.contains_key(k) ==> now[k] == before[k]
                },
            }
        }),
{
    let txs = body.transactions;
    let made = coinbase_made(s, pre.computed_merkle_root, body.coinbase);
    lock_stands_after(made, txs, pre.filled_transactions, pre.next_height, k, txs.len());
}

// Taking back.
/// Taking a transaction back does to swaps what undoing it does.
proof fn undone_swaps(u: Undoing, tx: TransactionView)
    ensures
        transaction_undone(u, tx).state.swaps == swap_disconnected(u.state, tx).state.swaps,
        transaction_undone(u, tx).state.locked_swap_outputs == swap_disconnected(
            u.state,
            tx,
        ).state.locked_swap_outputs,
        swap_disconnected(u.state, tx).fault is Some ==> transaction_undone(u, tx).fault is Some,
{
    let swap = swap_disconnected(u.state, tx);
    let first = Undoing { state: swap.state, diff: u.diff, fault: swap.fault };
    let origin = Origin::Transaction(tx.txid);
    let second = outputs_deleted(first, origin, tx.outputs, tx.outputs.len());
    outputs_deleted_keeps(first, origin, tx.outputs, tx.outputs.len());
    inputs_unspent_keeps(second, tx.inputs, tx.inputs.len());
}

/// Where a swap stands once the first `n` transactions are taken back.
proof fn swap_stands_back(u: Undoing, txs: Seq<TransactionView>, id: SwapId, n: nat)
    requires
        n <= txs.len(),
        swaps_by_id(u.state),
        transactions_undone(u, txs, n).fault is None,
    ensures
        ({
            let before = u.state.swaps;
            let after = transactions_undone(u, txs, n).state.swaps;
            if last_create(txs, id, n) is Some {
                !after.contains_key(id)
            } else {
                &&& after.contains_key(id) <==> before.contains_key(id)
                &&& is_claimed(txs, id, 0, n) ==> before.contains_key(id)
                &&& before.contains_key(id) ==> after[id] == (SwapView {
                    state: if is_claimed(txs, id, 0, n) && before[id].state is Completed {
                        SwapState::ReadyToClaim
                    } else {
                        before[id].state
                    },
                    ..before[id]
                })
            }
        }),
    decreases n,
{
    reveal_with_fuel(transactions_undone, 2);
    if n > 0 && u.fault is None {
        let tx = txs[n - 1];
        let next = transaction_undone(u, tx);
        undone_swaps(u, tx);
        one_more_claims(txs, id, 0, n);
        assert(swap_disconnected(u.state, tx).fault is None);
        match tx.data {
            TxDataView::SwapClaim { swap_id, .. } => {
                assert(u.state.swaps[swap_id].id == swap_id);
            },
            _ => {},
        }
        swap_stands_back(next, txs, id, (n - 1) as nat);
    } else {
        assert(n == 0 ==> !is_claimed(txs, id, 0, n));
    }
}

/// Where each swap stands once a block is disconnected. One that the block made is
/// gone. One that it claimed, and that is completed, is ready to be claimed again.
/// All others are as they were.
pub proof fn disconnecting_takes_swaps_back(
    s: StateView,
    header: HeaderView,
    body: BodyView,
    id: SwapId,
)
    requires
        swaps_by_id(s),
        tip_disconnected(s, header, body).fault is None,
    ensures
        ({
            let txs = body.transactions;
            let after = tip_disconnected(s, header, body).state.swaps;
            if last_create(txs, id, txs.len()) is Some {
                !after.contains_key(id)
            } else {
                &&& after.contains_key(id) <==> s.swaps.contains_key(id)
                &&& is_claimed(txs, id, 0, txs.len()) ==> s.swaps.contains_key(id)
                &&& s.swaps.contains_key(id) ==> after[id] == (SwapView {
                    state: if is_claimed(txs, id, 0, txs.len())
                        && s.swaps[id].state is Completed {
                        SwapState::ReadyToClaim
                    } else {
                        s.swaps[id].state
                    },
                    ..s.swaps[id]
                })
            }
        }),
{
    let u = Undoing { state: s, diff: DiffView::none(), fault: None };
    body_keeps_swaps(s, header, body);
    swap_stands_back(u, body.transactions, id, body.transactions.len());
}

/// Deleting a coinbase leaves swaps and locks alone, and comes after the
/// transactions.
proof fn body_keeps_swaps(s: StateView, header: HeaderView, body: BodyView)
    requires
        tip_disconnected(s, header, body).fault is None,
    ensures
        ({
            let u = Undoing { state: s, diff: DiffView::none(), fault: None };
            let undone = transactions_undone(u, body.transactions, body.transactions.len());
            let after = tip_disconnected(s, header, body).state;
            &&& undone.fault is None
            &&& after.swaps == undone.state.swaps
            &&& after.locked_swap_outputs == undone.state.locked_swap_outputs
        }),
{
    let u = Undoing { state: s, diff: DiffView::none(), fault: None };
    let undone = transactions_undone(u, body.transactions, body.transactions.len());
    let origin = Origin::Coinbase(header.merkle_root);
    outputs_deleted_keeps(undone, origin, body.coinbase, body.coinbase.len());
    assert(body_undone(s, header, body).fault is None);
    if undone.fault is Some {
        assert(outputs_deleted(undone, origin, body.coinbase, body.coinbase.len()) == undone);
    }
}

/// A transaction spends this outpoint to claim a swap.
pub open spec fn claims_by(tx: TransactionView, k: OutPoint) -> bool {
    tx.data is SwapClaim && exists|j: int|
        0 <= j < tx.inputs.len() && (#[trigger] tx.inputs[j]).0 == k
}

/// The last of the first `n` transactions that claims a swap with this outpoint.
pub open spec fn last_claim_by(txs: Seq<TransactionView>, k: OutPoint, n: nat) -> Option<int>
    decreases n,
{
    if n == 0 {
        None
    } else if claims_by(txs[n - 1], k) {
        Some(n - 1)
    } else {
        last_claim_by(txs, k, (n - 1) as nat)
    }
}

/// One of the first `n` transactions sets an output aside for this swap under this
/// outpoint.
pub open spec fn is_set_aside_for(
    txs: Seq<TransactionView>,
    id: SwapId,
    k: OutPoint,
    n: nat,
) -> bool {
    exists|p: int|
        0 <= p < n && sets_aside(#[trigger] txs[p], k) && swap_of(txs[p]) == Some(id)
}

/// Locking the first `n` inputs, seen at one outpoint.
proof fn inputs_locked_at(
    locks: Map<OutPoint, SwapId>,
    inputs: Seq<(OutPoint, Hash256)>,
    swap_id: SwapId,
    n: nat,
    k: OutPoint,
)
    requires
        n <= inputs.len(),
    ensures
        ({
            let after = inputs_locked(locks, inputs, swap_id, n);
            let named = exists|j: int| 0 <= j < n && (#[trigger] inputs[j]).0 == k;
            &&& locks.contains_key(k) ==> after.contains_key(k) && after[k] == locks[k]
            &&& !locks.contains_key(k) ==> (after.contains_key(k) <==> named)
            &&& !locks.contains_key(k) && named ==> after[k] == swap_id
        }),
    decreases n,
{
    if n > 0 {
        let outpoint = inputs[n - 1].0;
        let next = if locks.contains_key(outpoint) {
            locks
        } else {
            locks.insert(outpoint, swap_id)
        };
        inputs_locked_at(next, inputs, swap_id, (n - 1) as nat, k);
        if exists|j: int| 0 <= j < n - 1 && (#[trigger] inputs[j]).0 == k {
            let j = choose|j: int| 0 <= j < n - 1 && (#[trigger] inputs[j]).0 == k;
            assert(inputs[j].0 == k);
        }
    }
}

/// One more transaction may set an output aside.
proof fn one_more_sets_aside(txs: Seq<TransactionView>, id: SwapId, k: OutPoint, n: nat)
    requires
        0 < n,
    ensures
        is_set_aside_for(txs, id, k, n) <==> is_set_aside_for(txs, id, k, (n - 1) as nat) || (
        sets_aside(txs[n - 1], k) && swap_of(txs[n - 1]) == Some(id)),
{
    if is_set_aside_for(txs, id, k, n) && !(sets_aside(txs[n - 1], k) && swap_of(txs[n - 1])
        == Some(id)) {
        let p = choose|p: int|
            0 <= p < n && sets_aside(#[trigger] txs[p], k) && swap_of(txs[p]) == Some(id);
        assert(sets_aside(txs[p], k));
    }
    if is_set_aside_for(txs, id, k, (n - 1) as nat) {
        let p = choose|p: int|
            0 <= p < n - 1 && sets_aside(#[trigger] txs[p], k) && swap_of(txs[p]) == Some(id);
        assert(sets_aside(txs[p], k));
    }
}

/// What is locked under an outpoint once the first `n` transactions are taken
/// back.
proof fn lock_stands_back(u: Undoing, txs: Seq<TransactionView>, k: OutPoint, n: nat)
    requires
        n <= txs.len(),
        transactions_undone(u, txs, n).fault is None,
    ensures
        ({
            let before = u.state.locked_swap_outputs;
            let after = transactions_undone(u, txs, n).state.locked_swap_outputs;
            &&& last_claim_by(txs, k, n) is None ==> {
                &&& after.contains_key(k) <==> before.contains_key(k) && !is_set_aside_for(
                    txs,
                    before[k],
                    k,
                    n,
                )
                &&& after.contains_key(k) ==> after[k] == before[k]
            }
            &&& last_set_aside(txs, k, n) is None ==> {
                &&& before.contains_key(k) ==> after.contains_key(k) && after[k] == before[k]
                &&& !before.contains_key(k) ==> (after.contains_key(k) <==> last_claim_by(
                    txs,
                    k,
                    n,
                ) is Some)
                &&& !before.contains_key(k) && after.contains_key(k) ==> Some(after[k]) == swap_of(
                    txs[last_claim_by(txs, k, n)->0],
                )
            }
        }),
    decreases n,
{
    reveal_with_fuel(transactions_undone, 2);
    let before = u.state.locked_swap_outputs;
    if n > 0 && u.fault is None {
        let tx = txs[n - 1];
        let next = transaction_undone(u, tx);
        undone_swaps(u, tx);
        one_more_sets_aside(txs, before[k], k, n);
        assert(swap_disconnected(u.state, tx).fault is None);
        match tx.data {
            TxDataView::SwapCreate { swap_id, .. } => {
                let origin = Origin::Transaction(tx.txid);
                assert(set_aside(origin, tx.outputs, k) <==> sets_aside(tx, k)) by {
                    if set_aside(origin, tx.outputs, k) {
                        let j = choose|j: int|
                            0 <= j < tx.outputs.len() && (#[trigger] tx.outputs[j]).content
                                is SwapPending && origin.outpoint(j) == k;
                        assert(tx.outputs[j].content is SwapPending);
                    }
                    if sets_aside(tx, k) {
                        let j = choose|j: int|
                            0 <= j < tx.outputs.len() && (#[trigger] tx.outputs[j]).content
                                is SwapPending && k == (OutPoint::Regular {
                                txid: tx.txid,
                                vout: j as u32,
                            });
                        assert(tx.outputs[j].content is SwapPending);
                    }
                }
            },
            TxDataView::SwapClaim { swap_id, .. } => {
                inputs_locked_at(before, tx.inputs, swap_id, tx.inputs.len(), k);
            },
            _ => {},
        }
        lock_stands_back(next, txs, k, (n - 1) as nat);
    } else {
        assert(n == 0 ==> !is_set_aside_for(txs, before[k], k, n));
    }
}

/// What is locked once a block is disconnected. An output that is not one that the
/// block claimed a swap with is locked as it was, but for those that the block set
/// aside for the swap that they are locked to. An output that the block did not set
/// aside is locked as it was, and if it was not, to the swap that the block claimed
/// with it last.
pub proof fn disconnecting_locks_again(
    s: StateView,
    header: HeaderView,
    body: BodyView,
    k: OutPoint,
)
    requires
        tip_disconnected(s, header, body).fault is None,
    ensures
        ({
            let txs = body.transactions;
            let n = txs.len();
            let before = s.locked_swap_outputs;
            let after = tip_disconnected(s, header, body).state.locked_swap_outputs;
            &&& last_claim_by(txs, k, n) is None ==> {
                &&& after.contains_key(k) <==> before.contains_key(k) && !is_set_aside_for(
                    txs,
                    before[k],
                    k,
                    n,
                )
                &&& after.contains_key(k) ==> after[k] == before[k]
            }
            &&& last_set_aside(txs, k, n) is None ==> {
                &&& before.contains_key(k) ==> after.contains_key(k) && after[k] == before[k]
                &&& !before.contains_key(k) ==> (after.contains_key(k) <==> last_claim_by(
                    txs,
                    k,
                    n,
                ) is Some)
                &&& !before.contains_key(k) && after.contains_key(k) ==> Some(after[k]) == swap_of(
                    txs[last_claim_by(txs, k, n)->0],
                )
            }
        }),
{
    let u = Undoing { state: s, diff: DiffView::none(), fault: None };
    body_keeps_swaps(s, header, body);
    lock_stands_back(u, body.transactions, k, body.transactions.len());
}

/// Where a block is the tip and its last transaction claims a swap that is not there,
/// disconnecting the block is turned down.
pub proof fn claims_need_their_swap_to_be_taken_back(
    s: StateView,
    header: HeaderView,
    body: BodyView,
    id: SwapId,
)
    requires
        s.tip == Some(header.hash),
        body.transactions.len() > 0,
        claims(body.transactions[body.transactions.len() - 1], id),
        !s.swaps.contains_key(id),
    ensures
        tip_disconnected(s, header, body).fault == Some(
            Fault::Error(Error::SwapNotFound { swap_id: id }),
        ),
{
    reveal_with_fuel(transactions_undone, 2);
    let txs = body.transactions;
    let tx = txs[txs.len() - 1];
    let u = Undoing { state: s, diff: DiffView::none(), fault: None };
    let next = transaction_undone(u, tx);
    let why = Some(Fault::Error(Error::SwapNotFound { swap_id: id }));
    assert(swap_disconnected(s, tx).fault == why);
    assert(next.fault == why);
    assert(transactions_undone(u, txs, txs.len()) == next);
    assert(outputs_deleted(
        next,
        Origin::Coinbase(header.merkle_root),
        body.coinbase,
        body.coinbase.len(),
    ) == next);
}

} // verus!
