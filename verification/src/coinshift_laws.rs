//! What holds of swaps, and of following their payments.
use vstd::prelude::*;

use crate::accumulator::DiffView;
use crate::block_model::{
    all_filled_connected, coinbase_made, coins_moved_keeps, connected, inputs_unspent_keeps,
    outputs_deleted, outputs_deleted_keeps, prevalidated_connected, swap_disconnected,
    tip_disconnected, transaction_undone, transactions_undone, PrevalidatedBlockView, Undoing,
};
use crate::coinshift::{
    all_swaps, all_unlocked, coinshift_processed, has_expired, is_waiting, swap_processed,
    swap_updated, swaps_processed, L1MatchView,
};
use crate::error::Rejection;
use crate::ids::{BlockHash, MerkleRoot, SwapId};
use crate::state::StateView;
use crate::swap::{unset, ParentChainType, SwapState, SwapView};
use crate::table::{finite_is_listed, lists, ordered, Key};
use crate::types::{BodyView, FilledTransactionView, HeaderView, Origin, OutPoint, TransactionView};

verus! {

/// Each swap is kept under its own id, and there are finitely many.
pub open spec fn swaps_by_id(s: StateView) -> bool {
    &&& s.swaps.dom().finite()
    &&& forall|id: SwapId| #[trigger] s.swaps.contains_key(id) ==> s.swaps[id].id == id
}

/// Two swaps were paid by the same payment.
pub open spec fn same_payment(a: SwapView, b: SwapView) -> bool {
    a.parent_chain == b.parent_chain && a.l1_txid == b.l1_txid && !unset(a.l1_txid)
}

/// No two swaps were paid by the same payment.
pub open spec fn payments_unique(s: StateView) -> bool {
    forall|a: SwapId, b: SwapId| #[trigger]
        s.swaps.contains_key(a) && #[trigger] s.swaps.contains_key(b) && a != b ==> !same_payment(
            s.swaps[a],
            s.swaps[b],
        )
}

/// A search that finds a swap finds one that is there; one that finds none, none
/// is there.
pub(crate) proof fn paid_by_finds(
    s: StateView,
    chain: ParentChainType,
    txid: Seq<u8>,
    ids: Seq<SwapId>,
)
    ensures
        match s.paid_by(chain, txid, ids) {
            Some(swap) => exists|i: int|
                0 <= i < ids.len() && swap == s.swaps[#[trigger] ids[i]] && swap.parent_chain
                    == chain && swap.l1_txid == txid,
            None => forall|i: int|
                0 <= i < ids.len() ==> !(s.swaps[#[trigger] ids[i]].parent_chain == chain
                    && s.swaps[ids[i]].l1_txid == txid),
        },
    decreases ids.len(),
{
    if ids.len() > 0 {
        let rest = ids.drop_first();
        paid_by_finds(s, chain, txid, rest);
        assert(forall|i: int| 0 <= i < rest.len() ==> #[trigger] rest[i] == ids[i + 1]);
        let swap = s.swaps[ids[0]];
        if swap.parent_chain == chain && swap.l1_txid == txid {
        } else if s.paid_by(chain, txid, rest) is Some {
            let found = s.paid_by(chain, txid, rest)->0;
            let i = choose|i: int|
                0 <= i < rest.len() && found == s.swaps[#[trigger] rest[i]] && found.parent_chain
                    == chain && found.l1_txid == txid;
            assert(found == s.swaps[ids[i + 1]]);
        } else {
            assert forall|i: int| 0 <= i < ids.len() implies !(s.swaps[
                #[trigger] ids[i]].parent_chain == chain && s.swaps[ids[i]].l1_txid == txid) by {
                if i > 0 {
                    assert(rest[i - 1] == ids[i]);
                }
            }
        }
    }
}

/// A payment that is taken for a swap was not that of another.
proof fn update_keeps_unique(
    s: StateView,
    swap: SwapView,
    matches: Seq<L1MatchView>,
    block_hash: BlockHash,
    block_height: u32,
    other: SwapId,
)
    requires
        swaps_by_id(s),
        payments_unique(s),
        s.swaps.contains_key(swap.id),
        s.swaps[swap.id] == swap,
        s.swaps.contains_key(other),
        other != swap.id,
        swap_updated(s, swap, matches, block_hash, block_height) matches Ok(Some(_)),
    ensures
        swap_updated(s, swap, matches, block_hash, block_height)->Ok_0->0.id == swap.id,
        !same_payment(
            swap_updated(s, swap, matches, block_hash, block_height)->Ok_0->0,
            s.swaps[other],
        ),
        !same_payment(
            s.swaps[other],
            swap_updated(s, swap, matches, block_hash, block_height)->Ok_0->0,
        ),
{
    let updated = swap_updated(s, swap, matches, block_hash, block_height)->Ok_0->0;
    let ids = ordered(s.swaps.dom());
    finite_is_listed(s.swaps.dom());
    if unset(swap.l1_txid) {
        paid_by_finds(s, swap.parent_chain, updated.l1_txid, ids);
        let found = s.swap_by_l1_txid(swap.parent_chain, updated.l1_txid);
        if found is Some {
            let i = choose|i: int|
                0 <= i < ids.len() && found->0 == s.swaps[#[trigger] ids[i]]
                    && found->0.parent_chain == swap.parent_chain && found->0.l1_txid
                    == updated.l1_txid;
            assert(ids.contains(ids[i]));
            assert(s.swaps.contains_key(ids[i]));
            assert(found->0 == swap);
        } else {
            assert(s.swaps.dom().contains(other));
            assert(ids.contains(other));
            let i = choose|i: int| 0 <= i < ids.len() && ids[i] == other;
            assert(s.swaps[ids[i]] == s.swaps[other]);
        }
    } else {
        assert(s.swaps.contains_key(swap.id) && s.swaps.contains_key(other));
        assert(!same_payment(s.swaps[swap.id], s.swaps[other]));
        assert(!same_payment(s.swaps[other], s.swaps[swap.id]));
    }
}

/// What looking at one swap keeps.
pub(crate) proof fn processing_keeps(
    s: StateView,
    swap: SwapView,
    block_height: u32,
    block_hash: BlockHash,
    lookups: Map<SwapId, Seq<L1MatchView>>,
)
    requires
        swaps_by_id(s),
        s.swaps.contains_key(swap.id),
        s.swaps[swap.id] == swap,
    ensures
        ({
            let after = swap_processed(s, swap, block_height, block_hash, lookups);
            &&& swaps_by_id(after)
            &&& after.swaps.dom() == s.swaps.dom()
            &&& forall|id: SwapId| #[trigger]
                s.swaps.contains_key(id) && id != swap.id ==> after.swaps[id] == s.swaps[id]
            &&& !is_waiting(swap) ==> after == s
            &&& is_waiting(swap) && has_expired(swap, block_height) ==> after.swaps[swap.id]
                == swap.in_state(SwapState::Cancelled) && after.locked_swap_outputs
                == all_unlocked(s.locked_swap_outputs, swap.id)
            &&& !(is_waiting(swap) && has_expired(swap, block_height))
                ==> after.locked_swap_outputs == s.locked_swap_outputs
            &&& payments_unique(s) ==> payments_unique(after)
        }),
{
    let after = swap_processed(s, swap, block_height, block_hash, lookups);
    if is_waiting(swap) && !has_expired(swap, block_height) && after != s {
        let updated = swap_updated(
            s,
            swap,
            lookups[swap.id],
            block_hash,
            block_height,
        )->Ok_0->0;
        assert(after.swaps == s.swaps.insert(swap.id, updated));
        assert(updated.id == swap.id);
    }
    assert(after.swaps.dom() =~= s.swaps.dom());
    if payments_unique(s) {
        assert forall|a: SwapId, b: SwapId| #[trigger]
            after.swaps.contains_key(a) && #[trigger] after.swaps.contains_key(b) && a
                != b implies !same_payment(after.swaps[a], after.swaps[b]) by {
            assert(s.swaps.contains_key(a) && s.swaps.contains_key(b));
            assert(!same_payment(s.swaps[a], s.swaps[b]));
            if is_waiting(swap) && !has_expired(swap, block_height) && after != s {
                if a == swap.id {
                    update_keeps_unique(
                        s,
                        swap,
                        lookups[swap.id],
                        block_hash,
                        block_height,
                        b,
                    );
                } else if b == swap.id {
                    update_keeps_unique(
                        s,
                        swap,
                        lookups[swap.id],
                        block_hash,
                        block_height,
                        a,
                    );
                }
            }
        }
    }
}

/// A swap that waits for its payment and ran out.
pub open spec fn runs_out(s: StateView, id: SwapId, block_height: u32) -> bool {
    s.swaps.contains_key(id) && is_waiting(s.swaps[id]) && has_expired(s.swaps[id], block_height)
}

/// What looking at the first `n` swaps keeps and changes.
spec fn has_processed(
    s: StateView,
    after: StateView,
    ids: Seq<SwapId>,
    block_height: u32,
    n: nat,
) -> bool {
    &&& swaps_by_id(after)
    &&& after.swaps.dom() == s.swaps.dom()
    &&& forall|j: int|
        n <= j < ids.len() ==> after.swaps[#[trigger] ids[j]] == s.swaps[ids[j]]
    &&& forall|j: int|
        0 <= j < n && !is_waiting(s.swaps[#[trigger] ids[j]]) ==> after.swaps[ids[j]]
            == s.swaps[ids[j]]
    &&& forall|j: int|
        0 <= j < n && runs_out(s, #[trigger] ids[j], block_height) ==> after.swaps[ids[j]]
            == s.swaps[ids[j]].in_state(SwapState::Cancelled) && (forall|k: OutPoint| #[trigger]
            after.locked_swap_outputs.contains_key(k) ==> after.locked_swap_outputs[k] != ids[j])
    &&& forall|k: OutPoint| #[trigger]
        after.locked_swap_outputs.contains_key(k) ==> s.locked_swap_outputs.contains_key(k)
            && after.locked_swap_outputs[k] == s.locked_swap_outputs[k]
    &&& forall|k: OutPoint| #[trigger]
        s.locked_swap_outputs.contains_key(k) && !runs_out(
            s,
            s.locked_swap_outputs[k],
            block_height,
        ) ==> after.locked_swap_outputs.contains_key(k)
    &&& payments_unique(s) ==> payments_unique(after)
}

/// Looking at swaps keeps and changes what it should.
proof fn processing_all(
    s: StateView,
    block_height: u32,
    block_hash: BlockHash,
    lookups: Map<SwapId, Seq<L1MatchView>>,
    n: nat,
)
    requires
        swaps_by_id(s),
        n <= ordered(s.swaps.dom()).len(),
    ensures
        lists(ordered(s.swaps.dom()), s.swaps.dom()),
        has_processed(
            s,
            swaps_processed(s, all_swaps(s), block_height, block_hash, lookups, n),
            ordered(s.swaps.dom()),
            block_height,
            n,
        ),
    decreases n,
{
    let ids = ordered(s.swaps.dom());
    finite_is_listed(s.swaps.dom());
    if n > 0 {
        processing_all(s, block_height, block_hash, lookups, (n - 1) as nat);
        let swaps = all_swaps(s);
        let before = swaps_processed(
            s,
            swaps,
            block_height,
            block_hash,
            lookups,
            (n - 1) as nat,
        );
        let after = swaps_processed(s, swaps, block_height, block_hash, lookups, n);
        let id = ids[n - 1];
        assert(ids.contains(id));
        assert(s.swaps.contains_key(id));
        let swap = s.swaps[id];
        assert(swaps[n - 1] == swap);
        assert(before.swaps[ids[n - 1]] == swap);
        assert(before.swaps.dom().contains(id));
        processing_keeps(before, swap, block_height, block_hash, lookups);
        assert forall|j: int| 0 <= j < ids.len() && j != n - 1 implies #[trigger] ids[j] != id
            && before.swaps.contains_key(ids[j]) by {
            if j < n - 1 {
                assert(ids[j].lt(ids[n - 1]));
            } else {
                assert(ids[n - 1].lt(ids[j]));
            }
            SwapId::lt_irreflexive(id);
            assert(ids.contains(ids[j]));
            assert(s.swaps.dom().contains(ids[j]));
            assert(before.swaps.dom().contains(ids[j]));
        }
        assert forall|j: int|
            0 <= j < n && runs_out(
                s,
                #[trigger] ids[j],
                block_height,
            ) implies after.swaps[ids[j]] == s.swaps[ids[j]].in_state(SwapState::Cancelled) && (
        forall|k: OutPoint| #[trigger]
            after.locked_swap_outputs.contains_key(k) ==> after.locked_swap_outputs[k]
                != ids[j]) by {
            assert forall|k: OutPoint| #[trigger]
                after.locked_swap_outputs.contains_key(k) implies after.locked_swap_outputs[k]
                != ids[j] by {
                assert(before.locked_swap_outputs.contains_key(k));
            }
        }
        assert forall|k: OutPoint| #[trigger]
            s.locked_swap_outputs.contains_key(k) && !runs_out(
                s,
                s.locked_swap_outputs[k],
                block_height,
            ) implies after.locked_swap_outputs.contains_key(k) by {
            assert(before.locked_swap_outputs.contains_key(k));
        }
    }
}

/// All swaps are looked at.
proof fn processed_all(
    s: StateView,
    block_height: u32,
    block_hash: BlockHash,
    lookups: Map<SwapId, Seq<L1MatchView>>,
)
    requires
        swaps_by_id(s),
    ensures
        lists(ordered(s.swaps.dom()), s.swaps.dom()),
        has_processed(
            s,
            coinshift_processed(s, block_height, block_hash, lookups),
            ordered(s.swaps.dom()),
            block_height,
            ordered(s.swaps.dom()).len(),
        ),
{
    processing_all(s, block_height, block_hash, lookups, ordered(s.swaps.dom()).len());
}

/// A swap that waits for its payment and ran out is cancelled, and no output is
/// left locked to it. What is locked to other swaps stays locked to them.
pub proof fn expired_swaps_are_cancelled(
    s: StateView,
    block_height: u32,
    block_hash: BlockHash,
    lookups: Map<SwapId, Seq<L1MatchView>>,
)
    requires
        swaps_by_id(s),
    ensures
        ({
            let after = coinshift_processed(s, block_height, block_hash, lookups);
            &&& forall|id: SwapId| #[trigger]
                runs_out(s, id, block_height) ==> after.swaps[id] == s.swaps[id].in_state(
                    SwapState::Cancelled,
                )
            &&& forall|k: OutPoint| #[trigger]
                after.locked_swap_outputs.contains_key(k) <==> s.locked_swap_outputs.contains_key(k)
                    && !runs_out(s, s.locked_swap_outputs[k], block_height)
            &&& forall|k: OutPoint| #[trigger]
                after.locked_swap_outputs.contains_key(k) ==> after.locked_swap_outputs[k]
                    == s.locked_swap_outputs[k]
        }),
{
    let after = coinshift_processed(s, block_height, block_hash, lookups);
    let ids = ordered(s.swaps.dom());
    processed_all(s, block_height, block_hash, lookups);
    assert forall|id: SwapId| #[trigger] runs_out(s, id, block_height) implies after.swaps[id]
        == s.swaps[id].in_state(SwapState::Cancelled) && (forall|k: OutPoint| #[trigger]
        after.locked_swap_outputs.contains_key(k) ==> after.locked_swap_outputs[k] != id) by {
        assert(s.swaps.dom().contains(id));
        assert(ids.contains(id));
        let j = choose|j: int| 0 <= j < ids.len() && ids[j] == id;
        assert(runs_out(s, ids[j], block_height));
    }
}

/// A swap that does not wait for its payment stays as it is, and no swap comes
/// or goes.
pub proof fn settled_swaps_stay(
    s: StateView,
    block_height: u32,
    block_hash: BlockHash,
    lookups: Map<SwapId, Seq<L1MatchView>>,
)
    requires
        swaps_by_id(s),
    ensures
        ({
            let after = coinshift_processed(s, block_height, block_hash, lookups);
            &&& swaps_by_id(after)
            &&& after.swaps.dom() == s.swaps.dom()
            &&& forall|id: SwapId| #[trigger]
                s.swaps.contains_key(id) && !is_waiting(s.swaps[id]) ==> after.swaps[id]
                    == s.swaps[id]
        }),
{
    let after = coinshift_processed(s, block_height, block_hash, lookups);
    let ids = ordered(s.swaps.dom());
    processed_all(s, block_height, block_hash, lookups);
    assert forall|id: SwapId| #[trigger]
        s.swaps.contains_key(id) && !is_waiting(s.swaps[id]) implies after.swaps[id]
        == s.swaps[id] by {
        assert(s.swaps.dom().contains(id));
        assert(ids.contains(id));
        let j = choose|j: int| 0 <= j < ids.len() && ids[j] == id;
        assert(!is_waiting(s.swaps[ids[j]]));
    }
}

/// Where no two swaps were paid by the same payment, looking at swaps keeps it
/// so: a payment that one swap was paid by is not taken for another.
pub proof fn payments_stay_unique(
    s: StateView,
    block_height: u32,
    block_hash: BlockHash,
    lookups: Map<SwapId, Seq<L1MatchView>>,
)
    requires
        swaps_by_id(s),
        payments_unique(s),
    ensures
        payments_unique(coinshift_processed(s, block_height, block_hash, lookups)),
{
    processed_all(s, block_height, block_hash, lookups);
}

/// Connecting transactions keeps swaps under their ids.
proof fn connected_by_id(s: StateView, txs: Seq<FilledTransactionView>, height: u32, n: nat)
    requires
        swaps_by_id(s),
    ensures
        swaps_by_id(all_filled_connected(s, txs, height, n).state),
    decreases n,
{
    if n > 0 {
        connected_by_id(s, txs, height, (n - 1) as nat);
    }
}

/// Taking transactions back keeps swaps under their ids.
proof fn undone_by_id(u: Undoing, txs: Seq<TransactionView>, n: nat)
    requires
        swaps_by_id(u.state),
    ensures
        swaps_by_id(transactions_undone(u, txs, n).state),
    decreases n,
{
    if n > 0 && u.fault is None {
        let tx = txs[n - 1];
        let swap = swap_disconnected(u.state, tx);
        let first = Undoing { state: swap.state, diff: u.diff, fault: swap.fault };
        let origin = Origin::Transaction(tx.txid);
        outputs_deleted_keeps(first, origin, tx.outputs, tx.outputs.len());
        let second = outputs_deleted(first, origin, tx.outputs, tx.outputs.len());
        inputs_unspent_keeps(second, tx.inputs, tx.inputs.len());
        undone_by_id(transaction_undone(u, tx), txs, (n - 1) as nat);
    }
}

/// Connecting a block, checked before or not, and disconnecting one all keep each
/// swap under its own id, whether they succeed or not.
pub proof fn swaps_stay_under_their_ids(
    s: StateView,
    header: HeaderView,
    body: BodyView,
    pre: PrevalidatedBlockView,
    merkle_root: Result<MerkleRoot, Rejection>,
)
    requires
        swaps_by_id(s),
    ensures
        swaps_by_id(prevalidated_connected(s, header, body, pre).state),
        swaps_by_id(connected(s, header, body, merkle_root).state),
        swaps_by_id(tip_disconnected(s, header, body).state),
{
    let txs = body.transactions;
    connected_by_id(
        coinbase_made(s, pre.computed_merkle_root, body.coinbase),
        pre.filled_transactions,
        pre.next_height,
        pre.filled_transactions.len(),
    );
    coins_moved_keeps(coinbase_made(s, header.merkle_root, body.coinbase), txs, txs.len());
    let start = Undoing { state: s, diff: DiffView::none(), fault: None };
    undone_by_id(start, txs, txs.len());
    outputs_deleted_keeps(
        transactions_undone(start, txs, txs.len()),
        Origin::Coinbase(header.merkle_root),
        body.coinbase,
        body.coinbase.len(),
    );
}

} // verus!
