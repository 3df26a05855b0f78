//! What connecting the events of mainchain blocks comes to as a whole, and taking
//! them back.
use vstd::prelude::*;

use crate::accumulator::DiffView;
use crate::coinshift::{all_swaps, coinshift_processed, L1MatchView};
use crate::coinshift_laws::{expired_swaps_are_cancelled, runs_out, swaps_by_id};
use crate::error::{Error, Fault, Halt, Rejection};
use crate::ids::{BlockHash, Hash256, M6id, MainBlockHash, SwapId};
use crate::leaf_laws::{is_net, is_sound, one_more_came, stays_sound};
use crate::mainchain::{BlockEventView, WithdrawalBundleEvent};
use crate::payment_laws::{
    all_swaps_follow_their_payments, is_over, waits_for_payment, was_looked_at,
};
use crate::peg_laws::{looking_keeps, next_number, numbers_come_before};
use crate::peg_model::{
    blocks_connected, blocks_undone, bundle_event_connected, bundle_event_undone, confirmed,
    confirmed_undone, event_block_undone, event_connected, event_undone, events_connected,
    events_run, events_undone, failed, failed_undone, last_block, peg_connected, peg_disconnected,
    run_noted, submitted, submitted_undone, Run,
};
use crate::pending_laws::{
    are_deposits, deposits_leave_bundles_alone, events_leave_blocks_and_swaps_alone, last_failure,
};
use crate::state::StateView;
use crate::types::{OutPoint, OutputView};
use crate::withdrawal::WithdrawalBundleStatus;

verus! {

// Deposits.
/// One of the first `n` events pays this output out under this outpoint.
pub open spec fn is_deposited(
    events: Seq<BlockEventView>,
    n: nat,
    k: OutPoint,
    output: OutputView,
) -> bool {
    exists|j: int|
        0 <= j < n && (#[trigger] events[j] matches BlockEventView::Deposit(deposit) && k == (
        OutPoint::Deposit { main_txid: deposit.txid, vout: deposit.vout }) && output
            == deposit.output)
}

/// One of the first `n` blocks pays this output out under this outpoint.
pub open spec fn is_deposited_by(
    blocks: Seq<(MainBlockHash, Seq<BlockEventView>)>,
    n: nat,
    k: OutPoint,
    output: OutputView,
) -> bool {
    exists|i: int|
        0 <= i < n && is_deposited((#[trigger] blocks[i]).1, blocks[i].1.len(), k, output)
}

/// How often a leaf is that of one of the deposits among the first `n` events.
pub open spec fn times_deposited(events: Seq<BlockEventView>, leaf: Hash256, n: nat) -> nat
    decreases n,
{
    if n == 0 {
        0
    } else {
        times_deposited(events, leaf, (n - 1) as nat) + match events[n - 1] {
            BlockEventView::Deposit(deposit) => if deposit.output.leaf == leaf {
                1nat
            } else {
                0nat
            },
            BlockEventView::WithdrawalBundle(_) => 0nat,
        }
    }
}

/// How often a leaf is that of one of the deposits of the first `n` blocks.
pub open spec fn times_deposited_by(
    blocks: Seq<(MainBlockHash, Seq<BlockEventView>)>,
    leaf: Hash256,
    n: nat,
) -> nat
    decreases n,
{
    if n == 0 {
        0
    } else {
        times_deposited_by(blocks, leaf, (n - 1) as nat) + times_deposited(
            blocks[n - 1].1,
            leaf,
            blocks[n - 1].1.len(),
        )
    }
}

/// One event more may pay an output out.
proof fn one_more_deposited(events: Seq<BlockEventView>, n: nat, k: OutPoint, output: OutputView)
    requires
        0 < n <= events.len(),
    ensures
        is_deposited(events, n, k, output) <==> is_deposited(events, (n - 1) as nat, k, output) || (
        events[n - 1] matches BlockEventView::Deposit(deposit) && k == (OutPoint::Deposit {
            main_txid: deposit.txid,
            vout: deposit.vout,
        }) && output == deposit.output),
{
    if is_deposited(events, (n - 1) as nat, k, output) {
        let j = choose|j: int|
            0 <= j < n - 1 && (#[trigger] events[j] matches BlockEventView::Deposit(deposit) && k
                == (OutPoint::Deposit { main_txid: deposit.txid, vout: deposit.vout }) && output
                == deposit.output);
        assert(events[j] is Deposit);
    }
    if is_deposited(events, n, k, output) {
        let j = choose|j: int|
            0 <= j < n && (#[trigger] events[j] matches BlockEventView::Deposit(deposit) && k == (
            OutPoint::Deposit { main_txid: deposit.txid, vout: deposit.vout }) && output
                == deposit.output);
        assert(j == n - 1 || events[j] is Deposit);
    }
}

/// What deposits of a block leave under an outpoint.
proof fn deposits_at(
    run: Run,
    height: u32,
    hash: MainBlockHash,
    events: Seq<BlockEventView>,
    n: nat,
    k: OutPoint,
)
    requires
        n <= events.len(),
        run.fault is None,
        forall|j: int| 0 <= j < events.len() ==> #[trigger] events[j] is Deposit,
    ensures
        ({
            let before = run.state.utxos;
            let after = events_connected(run, height, hash, events, n).state.utxos;
            &&& events_connected(run, height, hash, events, n).fault is None
            &&& after.contains_key(k) ==> is_deposited(events, n, k, after[k]) || (
            before.contains_key(k) && after[k] == before[k])
            &&& before.contains_key(k) ==> after.contains_key(k)
            &&& (exists|output: OutputView| is_deposited(events, n, k, output))
                ==> after.contains_key(k) && is_deposited(events, n, k, after[k])
        }),
    decreases n,
{
    if n > 0 {
        deposits_at(run, height, hash, events, (n - 1) as nat, k);
        assert(events[n - 1] is Deposit);
        let deposit = events[n - 1]->Deposit_0;
        let after = events_connected(run, height, hash, events, n).state.utxos;
        one_more_deposited(events, n, k, after[k]);
        if exists|output: OutputView| is_deposited(events, n, k, output) {
            let output = choose|output: OutputView| is_deposited(events, n, k, output);
            one_more_deposited(events, n, k, output);
        }
    } else {
        assert forall|output: OutputView| !is_deposited(events, 0, k, output) by {}
    }
}

/// What deposits of blocks leave under an outpoint.
proof fn block_deposits_at(
    run: Run,
    height: u32,
    blocks: Seq<(MainBlockHash, Seq<BlockEventView>)>,
    n: nat,
    k: OutPoint,
)
    requires
        n <= blocks.len(),
        run.fault is None,
        are_deposits(blocks),
    ensures
        ({
            let before = run.state.utxos;
            let after = blocks_connected(run, height, blocks, n).state.utxos;
            &&& blocks_connected(run, height, blocks, n).fault is None
            &&& after.contains_key(k) ==> is_deposited_by(blocks, n, k, after[k]) || (
            before.contains_key(k) && after[k] == before[k])
            &&& before.contains_key(k) ==> after.contains_key(k)
            &&& (exists|output: OutputView| is_deposited_by(blocks, n, k, output))
                ==> after.contains_key(k) && is_deposited_by(blocks, n, k, after[k])
        }),
    decreases n,
{
    if n > 0 {
        block_deposits_at(run, height, blocks, (n - 1) as nat, k);
        let (hash, events) = blocks[n - 1];
        let x = blocks_connected(run, height, blocks, (n - 1) as nat);
        assert forall|j: int| 0 <= j < events.len() implies #[trigger] events[j] is Deposit by {
            assert(blocks[n - 1].1[j] is Deposit);
        }
        deposits_at(x, height, hash, events, events.len(), k);
        let after = blocks_connected(run, height, blocks, n).state.utxos;
        if is_deposited(events, events.len(), k, after[k]) {
            assert(is_deposited(blocks[n - 1].1, blocks[n - 1].1.len(), k, after[k]));
        }
        if is_deposited_by(blocks, (n - 1) as nat, k, after[k]) {
            let i = choose|i: int|
                0 <= i < n - 1 && is_deposited(
                    (#[trigger] blocks[i]).1,
                    blocks[i].1.len(),
                    k,
                    after[k],
                );
            assert(is_deposited(blocks[i].1, blocks[i].1.len(), k, after[k]));
        }
        if exists|output: OutputView| is_deposited_by(blocks, n, k, output) {
            let output = choose|output: OutputView| is_deposited_by(blocks, n, k, output);
            let i = choose|i: int|
                0 <= i < n && is_deposited(
                    (#[trigger] blocks[i]).1,
                    blocks[i].1.len(),
                    k,
                    output,
                );
            if i < n - 1 {
                assert(is_deposited(blocks[i].1, blocks[i].1.len(), k, output));
                assert(is_deposited_by(blocks, (n - 1) as nat, k, output));
            } else {
                assert(is_deposited(events, events.len(), k, output));
            }
        }
    } else {
        assert forall|output: OutputView| !is_deposited_by(blocks, 0, k, output) by {}
    }
}

/// The leaves of the deposits of a block come.
proof fn deposit_leaves_come(
    run: Run,
    height: u32,
    hash: MainBlockHash,
    events: Seq<BlockEventView>,
    n: nat,
    leaf: Hash256,
    came: nat,
    went: nat,
)
    requires
        n <= events.len(),
        run.fault is None,
        forall|j: int| 0 <= j < events.len() ==> #[trigger] events[j] is Deposit,
        is_sound(run.diff),
        is_net(run.diff, leaf, came, went),
    ensures
        events_connected(run, height, hash, events, n).fault is None,
        is_sound(events_connected(run, height, hash, events, n).diff),
        is_net(
            events_connected(run, height, hash, events, n).diff,
            leaf,
            came + times_deposited(events, leaf, n),
            went,
        ),
    decreases n,
{
    if n > 0 {
        deposit_leaves_come(run, height, hash, events, (n - 1) as nat, leaf, came, went);
        assert(events[n - 1] is Deposit);
        let deposit = events[n - 1]->Deposit_0;
        let before = events_connected(run, height, hash, events, (n - 1) as nat).diff;
        let so_far = came + times_deposited(events, leaf, (n - 1) as nat);
        stays_sound(before, deposit.output.leaf);
        one_more_came(before, deposit.output.leaf, leaf, so_far, went);
    }
}

/// The leaves of the deposits of blocks come.
proof fn block_deposit_leaves_come(
    run: Run,
    height: u32,
    blocks: Seq<(MainBlockHash, Seq<BlockEventView>)>,
    n: nat,
    leaf: Hash256,
    came: nat,
    went: nat,
)
    requires
        n <= blocks.len(),
        run.fault is None,
        are_deposits(blocks),
        is_sound(run.diff),
        is_net(run.diff, leaf, came, went),
    ensures
        blocks_connected(run, height, blocks, n).fault is None,
        is_sound(blocks_connected(run, height, blocks, n).diff),
        is_net(
            blocks_connected(run, height, blocks, n).diff,
            leaf,
            came + times_deposited_by(blocks, leaf, n),
            went,
        ),
    decreases n,
{
    if n > 0 {
        block_deposit_leaves_come(run, height, blocks, (n - 1) as nat, leaf, came, went);
        let (hash, events) = blocks[n - 1];
        let x = blocks_connected(run, height, blocks, (n - 1) as nat);
        assert forall|j: int| 0 <= j < events.len() implies #[trigger] events[j] is Deposit by {
            assert(blocks[n - 1].1[j] is Deposit);
        }
        let so_far = came + times_deposited_by(blocks, leaf, (n - 1) as nat);
        deposit_leaves_come(x, height, hash, events, events.len(), leaf, so_far, went);
    }
}

/// A change that adds the leaves of deposits, and takes none out.
pub open spec fn adds_deposits(
    diff: DiffView,
    blocks: Seq<(MainBlockHash, Seq<BlockEventView>)>,
) -> bool {
    forall|leaf: Hash256|
        is_net(diff, leaf, #[trigger] times_deposited_by(blocks, leaf, blocks.len()), 0)
}

/// Connecting blocks whose events are all deposits makes each deposit unspent under
/// the outpoint of its mainchain transaction, and adds its leaf to the accumulator.
/// All other outputs stay as they are.
pub proof fn connecting_pays_deposits_out(
    s: StateView,
    blocks: Seq<(MainBlockHash, Seq<BlockEventView>)>,
    lookups: Map<SwapId, Seq<L1MatchView>>,
    built: Result<M6id, Rejection>,
    k: OutPoint,
)
    requires
        are_deposits(blocks),
        peg_connected(s, blocks, lookups, built).fault is None,
    ensures
        ({
            let done = peg_connected(s, blocks, lookups, built).state;
            let n = blocks.len();
            &&& done.stxos == s.stxos
            &&& if exists|output: OutputView| is_deposited_by(blocks, n, k, output) {
                done.utxos.contains_key(k) && is_deposited_by(blocks, n, k, done.utxos[k])
            } else {
                &&& done.utxos.contains_key(k) <==> s.utxos.contains_key(k)
                &&& done.utxos.contains_key(k) ==> done.utxos[k] == s.utxos[k]
            }
            &&& exists|diff: DiffView| #[trigger]
                adds_deposits(diff, blocks) && diff.applied(s.accumulator) == Ok::<Seq<u8>, Fault>(
                    done.accumulator,
                )
        }),
{
    let height = s.height->0;
    let run = events_run(s, blocks);
    let tip = run.state.tip->0;
    let swaps = all_swaps(run.state);
    assert(s.height is Some);
    deposits_leave_bundles_alone(s, blocks);
    events_leave_blocks_and_swaps_alone(s, blocks);
    looking_keeps(run.state, swaps, height, tip, lookups, swaps.len());
    block_deposits_at(Run::start(s), height, blocks, blocks.len(), k);
    assert(run_noted(run, height, tip, lookups).fault is None);
    assert forall|leaf: Hash256|
        is_net(run.diff, leaf, #[trigger] times_deposited_by(blocks, leaf, blocks.len()), 0) by {
        block_deposit_leaves_come(Run::start(s), height, blocks, blocks.len(), leaf, 0, 0);
    }
    assert(adds_deposits(run.diff, blocks));
}

// Bundles.
/// The status that the last of the first `n` events on a bundle tells.
pub open spec fn last_told(events: Seq<BlockEventView>, m6id: M6id, n: nat) -> Option<
    WithdrawalBundleStatus,
>
    decreases n,
{
    if n == 0 {
        None
    } else {
        match events[n - 1] {
            BlockEventView::WithdrawalBundle(event) => if event.m6id == m6id {
                Some(event.status)
            } else {
                last_told(events, m6id, (n - 1) as nat)
            },
            BlockEventView::Deposit(_) => last_told(events, m6id, (n - 1) as nat),
        }
    }
}

/// The status that the last event on a bundle in the first `n` blocks tells.
pub open spec fn last_told_by(
    blocks: Seq<(MainBlockHash, Seq<BlockEventView>)>,
    m6id: M6id,
    n: nat,
) -> Option<WithdrawalBundleStatus>
    decreases n,
{
    if n == 0 {
        None
    } else {
        match last_told(blocks[n - 1].1, m6id, blocks[n - 1].1.len()) {
            Some(status) => Some(status),
            None => last_told_by(blocks, m6id, (n - 1) as nat),
        }
    }
}

/// A bundle has the status that it was last told to have; where it was told none, it
/// has what it had. One that was submitted once stays submitted first.
pub open spec fn is_as_told_last(
    s: StateView,
    after: StateView,
    m6id: M6id,
    told: Option<WithdrawalBundleStatus>,
) -> bool {
    let was = s.withdrawal_bundles;
    let now = after.withdrawal_bundles;
    match told {
        None => {
            &&& now.contains_key(m6id) <==> was.contains_key(m6id)
            &&& now.contains_key(m6id) ==> now[m6id] == was[m6id]
        },
        Some(WithdrawalBundleStatus::Submitted) => now.contains_key(m6id) && now[m6id].1[0].value
            == WithdrawalBundleStatus::Submitted,
        Some(status) => now.contains_key(m6id) && now[m6id].1[now[m6id].1.len() - 1].value
            == status,
    }
}

/// The events of a block tell the status of a bundle.
proof fn events_tell(
    run: Run,
    height: u32,
    hash: MainBlockHash,
    events: Seq<BlockEventView>,
    m6id: M6id,
    n: nat,
)
    requires
        n <= events.len(),
        events_connected(run, height, hash, events, n).fault is None,
    ensures
        is_as_told_last(
            run.state,
            events_connected(run, height, hash, events, n).state,
            m6id,
            last_told(events, m6id, n),
        ),
    decreases n,
{
    if n > 0 {
        events_tell(run, height, hash, events, m6id, (n - 1) as nat);
    }
}

/// The events of blocks tell the status of a bundle.
proof fn blocks_tell(
    run: Run,
    height: u32,
    blocks: Seq<(MainBlockHash, Seq<BlockEventView>)>,
    m6id: M6id,
    n: nat,
)
    requires
        n <= blocks.len(),
        blocks_connected(run, height, blocks, n).fault is None,
    ensures
        is_as_told_last(
            run.state,
            blocks_connected(run, height, blocks, n).state,
            m6id,
            last_told_by(blocks, m6id, n),
        ),
    decreases n,
{
    if n > 0 {
        let (hash, events) = blocks[n - 1];
        let x = blocks_connected(run, height, blocks, (n - 1) as nat);
        if x.fault is Some {
            assert(blocks_connected(run, height, blocks, n) == x);
        }
        blocks_tell(run, height, blocks, m6id, (n - 1) as nat);
        events_tell(x, height, hash, events, m6id, events.len());
    }
}

/// Once the events of mainchain blocks are connected, each bundle has the status that
/// the last event on it tells; one without an event has what it had.
pub proof fn bundles_are_as_told(
    s: StateView,
    blocks: Seq<(MainBlockHash, Seq<BlockEventView>)>,
    lookups: Map<SwapId, Seq<L1MatchView>>,
    built: Result<M6id, Rejection>,
    m6id: M6id,
)
    requires
        peg_connected(s, blocks, lookups, built).fault is None,
    ensures
        is_as_told_last(
            s,
            peg_connected(s, blocks, lookups, built).state,
            m6id,
            last_told_by(blocks, m6id, blocks.len()),
        ),
{
    let height = s.height->0;
    let run = events_run(s, blocks);
    let tip = run.state.tip->0;
    let swaps = all_swaps(run.state);
    blocks_tell(Run::start(s), height, blocks, m6id, blocks.len());
    looking_keeps(run.state, swaps, height, tip, lookups, swaps.len());
    assert(run_noted(run, height, tip, lookups).fault is None);
}

/// An event on a bundle is connected, and taken back, by what it tells.
pub proof fn events_go_by_what_they_tell(
    s: StateView,
    diff: DiffView,
    height: u32,
    hash: MainBlockHash,
    m6id: M6id,
)
    ensures
        ({
            let told = |status: WithdrawalBundleStatus| WithdrawalBundleEvent { m6id, status };
            let forth = |status: WithdrawalBundleStatus|
                bundle_event_connected(s, diff, height, hash, told(status));
            let back = |status: WithdrawalBundleStatus|
                bundle_event_undone(s, diff, height, told(status));
            &&& forth(WithdrawalBundleStatus::Submitted) == submitted(s, diff, height, m6id)
            &&& forth(WithdrawalBundleStatus::Confirmed) == confirmed(s, diff, height, hash, m6id)
            &&& forth(WithdrawalBundleStatus::Failed) == failed(s, diff, height, m6id)
            &&& back(WithdrawalBundleStatus::Submitted) == submitted_undone(s, diff, height, m6id)
            &&& back(WithdrawalBundleStatus::Confirmed) == confirmed_undone(s, diff, height, m6id)
            &&& back(WithdrawalBundleStatus::Failed) == failed_undone(s, diff, height, m6id)
        }),
{
}

/// An event on a bundle that is connected, or taken back, is noted with its block if
/// it went well, and does to the state and to the accumulator what it does alone.
pub proof fn events_on_bundles_are_noted(
    run: Run,
    height: u32,
    hash: MainBlockHash,
    event: WithdrawalBundleEvent,
)
    ensures
        ({
            let step = bundle_event_connected(run.state, run.diff, height, hash, event);
            let done = event_connected(run, height, hash, BlockEventView::WithdrawalBundle(event));
            &&& done.state == step.state
            &&& done.diff == step.diff
            &&& done.fault == step.fault
            &&& done.deposit_block == run.deposit_block
            &&& done.fault is None ==> done.bundle_event_block == Some(hash)
        }),
        ({
            let step = bundle_event_undone(run.state, run.diff, height, event);
            let done = event_undone(run, height, hash, BlockEventView::WithdrawalBundle(event));
            &&& done.state == step.state
            &&& done.diff == step.diff
            &&& done.fault == step.fault
            &&& done.deposit_block == run.deposit_block
            &&& done.fault is None ==> done.bundle_event_block == Some(hash)
        }),
{
}

// Swaps.
/// When the events of mainchain blocks are connected, each swap follows the payments
/// that were reported for it, as seen at the tip and at its height.
pub proof fn connecting_follows_payments(
    s: StateView,
    blocks: Seq<(MainBlockHash, Seq<BlockEventView>)>,
    lookups: Map<SwapId, Seq<L1MatchView>>,
    built: Result<M6id, Rejection>,
    id: SwapId,
)
    requires
        swaps_by_id(s),
        peg_connected(s, blocks, lookups, built).fault is None,
    ensures
        ({
            let done = peg_connected(s, blocks, lookups, built).state;
            &&& s.tip is Some && s.height is Some
            &&& done.swaps.contains_key(id) <==> s.swaps.contains_key(id)
            &&& s.swaps.contains_key(id) ==> was_looked_at(
                s,
                s.height->0,
                s.tip->0,
                lookups,
                s.swaps[id],
                done.swaps[id],
            )
        }),
{
    let height = s.height->0;
    let run = events_run(s, blocks);
    let x = run.state;
    let tip = x.tip->0;
    events_leave_blocks_and_swaps_alone(s, blocks);
    assert(run_noted(run, height, tip, lookups).fault is None);
    crate::coinshift_laws::settled_swaps_stay(x, height, tip, lookups);
    let seen = coinshift_processed(x, height, tip, lookups);
    assert(seen.swaps.dom().contains(id) <==> x.swaps.dom().contains(id));
    if s.swaps.contains_key(id) {
        all_swaps_follow_their_payments(x, height, tip, lookups, id);
        looked_at_alike(x, s, height, tip, lookups, s.swaps[id], seen.swaps[id]);
    }
}

/// What becomes of a swap goes by swaps alone.
proof fn looked_at_alike(
    x: StateView,
    s: StateView,
    height: u32,
    hash: BlockHash,
    lookups: Map<SwapId, Seq<L1MatchView>>,
    swap: crate::swap::SwapView,
    now: crate::swap::SwapView,
)
    requires
        x.swaps == s.swaps,
        was_looked_at(x, height, hash, lookups, swap, now),
    ensures
        was_looked_at(s, height, hash, lookups, swap, now),
{
    assert forall|txid: Seq<u8>| #[trigger]
        crate::payment_laws::may_pay_another(s, lookups, swap, txid)
            == crate::payment_laws::may_pay_another(x, lookups, swap, txid) by {
        assert forall|id: SwapId|
            crate::payment_laws::is_reported(s, lookups, id, txid)
                == crate::payment_laws::is_reported(x, lookups, id, txid) by {}
    }
    assert forall|txid: Seq<u8>| #[trigger]
        crate::payment_laws::pays_another(s, swap, txid) == crate::payment_laws::pays_another(
            x,
            swap,
            txid,
        ) by {}
}

/// When the events of mainchain blocks are connected, what is locked to a swap that
/// waits for its payment and is past its end is released; all else stays locked.
pub proof fn connecting_releases_what_is_over(
    s: StateView,
    blocks: Seq<(MainBlockHash, Seq<BlockEventView>)>,
    lookups: Map<SwapId, Seq<L1MatchView>>,
    built: Result<M6id, Rejection>,
    k: OutPoint,
)
    requires
        swaps_by_id(s),
        peg_connected(s, blocks, lookups, built).fault is None,
    ensures
        ({
            let was = s.locked_swap_outputs;
            let now = peg_connected(s, blocks, lookups, built).state.locked_swap_outputs;
            let swap = s.swaps[was[k]];
            let over = s.swaps.contains_key(was[k]) && waits_for_payment(swap) && is_over(
                swap,
                s.height->0,
            );
            &&& now.contains_key(k) <==> was.contains_key(k) && !over
            &&& now.contains_key(k) ==> now[k] == was[k]
        }),
{
    let height = s.height->0;
    let run = events_run(s, blocks);
    let x = run.state;
    let tip = x.tip->0;
    events_leave_blocks_and_swaps_alone(s, blocks);
    assert(run_noted(run, height, tip, lookups).fault is None);
    expired_swaps_are_cancelled(x, height, tip, lookups);
    let seen = coinshift_processed(x, height, tip, lookups);
    assert(seen.locked_swap_outputs.contains_key(k) <==> x.locked_swap_outputs.contains_key(k)
        && !runs_out(x, x.locked_swap_outputs[k], height));
}

// Lists of blocks.
/// The last number in a list of blocks.
pub open spec fn is_last_number(blocks: Map<u32, (MainBlockHash, u32)>, m: u32) -> bool {
    blocks.contains_key(m) && forall|k: u32| #[trigger] blocks.contains_key(k) ==> k <= m
}

/// The last entry of a list is the one with the last number.
proof fn last_entry_is(blocks: Map<u32, (MainBlockHash, u32)>)
    requires
        blocks.dom().finite(),
    ensures
        match last_block(blocks) {
            None => forall|k: u32| !#[trigger] blocks.contains_key(k),
            Some(last) => is_last_number(blocks, last.0) && blocks[last.0] == (last.1, last.2),
        },
{
    let numbers = crate::table::ordered(blocks.dom());
    crate::table::finite_is_listed(blocks.dom());
    numbers_come_before(blocks);
    if numbers.len() > 0 {
        assert(numbers.contains(numbers.last()));
        assert(blocks.dom().contains(numbers.last()));
        assert forall|k: u32| #[trigger] blocks.contains_key(k) implies k <= numbers.last() by {
            assert(k < next_number(blocks));
        }
    } else {
        assert forall|k: u32| !#[trigger] blocks.contains_key(k) by {
            if blocks.contains_key(k) {
                assert(blocks.dom().contains(k));
                assert(numbers.contains(k));
            }
        }
    }
}

/// The hash of the first of the first `n` blocks that carries a deposit, or else what
/// comes then.
pub open spec fn first_with_deposit(
    blocks: Seq<(MainBlockHash, Seq<BlockEventView>)>,
    n: nat,
    then: Option<MainBlockHash>,
) -> Option<MainBlockHash>
    decreases n,
{
    if n == 0 {
        then
    } else {
        first_with_deposit(
            blocks,
            (n - 1) as nat,
            if has_deposit_in(blocks[n - 1].1) {
                Some(blocks[n - 1].0)
            } else {
                then
            },
        )
    }
}

/// The hash of the first of the first `n` blocks that carries an event on a bundle,
/// or else what comes then.
pub open spec fn first_with_bundle(
    blocks: Seq<(MainBlockHash, Seq<BlockEventView>)>,
    n: nat,
    then: Option<MainBlockHash>,
) -> Option<MainBlockHash>
    decreases n,
{
    if n == 0 {
        then
    } else {
        first_with_bundle(
            blocks,
            (n - 1) as nat,
            if has_bundle_in(blocks[n - 1].1) {
                Some(blocks[n - 1].0)
            } else {
                then
            },
        )
    }
}

/// One of the events is a deposit.
pub open spec fn has_deposit_in(events: Seq<BlockEventView>) -> bool {
    exists|j: int| 0 <= j < events.len() && #[trigger] events[j] is Deposit
}

/// One of the events is on a bundle.
pub open spec fn has_bundle_in(events: Seq<BlockEventView>) -> bool {
    exists|j: int| 0 <= j < events.len() && #[trigger] events[j] is WithdrawalBundle
}

/// Where the events of a block that are taken back came from.
proof fn undone_come_from(
    run: Run,
    height: u32,
    hash: MainBlockHash,
    events: Seq<BlockEventView>,
    n: nat,
)
    requires
        n <= events.len(),
        events_undone(run, height, hash, events, n).fault is None,
    ensures
        ({
            let done = events_undone(run, height, hash, events, n);
            let some = events.take(n as int);
            &&& done.deposit_block == if has_deposit_in(some) {
                Some(hash)
            } else {
                run.deposit_block
            }
            &&& done.bundle_event_block == if has_bundle_in(some) {
                Some(hash)
            } else {
                run.bundle_event_block
            }
            &&& done.state.deposit_blocks == run.state.deposit_blocks
            &&& done.state.withdrawal_bundle_event_blocks
                == run.state.withdrawal_bundle_event_blocks
        }),
    decreases n,
{
    reveal_with_fuel(events_undone, 2);
    let some = events.take(n as int);
    if n > 0 && run.fault is None {
        let event = events[n - 1];
        let next = event_undone(run, height, hash, event);
        let fewer = events.take(n - 1);
        undone_come_from(next, height, hash, events, (n - 1) as nat);
        assert(some[n - 1] == event);
        if has_deposit_in(fewer) {
            let j = choose|j: int| 0 <= j < fewer.len() && #[trigger] fewer[j] is Deposit;
            assert(some[j] is Deposit);
        }
        if has_bundle_in(fewer) {
            let j = choose|j: int| 0 <= j < fewer.len() && #[trigger] fewer[j] is WithdrawalBundle;
            assert(some[j] is WithdrawalBundle);
        }
        if has_deposit_in(some) && !(event is Deposit) {
            let j = choose|j: int| 0 <= j < some.len() && #[trigger] some[j] is Deposit;
            assert(fewer[j] is Deposit);
        }
        if has_bundle_in(some) && !(event is WithdrawalBundle) {
            let j = choose|j: int| 0 <= j < some.len() && #[trigger] some[j] is WithdrawalBundle;
            assert(fewer[j] is WithdrawalBundle);
        }
    } else {
        assert(n == 0 ==> some.len() == 0);
    }
}

/// Where the events of blocks that are taken back came from.
proof fn undone_blocks_come_from(
    run: Run,
    height: u32,
    blocks: Seq<(MainBlockHash, Seq<BlockEventView>)>,
    n: nat,
)
    requires
        n <= blocks.len(),
        blocks_undone(run, height, blocks, n).fault is None,
    ensures
        ({
            let done = blocks_undone(run, height, blocks, n);
            &&& done.deposit_block == first_with_deposit(blocks, n, run.deposit_block)
            &&& done.bundle_event_block == first_with_bundle(blocks, n, run.bundle_event_block)
            &&& done.state.deposit_blocks == run.state.deposit_blocks
            &&& done.state.withdrawal_bundle_event_blocks
                == run.state.withdrawal_bundle_event_blocks
        }),
    decreases n,
{
    reveal_with_fuel(blocks_undone, 2);
    if n > 0 && run.fault is None {
        let (hash, events) = blocks[n - 1];
        let next = events_undone(run, height, hash, events, events.len());
        undone_blocks_come_from(next, height, blocks, (n - 1) as nat);
        assert(events.take(events.len() as int) =~= events);
        assert(next.fault is None);
        undone_come_from(run, height, hash, events, events.len());
    }
}

/// Taking back the events of mainchain blocks. If there was an event on a bundle, the
/// last entry of the list of blocks that such events came from is that of the first
/// such block, noted a block ago; and the entry of the list of blocks that deposits
/// came from that has its number is taken off. If there was a deposit, the last entry
/// that is left of that list is that of the first such block, noted a block ago; and
/// it is taken off. No other entry of either list changes.
pub proof fn taking_back_forgets_blocks(
    s: StateView,
    blocks: Seq<(MainBlockHash, Seq<BlockEventView>)>,
)
    requires
        s.deposit_blocks.dom().finite(),
        s.withdrawal_bundle_event_blocks.dom().finite(),
        peg_disconnected(s, blocks).fault is None,
    ensures
        ({
            let done = peg_disconnected(s, blocks).state;
            let height = s.height->0;
            let n = blocks.len();
            let events = s.withdrawal_bundle_event_blocks;
            let bundle = first_with_bundle(blocks, n, None);
            let deposit = first_with_deposit(blocks, n, None);
            &&& s.height is Some
            &&& done.withdrawal_bundle_event_blocks == events
            &&& bundle is Some ==> exists|m: u32| #[trigger]
                is_last_number(events, m) && height > 0 && events[m] == (
                    bundle->0,
                    (height - 1) as u32,
                ) && s.deposit_blocks.contains_key(m)
            &&& forall|m: u32|
                bundle is Some && #[trigger] is_last_number(events, m) ==> is_taken_off(
                    s.deposit_blocks.remove(m),
                    done.deposit_blocks,
                    deposit,
                    height,
                )
            &&& bundle is None ==> is_taken_off(
                s.deposit_blocks,
                done.deposit_blocks,
                deposit,
                height,
            )
        }),
{
    let height = s.height->0;
    let run = blocks_undone(Run::start(s), height, blocks, blocks.len());
    let first = event_block_undone(run.state, height, run.bundle_event_block);
    assert(s.height is Some);
    undone_blocks_come_from(Run::start(s), height, blocks, blocks.len());
    last_entry_is(s.withdrawal_bundle_event_blocks);
    last_entry_is(first.state.deposit_blocks);
    if run.bundle_event_block is Some {
        let last = last_block(s.withdrawal_bundle_event_blocks)->0;
        assert(is_last_number(s.withdrawal_bundle_event_blocks, last.0));
        assert forall|m: u32| #[trigger]
            is_last_number(s.withdrawal_bundle_event_blocks, m) implies m == last.0 by {
            assert(s.withdrawal_bundle_event_blocks.contains_key(m));
            assert(s.withdrawal_bundle_event_blocks.contains_key(last.0));
        }
    }
    if run.deposit_block is Some {
        let last = last_block(first.state.deposit_blocks)->0;
        assert(is_last_number(first.state.deposit_blocks, last.0));
    }
}

/// The last entry of a list is taken off if there was a deposit; it is that of this
/// block, noted a block ago.
pub open spec fn is_taken_off(
    was: Map<u32, (MainBlockHash, u32)>,
    now: Map<u32, (MainBlockHash, u32)>,
    hash: Option<MainBlockHash>,
    height: u32,
) -> bool {
    match hash {
        None => now == was,
        Some(hash) => exists|m: u32| #[trigger]
            is_last_number(was, m) && height > 0 && was[m] == (hash, (height - 1) as u32) && now
                == was.remove(m),
    }
}

/// Where the events of mainchain blocks can be taken back, what stands in the way of
/// forgetting the blocks that they came from is reported: an event on a bundle without
/// an entry for it, or whose number has no entry among the blocks of deposits, and a
/// deposit without an entry for it. Where an entry is not that of the block, noted a
/// block ago, this halts.
pub proof fn blocks_must_be_there_to_be_forgotten(
    s: StateView,
    blocks: Seq<(MainBlockHash, Seq<BlockEventView>)>,
)
    requires
        s.height is Some,
        s.deposit_blocks.dom().finite(),
        s.withdrawal_bundle_event_blocks.dom().finite(),
        blocks_undone(Run::start(s), s.height->0, blocks, blocks.len()).fault is None,
    ensures
        ({
            let fault = peg_disconnected(s, blocks).fault;
            let height = s.height->0;
            let n = blocks.len();
            let events = s.withdrawal_bundle_event_blocks;
            let bundle = first_with_bundle(blocks, n, None);
            let deposit = first_with_deposit(blocks, n, None);
            &&& bundle is Some && (forall|m: u32| !#[trigger] events.contains_key(m)) ==> fault
                == Some(Fault::Error(Error::NoWithdrawalBundleEventBlock))
            &&& forall|m: u32|
                bundle is Some && #[trigger] is_last_number(events, m) ==> {
                    let (hash, noted) = events[m];
                    &&& !(hash == bundle->0 && noted + 1 == height) ==> fault == Some(
                        Fault::Halt(Halt::LatestEventBlock),
                    )
                    &&& hash == bundle->0 && noted + 1 == height && !s.deposit_blocks.contains_key(
                        m,
                    ) ==> fault == Some(Fault::Error(Error::NoWithdrawalBundleEventBlock))
                }
            &&& bundle is None && deposit is Some && last_failure(
                blocks_undone(Run::start(s), height, blocks, n).state,
            ) <= height ==> {
                &&& (forall|m: u32| !#[trigger] s.deposit_blocks.contains_key(m)) ==> fault == Some(
                    Fault::Error(Error::NoDepositBlock),
                )
                &&& forall|m: u32| #[trigger]
                    is_last_number(s.deposit_blocks, m) ==> {
                        let (hash, noted) = s.deposit_blocks[m];
                        !(hash == deposit->0 && noted + 1 == height) ==> fault == Some(
                            Fault::Halt(Halt::LatestDepositBlock),
                        )
                    }
            }
        }),
{
    let height = s.height->0;
    let events = s.withdrawal_bundle_event_blocks;
    undone_blocks_come_from(Run::start(s), height, blocks, blocks.len());
    last_entry_is(events);
    last_entry_is(s.deposit_blocks);
    one_last_number(events);
    one_last_number(s.deposit_blocks);
}

/// There is one last number.
proof fn one_last_number(blocks: Map<u32, (MainBlockHash, u32)>)
    requires
        blocks.dom().finite(),
    ensures
        forall|m: u32| #[trigger]
            is_last_number(blocks, m) ==> last_block(blocks) == Some(
                (m, blocks[m].0, blocks[m].1),
            ),
{
    last_entry_is(blocks);
    assert forall|m: u32| #[trigger] is_last_number(blocks, m) implies last_block(blocks) == Some(
        (m, blocks[m].0, blocks[m].1),
    ) by {
        assert(blocks.contains_key(m));
        let last = last_block(blocks)->0;
        assert(blocks.contains_key(last.0));
    }
}

/// Without a height no events are taken back: this halts, and nothing changes.
pub proof fn taking_back_needs_a_height(
    s: StateView,
    blocks: Seq<(MainBlockHash, Seq<BlockEventView>)>,
)
    ensures
        s.height is None ==> peg_disconnected(s, blocks).fault == Some(Fault::Halt(Halt::NoHeight))
            && peg_disconnected(s, blocks).state == s,
{
}

/// Where a list of blocks has an entry with the last number that there is, and one is to
/// be added, connecting the events of mainchain blocks halts.
pub proof fn numbers_of_blocks_run_out(
    s: StateView,
    blocks: Seq<(MainBlockHash, Seq<BlockEventView>)>,
    lookups: Map<SwapId, Seq<L1MatchView>>,
    built: Result<M6id, Rejection>,
)
    requires
        s.deposit_blocks.dom().finite(),
        s.withdrawal_bundle_event_blocks.dom().finite(),
        events_run(s, blocks).fault is None,
        (events_run(s, blocks).deposit_block is Some && s.deposit_blocks.contains_key(u32::MAX))
            || (events_run(s, blocks).bundle_event_block is Some
            && s.withdrawal_bundle_event_blocks.contains_key(u32::MAX)),
    ensures
        peg_connected(s, blocks, lookups, built).fault == Some(Fault::Halt(Halt::OutOfRange)),
{
    let height = s.height->0;
    let run = events_run(s, blocks);
    let tip = run.state.tip->0;
    let swaps = all_swaps(run.state);
    looking_keeps(run.state, swaps, height, tip, lookups, swaps.len());
    crate::peg_laws::blocks_come_from(s, height, blocks, blocks.len());
    one_last_number(s.deposit_blocks);
    one_last_number(s.withdrawal_bundle_event_blocks);
    if s.deposit_blocks.contains_key(u32::MAX) {
        assert(is_last_number(s.deposit_blocks, u32::MAX));
    }
    if s.withdrawal_bundle_event_blocks.contains_key(u32::MAX) {
        assert(is_last_number(s.withdrawal_bundle_event_blocks, u32::MAX));
    }
}

} // verus!
