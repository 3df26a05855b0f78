//! When a withdrawal bundle is made, and when the one that waits is forgotten.
use vstd::prelude::*;

use crate::bundle::drafted;
use crate::bundle_laws::{is_withdrawal, nothing_is_drafted_of_nothing};
use crate::coinshift::{all_swaps, L1MatchView};
use crate::error::{Error, Fault, Rejection};
use crate::ids::{M6id, MainBlockHash, SwapId};
use crate::mainchain::BlockEventView;
use crate::peg_laws::looking_keeps;
use crate::peg_model::{
    blocks_connected, blocks_undone, bundle_returned, bundle_spent, event_connected,
    events_connected, events_run, peg_connected, peg_disconnected, run_noted, Ledger, Run,
};
use crate::state::StateView;
use crate::types::{OutPoint, OutputView};

verus! {

/// The height of the last failure of a bundle; 0 where there was none.
pub open spec fn last_failure(s: StateView) -> int {
    match s.latest_failed_withdrawal_bundle {
        Some(list) => list[list.len() - 1].height as int,
        None => 0,
    }
}

/// Some unspent output is a withdrawal.
pub open spec fn has_withdrawal(s: StateView) -> bool {
    exists|k: OutPoint| #[trigger] s.utxos.contains_key(k) && s.utxos[k].content is Withdrawal
}

// There are finitely many unspent outputs.
/// A bundle spends outputs.
proof fn spending_stays_finite(
    ledger: Ledger,
    m6id: M6id,
    spend: Seq<(OutPoint, OutputView)>,
    n: nat,
)
    requires
        ledger.utxos.dom().finite(),
    ensures
        bundle_spent(ledger, m6id, spend, n).utxos.dom().finite(),
    decreases n,
{
    if n > 0 {
        spending_stays_finite(ledger, m6id, spend, (n - 1) as nat);
    }
}

/// A bundle gives outputs back.
proof fn returning_stays_finite(ledger: Ledger, spend: Seq<(OutPoint, OutputView)>, n: nat)
    requires
        ledger.utxos.dom().finite(),
    ensures
        bundle_returned(ledger, spend, n).utxos.dom().finite(),
    decreases n,
{
    if n > 0 {
        returning_stays_finite(ledger, spend, (n - 1) as nat);
    }
}

/// What events keep.
spec fn is_kept(s: StateView, after: StateView) -> bool {
    &&& s.utxos.dom().finite() ==> after.utxos.dom().finite()
    &&& after.tip == s.tip
    &&& after.height == s.height
    &&& after.swaps == s.swaps
    &&& after.locked_swap_outputs == s.locked_swap_outputs
    &&& after.accumulator == s.accumulator
    &&& after.withdrawal_bundle_failure_gap == s.withdrawal_bundle_failure_gap
}

/// An event keeps it.
proof fn event_keeps(run: Run, height: u32, hash: MainBlockHash, event: BlockEventView)
    ensures
        is_kept(run.state, event_connected(run, height, hash, event).state),
{
    let s = run.state;
    match event {
        BlockEventView::WithdrawalBundle(event) => {
            let start = Ledger::of(s, run.diff);
            if s.utxos.dom().finite() {
                if s.pending_withdrawal_bundle is Some {
                    let (bundle, _) = s.pending_withdrawal_bundle->0;
                    let spend = bundle.spend_utxos;
                    spending_stays_finite(start, event.m6id, spend, spend.len());
                }
                if s.withdrawal_bundles.contains_key(event.m6id)
                    && s.withdrawal_bundles[event.m6id].0 is Known {
                    let spend = s.withdrawal_bundles[event.m6id].0->Known_0.spend_utxos;
                    returning_stays_finite(start, spend, spend.len());
                }
            }
        },
        _ => {},
    }
}

/// Events keep it.
proof fn events_keep(
    run: Run,
    height: u32,
    hash: MainBlockHash,
    events: Seq<BlockEventView>,
    n: nat,
)
    ensures
        is_kept(run.state, events_connected(run, height, hash, events, n).state),
    decreases n,
{
    if n > 0 {
        let before = events_connected(run, height, hash, events, (n - 1) as nat);
        events_keep(run, height, hash, events, (n - 1) as nat);
        event_keeps(before, height, hash, events[n - 1]);
    }
}

/// The events of blocks keep it.
proof fn blocks_keep(
    run: Run,
    height: u32,
    blocks: Seq<(MainBlockHash, Seq<BlockEventView>)>,
    n: nat,
)
    ensures
        is_kept(run.state, blocks_connected(run, height, blocks, n).state),
    decreases n,
{
    if n > 0 {
        let before = blocks_connected(run, height, blocks, (n - 1) as nat);
        let (hash, events) = blocks[n - 1];
        blocks_keep(run, height, blocks, (n - 1) as nat);
        events_keep(before, height, hash, events, events.len());
    }
}

/// The events of mainchain blocks leave the tip, its height, swaps, what is locked
/// to them and the accumulator alone.
pub proof fn events_leave_blocks_and_swaps_alone(
    s: StateView,
    blocks: Seq<(MainBlockHash, Seq<BlockEventView>)>,
)
    ensures
        ({
            let mid = events_run(s, blocks).state;
            &&& s.utxos.dom().finite() ==> mid.utxos.dom().finite()
            &&& mid.tip == s.tip
            &&& mid.height == s.height
            &&& mid.swaps == s.swaps
            &&& mid.locked_swap_outputs == s.locked_swap_outputs
            &&& mid.accumulator == s.accumulator
            &&& mid.withdrawal_bundle_failure_gap == s.withdrawal_bundle_failure_gap
        }),
{
    if s.height is Some {
        blocks_keep(Run::start(s), s.height->0, blocks, blocks.len());
    }
}

/// Connecting the events of mainchain blocks makes a bundle when one is due: none is
/// pending after the events, at least as many blocks went by since the last failure
/// as the gap says, and something is withdrawn. The bundle has the name that it was
/// built under, and is that of what is then unspent; it is pending, made at this
/// height. Otherwise no bundle is made, and what is pending stays.
pub proof fn bundles_are_made_when_due(
    s: StateView,
    blocks: Seq<(MainBlockHash, Seq<BlockEventView>)>,
    lookups: Map<SwapId, Seq<L1MatchView>>,
    built: Result<M6id, Rejection>,
)
    requires
        s.utxos.dom().finite(),
        peg_connected(s, blocks, lookups, built).fault is None,
    ensures
        ({
            let mid = events_run(s, blocks).state;
            let done = peg_connected(s, blocks, lookups, built).state;
            let height = s.height->0;
            let waited = height - last_failure(mid);
            let gap = s.withdrawal_bundle_failure_gap;
            &&& s.height is Some
            &&& waited >= 0
            &&& mid.pending_withdrawal_bundle is Some ==> done.pending_withdrawal_bundle
                == mid.pending_withdrawal_bundle
            &&& mid.pending_withdrawal_bundle is None && (waited < gap || !has_withdrawal(mid))
                ==> done.pending_withdrawal_bundle is None
            &&& mid.pending_withdrawal_bundle is None && waited >= gap && has_withdrawal(mid) ==> {
                let (bundle, made_at) = done.pending_withdrawal_bundle->0;
                &&& done.pending_withdrawal_bundle is Some
                &&& made_at == height
                &&& built is Ok
                &&& bundle.m6id == built->Ok_0
                &&& drafted(mid.utxos, height) matches Ok(Some(draft)) && {
                    &&& bundle.fee == draft.fee
                    &&& bundle.spend_utxos == draft.spend_utxos
                    &&& bundle.outputs == draft.outputs
                }
            }
        }),
{
    let run = events_run(s, blocks);
    let height = s.height->0;
    let tip = run.state.tip->0;
    let swaps = all_swaps(run.state);
    events_leave_blocks_and_swaps_alone(s, blocks);
    looking_keeps(run.state, swaps, height, tip, lookups, swaps.len());
    nothing_is_drafted_of_nothing(run.state.utxos, height);
    assert(run_noted(run, height, tip, lookups).fault is None);
    if has_withdrawal(run.state) {
        let k = choose|k: OutPoint| #[trigger]
            run.state.utxos.contains_key(k) && run.state.utxos[k].content is Withdrawal;
        assert(is_withdrawal(run.state.utxos, k));
    } else {
        assert forall|k: OutPoint| !#[trigger] is_withdrawal(run.state.utxos, k) by {
            if is_withdrawal(run.state.utxos, k) {
                assert(run.state.utxos.contains_key(k));
            }
        }
    }
}

/// Where a bundle is due, and could be connected with some name, connecting is
/// turned down if the bundle cannot be built, with the reason, and none is pending
/// then.
pub proof fn bundles_that_are_not_built_are_reported(
    s: StateView,
    blocks: Seq<(MainBlockHash, Seq<BlockEventView>)>,
    lookups: Map<SwapId, Seq<L1MatchView>>,
    name: M6id,
    why: Rejection,
)
    requires
        s.utxos.dom().finite(),
        peg_connected(s, blocks, lookups, Ok(name)).fault is None,
        events_run(s, blocks).state.pending_withdrawal_bundle is None,
        s.height->0 - last_failure(events_run(s, blocks).state) >= s.withdrawal_bundle_failure_gap,
        has_withdrawal(events_run(s, blocks).state),
    ensures
        peg_connected(s, blocks, lookups, Err(why)).fault == Some(
            Fault::Error(Error::WithdrawalBundle(why)),
        ),
        peg_connected(s, blocks, lookups, Err(why)).state.pending_withdrawal_bundle is None,
{
    let run = events_run(s, blocks);
    let height = s.height->0;
    let tip = run.state.tip->0;
    let swaps = all_swaps(run.state);
    bundles_are_made_when_due(s, blocks, lookups, Ok(name));
    events_leave_blocks_and_swaps_alone(s, blocks);
    looking_keeps(run.state, swaps, height, tip, lookups, swaps.len());
    assert(run_noted(run, height, tip, lookups).fault is None);
}

/// None of the events of blocks is one of a bundle.
pub open spec fn are_deposits(blocks: Seq<(MainBlockHash, Seq<BlockEventView>)>) -> bool {
    forall|i: int, j: int|
        #![trigger blocks[i].1[j]]
        0 <= i < blocks.len() && 0 <= j < blocks[i].1.len() ==> blocks[i].1[j] is Deposit
}

/// Two states know the same of bundles.
spec fn same_bundles(a: StateView, b: StateView) -> bool {
    &&& a.pending_withdrawal_bundle == b.pending_withdrawal_bundle
    &&& a.latest_failed_withdrawal_bundle == b.latest_failed_withdrawal_bundle
    &&& a.withdrawal_bundles == b.withdrawal_bundles
    &&& a.stxos == b.stxos
}

/// Deposits do not change what is known of bundles.
proof fn deposits_keep_bundles(
    run: Run,
    height: u32,
    hash: MainBlockHash,
    events: Seq<BlockEventView>,
    n: nat,
)
    requires
        n <= events.len(),
        forall|j: int| 0 <= j < events.len() ==> #[trigger] events[j] is Deposit,
    ensures
        same_bundles(events_connected(run, height, hash, events, n).state, run.state),
        run.fault is None ==> events_connected(run, height, hash, events, n).fault is None,
    decreases n,
{
    if n > 0 {
        deposits_keep_bundles(run, height, hash, events, (n - 1) as nat);
        assert(events[n - 1] is Deposit);
    }
}

/// The deposits of blocks do not change what is known of bundles.
proof fn blocks_of_deposits_keep_bundles(
    run: Run,
    height: u32,
    blocks: Seq<(MainBlockHash, Seq<BlockEventView>)>,
    n: nat,
)
    requires
        n <= blocks.len(),
        are_deposits(blocks),
    ensures
        same_bundles(blocks_connected(run, height, blocks, n).state, run.state),
        run.fault is None ==> blocks_connected(run, height, blocks, n).fault is None,
    decreases n,
{
    if n > 0 {
        let before = blocks_connected(run, height, blocks, (n - 1) as nat);
        let (hash, events) = blocks[n - 1];
        blocks_of_deposits_keep_bundles(run, height, blocks, (n - 1) as nat);
        assert forall|j: int| 0 <= j < events.len() implies #[trigger] events[j] is Deposit by {
            assert(blocks[n - 1].1[j] is Deposit);
        }
        deposits_keep_bundles(before, height, hash, events, events.len());
    }
}

/// Where the events of blocks are all deposits, whether a bundle is due goes by what
/// was known of bundles before.
pub proof fn deposits_leave_bundles_alone(
    s: StateView,
    blocks: Seq<(MainBlockHash, Seq<BlockEventView>)>,
)
    requires
        are_deposits(blocks),
    ensures
        ({
            let mid = events_run(s, blocks).state;
            &&& mid.pending_withdrawal_bundle == s.pending_withdrawal_bundle
            &&& mid.latest_failed_withdrawal_bundle == s.latest_failed_withdrawal_bundle
            &&& mid.withdrawal_bundles == s.withdrawal_bundles
            &&& mid.stxos == s.stxos
            &&& last_failure(mid) == last_failure(s)
            &&& s.height is Some && s.tip is Some ==> events_run(s, blocks).fault is None
        }),
{
    if s.height is Some {
        blocks_of_deposits_keep_bundles(Run::start(s), s.height->0, blocks, blocks.len());
        blocks_keep(Run::start(s), s.height->0, blocks, blocks.len());
    }
}

/// Without a height, or without a tip, no events are connected.
pub proof fn events_need_a_tip(
    s: StateView,
    blocks: Seq<(MainBlockHash, Seq<BlockEventView>)>,
    lookups: Map<SwapId, Seq<L1MatchView>>,
    built: Result<M6id, Rejection>,
)
    ensures
        s.height is None ==> peg_connected(s, blocks, lookups, built).fault == Some(
            Fault::Error(Error::NoTip),
        ) && peg_connected(s, blocks, lookups, built).state == s,
        s.height is Some && s.tip is None && are_deposits(blocks) ==> peg_connected(
            s,
            blocks,
            lookups,
            built,
        ).fault == Some(Fault::Error(Error::NoTip)),
{
    if s.height is Some && are_deposits(blocks) {
        deposits_leave_bundles_alone(s, blocks);
        blocks_of_deposits_keep_bundles(Run::start(s), s.height->0, blocks, blocks.len());
        blocks_keep(Run::start(s), s.height->0, blocks, blocks.len());
    }
}

/// When the events of mainchain blocks are taken back, a bundle that was made at the
/// block before is forgotten if more blocks than the gap went by since the last
/// failure; any other bundle stays pending.
pub proof fn bundles_are_forgotten_with_their_block(
    s: StateView,
    blocks: Seq<(MainBlockHash, Seq<BlockEventView>)>,
)
    requires
        peg_disconnected(s, blocks).fault is None,
    ensures
        ({
            let run = blocks_undone(Run::start(s), s.height->0, blocks, blocks.len());
            let mid = run.state;
            let done = peg_disconnected(s, blocks).state;
            let height = s.height->0;
            let waited = height - last_failure(mid);
            let made_before = mid.pending_withdrawal_bundle matches Some((_, made_at)) && made_at
                == height - 1;
            &&& s.height is Some
            &&& waited >= 0
            &&& waited > mid.withdrawal_bundle_failure_gap && made_before
                ==> done.pending_withdrawal_bundle is None
            &&& !(waited > mid.withdrawal_bundle_failure_gap && made_before)
                ==> done.pending_withdrawal_bundle == mid.pending_withdrawal_bundle
        }),
{
}

} // verus!
