//! Connecting and disconnecting the events of mainchain blocks.
use vstd::prelude::*;

use crate::accumulator::{AccumulatorDiff, DiffView};
use crate::block_model::halts;
use crate::bundle::{
    collect_withdrawal_bundle, is_built, is_collected, is_collection, may_build, BundleDraft,
};
use crate::coinshift::{process_coinshift_transactions, L1Match};
use crate::error::{Error, Fault, Halt, Rejection};
use crate::ids::{BlockHash, M6id, MainBlockHash, SwapId};
use crate::mainchain::{BlockEvent, BlockEventView, TwoWayPegData};
use crate::peg_events::{connect_withdrawal_bundle_event, disconnect_withdrawal_bundle_event};
use crate::peg_model::{
    block_noted, blocks_connected, blocks_undone, deposit_block_undone, due_draft,
    event_block_undone, event_connected, event_undone, events_connected, events_run, events_undone,
    failure_height, is_peg_connected, is_peg_staged, is_run_finished, is_run_staged, last_block,
    may_build_if_any, may_halt, peg_connect_staged, peg_diff_applied, peg_disconnect_staged,
    peg_disconnected, peg_draft, pending_undone, run_draft, run_noted, run_staged, PegDone, PegStep,
    Run,
};
use crate::state::{State, StateView};
use crate::table::Table;
use crate::types::OutPoint;
use crate::withdrawal::WithdrawalBundle;

verus! {

/// Connects an event.
pub fn connect_event(
    state: &mut State,
    block_height: u32,
    diff: &mut AccumulatorDiff,
    latest_deposit_block_hash: &mut Option<MainBlockHash>,
    latest_withdrawal_bundle_event_block_hash: &mut Option<MainBlockHash>,
    event_block_hash: MainBlockHash,
    event: &BlockEvent,
) -> (r: Result<(), Fault>)
    ensures
        ({
            let run = event_connected(
                Run {
                    state: old(state)@,
                    diff: old(diff)@,
                    deposit_block: *old(latest_deposit_block_hash),
                    bundle_event_block: *old(latest_withdrawal_bundle_event_block_hash),
                    fault: None,
                },
                block_height,
                event_block_hash,
                event.deep_view(),
            );
            &&& final(state)@ == run.state
            &&& final(diff)@ == run.diff
            &&& *final(latest_deposit_block_hash) == run.deposit_block
            &&& *final(latest_withdrawal_bundle_event_block_hash) == run.bundle_event_block
            &&& r == run.reports()
        }),
{
    match event {
        BlockEvent::Deposit(deposit) => {
            let outpoint = OutPoint::Deposit { main_txid: deposit.txid, vout: deposit.vout };
            state.utxos.put(outpoint, deposit.output.clone());
            diff.insert(deposit.output.leaf);
            *latest_deposit_block_hash = Some(event_block_hash);
            Ok(())
        },
        BlockEvent::WithdrawalBundle(bundle_event) => {
            match connect_withdrawal_bundle_event(
                state,
                block_height,
                diff,
                event_block_hash,
                bundle_event,
            ) {
                Ok(()) => {
                    *latest_withdrawal_bundle_event_block_hash = Some(event_block_hash);
                    Ok(())
                },
                Err(fault) => Err(fault),
            }
        },
    }
}

/// Disconnects an event.
pub fn disconnect_event(
    state: &mut State,
    block_height: u32,
    diff: &mut AccumulatorDiff,
    latest_deposit_block_hash: &mut Option<MainBlockHash>,
    latest_withdrawal_bundle_event_block_hash: &mut Option<MainBlockHash>,
    event_block_hash: MainBlockHash,
    event: &BlockEvent,
) -> (r: Result<(), Fault>)
    ensures
        ({
            let run = event_undone(
                Run {
                    state: old(state)@,
                    diff: old(diff)@,
                    deposit_block: *old(latest_deposit_block_hash),
                    bundle_event_block: *old(latest_withdrawal_bundle_event_block_hash),
                    fault: None,
                },
                block_height,
                event_block_hash,
                event.deep_view(),
            );
            &&& final(state)@ == run.state
            &&& final(diff)@ == run.diff
            &&& *final(latest_deposit_block_hash) == run.deposit_block
            &&& *final(latest_withdrawal_bundle_event_block_hash) == run.bundle_event_block
            &&& r == run.reports()
        }),
{
    match event {
        BlockEvent::Deposit(deposit) => {
            let outpoint = OutPoint::Deposit { main_txid: deposit.txid, vout: deposit.vout };
            if !state.utxos.delete(&outpoint) {
                assert(state@.utxos =~= old(state)@.utxos);
                return Err(Fault::Error(Error::NoUtxo { outpoint }));
            }
            diff.remove(deposit.output.leaf);
            *latest_deposit_block_hash = Some(event_block_hash);
            Ok(())
        },
        BlockEvent::WithdrawalBundle(bundle_event) => {
            match disconnect_withdrawal_bundle_event(state, block_height, diff, bundle_event) {
                Ok(()) => {
                    *latest_withdrawal_bundle_event_block_hash = Some(event_block_hash);
                    Ok(())
                },
                Err(fault) => Err(fault),
            }
        },
    }
}

/// Once an event failed, no more are connected.
proof fn events_stay(
    run: Run,
    height: u32,
    hash: MainBlockHash,
    events: Seq<BlockEventView>,
    i: nat,
    n: nat,
)
    requires
        i <= n,
        events_connected(run, height, hash, events, i).fault is Some,
    ensures
        events_connected(run, height, hash, events, n) == events_connected(
            run,
            height,
            hash,
            events,
            i,
        ),
    decreases n - i,
{
    if i < n {
        events_stay(run, height, hash, events, i, (n - 1) as nat);
    }
}

/// Once a block failed, no more are connected.
proof fn blocks_stay(
    run: Run,
    height: u32,
    blocks: Seq<(MainBlockHash, Seq<BlockEventView>)>,
    i: nat,
    n: nat,
)
    requires
        i <= n,
        blocks_connected(run, height, blocks, i).fault is Some,
    ensures
        blocks_connected(run, height, blocks, n) == blocks_connected(run, height, blocks, i),
    decreases n - i,
{
    if i < n {
        blocks_stay(run, height, blocks, i, (n - 1) as nat);
    }
}

/// Connects the events of a block.
fn connect_block(
    state: &mut State,
    block_height: u32,
    diff: &mut AccumulatorDiff,
    deposit_block: &mut Option<MainBlockHash>,
    bundle_event_block: &mut Option<MainBlockHash>,
    hash: MainBlockHash,
    events: &Vec<BlockEvent>,
) -> (r: Result<(), Fault>)
    ensures
        ({
            let run = events_connected(
                Run {
                    state: old(state)@,
                    diff: old(diff)@,
                    deposit_block: *old(deposit_block),
                    bundle_event_block: *old(bundle_event_block),
                    fault: None,
                },
                block_height,
                hash,
                events.deep_view(),
                events.deep_view().len(),
            );
            &&& final(state)@ == run.state
            &&& final(diff)@ == run.diff
            &&& *final(deposit_block) == run.deposit_block
            &&& *final(bundle_event_block) == run.bundle_event_block
            &&& r == run.reports()
        }),
{
    let ghost all = events.deep_view();
    let ghost start = Run {
        state: state@,
        diff: diff@,
        deposit_block: *deposit_block,
        bundle_event_block: *bundle_event_block,
        fault: None,
    };
    let n: usize = events.len();
    for i in 0..n
        invariant
            n == events@.len(),
            all == events.deep_view(),
            start == (Run {
                state: old(state)@,
                diff: old(diff)@,
                deposit_block: *old(deposit_block),
                bundle_event_block: *old(bundle_event_block),
                fault: None,
            }),
            events_connected(start, block_height, hash, all, i as nat) == (Run {
                state: state@,
                diff: diff@,
                deposit_block: *deposit_block,
                bundle_event_block: *bundle_event_block,
                fault: None,
            }),
    {
        assert(all[i as int] == events@[i as int].deep_view());
        match connect_event(
            state,
            block_height,
            diff,
            deposit_block,
            bundle_event_block,
            hash,
            &events[i],
        ) {
            Ok(()) => {},
            Err(fault) => {
                proof {
                    events_stay(start, block_height, hash, all, (i + 1) as nat, n as nat);
                }
                return Err(fault);
            },
        }
    }
    Ok(())
}

/// Disconnects the events of a block, last to first.
fn disconnect_block(
    state: &mut State,
    block_height: u32,
    diff: &mut AccumulatorDiff,
    deposit_block: &mut Option<MainBlockHash>,
    bundle_event_block: &mut Option<MainBlockHash>,
    hash: MainBlockHash,
    events: &Vec<BlockEvent>,
) -> (r: Result<(), Fault>)
    ensures
        ({
            let run = events_undone(
                Run {
                    state: old(state)@,
                    diff: old(diff)@,
                    deposit_block: *old(deposit_block),
                    bundle_event_block: *old(bundle_event_block),
                    fault: None,
                },
                block_height,
                hash,
                events.deep_view(),
                events.deep_view().len(),
            );
            &&& final(state)@ == run.state
            &&& final(diff)@ == run.diff
            &&& *final(deposit_block) == run.deposit_block
            &&& *final(bundle_event_block) == run.bundle_event_block
            &&& r == run.reports()
        }),
{
    let ghost all = events.deep_view();
    let ghost goal = events_undone(
        Run {
            state: state@,
            diff: diff@,
            deposit_block: *deposit_block,
            bundle_event_block: *bundle_event_block,
            fault: None,
        },
        block_height,
        hash,
        all,
        all.len(),
    );
    let mut left: usize = events.len();
    while left > 0
        invariant
            left <= events@.len(),
            all == events.deep_view(),
            goal == events_undone(
                Run {
                    state: state@,
                    diff: diff@,
                    deposit_block: *deposit_block,
                    bundle_event_block: *bundle_event_block,
                    fault: None,
                },
                block_height,
                hash,
                all,
                left as nat,
            ),
            goal == events_undone(
                Run {
                    state: old(state)@,
                    diff: old(diff)@,
                    deposit_block: *old(deposit_block),
                    bundle_event_block: *old(bundle_event_block),
                    fault: None,
                },
                block_height,
                hash,
                all,
                all.len(),
            ),
        decreases left,
    {
        left = left - 1;
        assert(all[left as int] == events@[left as int].deep_view());
        match disconnect_event(
            state,
            block_height,
            diff,
            deposit_block,
            bundle_event_block,
            hash,
            &events[left],
        ) {
            Ok(()) => {},
            Err(fault) => {
                proof {
                    reveal_with_fuel(events_undone, 2);
                }
                return Err(fault);
            },
        }
    }
    Ok(())
}

/// The last entry of a numbered list of blocks.
fn find_last_block(blocks: &Table<u32, (MainBlockHash, u32)>) -> (r: Option<
    (u32, MainBlockHash, u32),
>)
    ensures
        r == last_block(blocks@),
{
    match blocks.last() {
        Some((number, block)) => Some((number, block.0, block.1)),
        None => None,
    }
}

/// Adds a block to a numbered list of blocks, and tells whether its number was
/// in range.
fn note_block(
    blocks: &mut Table<u32, (MainBlockHash, u32)>,
    hash: Option<MainBlockHash>,
    height: u32,
) -> (r: bool)
    ensures
        match block_noted(old(blocks)@, hash, height) {
            Some(after) => r && final(blocks)@ == after,
            None => !r && final(blocks)@ == old(blocks)@,
        },
{
    if let Some(hash) = hash {
        let number: u32 = match find_last_block(blocks) {
            Some((last, _, _)) => {
                if last == u32::MAX {
                    return false;
                }
                last + 1
            },
            None => 0,
        };
        blocks.put(number, (hash, height));
    }
    true
}

/// The height of the last failure of a bundle; 0 where there was none.
fn last_failure_height(state: &State) -> (r: u32)
    ensures
        r == failure_height(state@),
{
    match &state.latest_failed_withdrawal_bundle {
        Some(list) => list.latest().height,
        None => 0,
    }
}

/// Where the events that were connected came from, and where they were connected.
#[derive(Clone, Copy)]
pub struct EventRun {
    pub block_height: u32,
    pub block_hash: BlockHash,
    pub deposit_block: Option<MainBlockHash>,
    pub bundle_event_block: Option<MainBlockHash>,
}

impl EventRun {
    /// The run with the state and the change to the accumulator that it led to.
    pub open spec fn led_to(self, state: StateView, diff: DiffView) -> Run {
        Run {
            state,
            diff,
            deposit_block: self.deposit_block,
            bundle_event_block: self.bundle_event_block,
            fault: None,
        }
    }
}

/// Connects the events of mainchain blocks, where there is a tip. The change to
/// the accumulator is gathered in `diff`.
pub fn run_events(
    state: &mut State,
    diff: &mut AccumulatorDiff,
    data: &TwoWayPegData,
) -> (r: Result<EventRun, Fault>)
    requires
        old(diff)@ == DiffView::none(),
    ensures
        ({
            let run = events_run(old(state)@, data.deep_view());
            &&& final(state)@ == run.state
            &&& final(diff)@ == run.diff
            &&& match r {
                Ok(found) => run == found.led_to(run.state, run.diff) && old(state)@.height == Some(
                    found.block_height,
                ) && run.state.tip == Some(found.block_hash),
                Err(fault) => run.fault == Some(fault),
            }
        }),
{
    let block_height: u32 = match state.height {
        Some(height) => height,
        None => {
            return Err(Fault::Error(Error::NoTip));
        },
    };
    let ghost blocks = data.deep_view();
    let ghost start = Run::start(state@);
    let mut deposit_block: Option<MainBlockHash> = None;
    let mut bundle_event_block: Option<MainBlockHash> = None;
    let n: usize = data.block_info.len();
    for i in 0..n
        invariant
            n == data.block_info@.len(),
            blocks == data.deep_view(),
            start == Run::start(old(state)@),
            old(state)@.height == Some(block_height),
            blocks_connected(start, block_height, blocks, i as nat) == (Run {
                state: state@,
                diff: diff@,
                deposit_block,
                bundle_event_block,
                fault: None,
            }),
    {
        let block = &data.block_info[i];
        assert(blocks[i as int].0 == block.0);
        assert(blocks[i as int].1 == block.1.deep_view());
        match connect_block(
            state,
            block_height,
            diff,
            &mut deposit_block,
            &mut bundle_event_block,
            block.0,
            &block.1,
        ) {
            Ok(()) => {},
            Err(fault) => {
                proof {
                    blocks_stay(start, block_height, blocks, (i + 1) as nat, n as nat);
                }
                return Err(fault);
            },
        }
    }
    match state.tip {
        Some(block_hash) => Ok(
            EventRun { block_height, block_hash, deposit_block, bundle_event_block },
        ),
        None => Err(Fault::Error(Error::NoTip)),
    }
}

/// Looks at swaps after events were connected, and notes where the events came
/// from. `lookups` holds what parent chains answered when they were asked for
/// the payments of swaps.
pub fn note_run(
    state: &mut State,
    run: &EventRun,
    lookups: &Table<SwapId, Vec<L1Match>>,
) -> (r: Result<(), Fault>)
    ensures
        forall|diff: DiffView|
            ({
                let step = run_noted(
                    #[trigger] run.led_to(old(state)@, diff),
                    run.block_height,
                    run.block_hash,
                    lookups@,
                );
                &&& final(state)@ == step.state
                &&& step.diff == diff
                &&& r == step.reports()
            }),
{
    process_coinshift_transactions(state, run.block_height, run.block_hash, lookups);
    if !note_block(&mut state.deposit_blocks, run.deposit_block, run.block_height) {
        return Err(Fault::Halt(Halt::OutOfRange));
    }
    if !note_block(
        &mut state.withdrawal_bundle_event_blocks,
        run.bundle_event_block,
        run.block_height,
    ) {
        return Err(Fault::Halt(Halt::OutOfRange));
    }
    Ok(())
}

/// Makes a bundle, if one is due.
fn make_due_bundle<F: Fn(&BundleDraft) -> Result<M6id, Rejection>>(
    state: &State,
    height: u32,
    build: &F,
) -> (r: Result<Option<WithdrawalBundle>, Fault>)
    requires
        forall|d: BundleDraft| call_requires(*build, (&d,)),
    ensures
        is_collection(*build, due_draft(state@, height), r),
{
    let failure: u32 = last_failure_height(state);
    if height < failure {
        return Err(Fault::Halt(Halt::OutOfRange));
    }
    if height - failure >= state.withdrawal_bundle_failure_gap
        && state.pending_withdrawal_bundle.is_none() {
        collect_withdrawal_bundle(state, height, build)
    } else {
        Ok(None)
    }
}

/// Takes a change into the accumulator.
fn take_diff(state: &mut State, diff: &AccumulatorDiff) -> (r: Result<(), Fault>)
    ensures
        ({
            let done = peg_diff_applied(PegStep { state: old(state)@, diff: diff@, fault: None });
            &&& final(state)@ == done.state
            &&& r == done.reports()
        }),
{
    let changed = state.accumulator.with_diff(diff);
    state.take_change(changed)
}

/// Does what comes after events were connected: looks at swaps, and makes a
/// bundle if one is due, up to the change to the accumulator. `lookups` holds
/// what parent chains answered when they were asked for the payments of swaps;
/// `build` builds the mainchain transaction of a bundle, and says what it is
/// called or why it cannot be. Where this fails, what was done until then is left
/// as it is.
pub fn stage_run<F: Fn(&BundleDraft) -> Result<M6id, Rejection>>(
    state: &mut State,
    diff: &AccumulatorDiff,
    run: &EventRun,
    lookups: &Table<SwapId, Vec<L1Match>>,
    build: &F,
) -> (r: Result<(), Fault>)
    requires
        forall|d: BundleDraft| call_requires(*build, (&d,)),
    ensures
        is_run_staged(
            *build,
            run.led_to(old(state)@, diff@),
            run.block_height,
            run.block_hash,
            lookups@,
            (PegStep {
                state: final(state)@,
                diff: diff@,
                fault: match r {
                    Ok(()) => None,
                    Err(fault) => Some(fault),
                },
            }),
        ),
{
    let height: u32 = run.block_height;
    let ghost start = run.led_to(state@, diff@);
    let ghost draft = run_draft(start, height, run.block_hash, lookups@);
    match note_run(state, run, lookups) {
        Ok(()) => {},
        Err(fault) => {
            assert(may_build_if_any(*build, draft, Ok(arbitrary())));
            return Err(fault);
        },
    }
    let due = make_due_bundle(state, height, build);
    let ghost built = match draft {
        Some(view) => choose|built: Result<M6id, Rejection>|
            may_build(*build, view, built) && #[trigger] is_collected(due, view, built),
        None => Ok(arbitrary()),
    };
    assert(may_build_if_any(*build, draft, built)) by {
        if draft is Some {
            assert(is_built(*build, draft->0, due));
        }
    }
    match due {
        Ok(Some(bundle)) => {
            state.pending_withdrawal_bundle = Some((bundle, height));
            Ok(())
        },
        Ok(None) => Ok(()),
        Err(fault) => Err(fault),
    }
}

/// Does what comes after events were connected: looks at swaps, makes a bundle
/// if one is due, and takes the change into the accumulator. `lookups` holds what
/// parent chains answered when they were asked for the payments of swaps; `build`
/// builds the mainchain transaction of a bundle, and says what it is called or
/// why it cannot be. Where this fails, what was done until then is left as it is.
pub fn finish_run<F: Fn(&BundleDraft) -> Result<M6id, Rejection>>(
    state: &mut State,
    diff: &AccumulatorDiff,
    run: &EventRun,
    lookups: &Table<SwapId, Vec<L1Match>>,
    build: &F,
) -> (r: Result<(), Fault>)
    requires
        forall|d: BundleDraft| call_requires(*build, (&d,)),
    ensures
        is_run_finished(
            *build,
            run.led_to(old(state)@, diff@),
            run.block_height,
            run.block_hash,
            lookups@,
            (PegDone {
                state: final(state)@,
                fault: match r {
                    Ok(()) => None,
                    Err(fault) => Some(fault),
                },
            }),
        ),
{
    let ghost start = run.led_to(state@, diff@);
    let ghost draft = run_draft(start, run.block_height, run.block_hash, lookups@);
    let staged = stage_run(state, diff, run, lookups, build);
    let ghost step = PegStep {
        state: state@,
        diff: diff@,
        fault: match staged {
            Ok(()) => None,
            Err(fault) => Some(fault),
        },
    };
    let ghost built = choose|built: Result<M6id, Rejection>| #[trigger]
        may_build_if_any(*build, draft, built) && step == run_staged(
            start,
            run.block_height,
            run.block_hash,
            lookups@,
            built,
        );
    assert(may_build_if_any(*build, draft, built));
    match staged {
        Err(fault) => Err(fault),
        Ok(()) => take_diff(state, diff),
    }
}

/// Connects the events of mainchain blocks, and makes a bundle if one is due, up
/// to the change to the accumulator, which is gathered in `diff`. `lookups` holds
/// what parent chains answered when they were asked for the payments of swaps;
/// `build` builds the mainchain transaction of a bundle, and says what it is
/// called or why it cannot be. Where this fails, what was done until then is left
/// as it is.
pub fn stage_connect<F: Fn(&BundleDraft) -> Result<M6id, Rejection>>(
    state: &mut State,
    diff: &mut AccumulatorDiff,
    data: &TwoWayPegData,
    lookups: &Table<SwapId, Vec<L1Match>>,
    build: &F,
) -> (r: Result<(), Fault>)
    requires
        old(diff)@ == DiffView::none(),
        forall|d: BundleDraft| call_requires(*build, (&d,)),
    ensures
        is_peg_staged(
            *build,
            old(state)@,
            data.deep_view(),
            lookups@,
            (PegStep {
                state: final(state)@,
                diff: final(diff)@,
                fault: match r {
                    Ok(()) => None,
                    Err(fault) => Some(fault),
                },
            }),
        ),
{
    let ghost s = state@;
    let ghost blocks = data.deep_view();
    let ghost draft = peg_draft(s, blocks, lookups@);
    let run = match run_events(state, diff, data) {
        Ok(run) => run,
        Err(fault) => {
            assert(may_build_if_any(*build, draft, Ok(arbitrary())));
            return Err(fault);
        },
    };
    let ghost start = run.led_to(state@, diff@);
    let staged = stage_run(state, diff, &run, lookups, build);
    let ghost step = PegStep {
        state: state@,
        diff: diff@,
        fault: match staged {
            Ok(()) => None,
            Err(fault) => Some(fault),
        },
    };
    let ghost built = choose|built: Result<M6id, Rejection>| #[trigger]
        may_build_if_any(*build, draft, built) && step == run_staged(
            start,
            run.block_height,
            run.block_hash,
            lookups@,
            built,
        );
    assert(may_build_if_any(*build, draft, built));
    staged
}

/// Connects the events of mainchain blocks, and makes a bundle if one is due.
/// `lookups` holds what parent chains answered when they were asked for the
/// payments of swaps; `build` builds the mainchain transaction of a bundle, and
/// says what it is called or why it cannot be. Where this fails, what was done
/// until then is left as it is.
pub fn try_connect<F: Fn(&BundleDraft) -> Result<M6id, Rejection>>(
    state: &mut State,
    data: &TwoWayPegData,
    lookups: &Table<SwapId, Vec<L1Match>>,
    build: &F,
) -> (r: Result<(), Fault>)
    requires
        forall|d: BundleDraft| call_requires(*build, (&d,)),
    ensures
        is_peg_connected(
            *build,
            old(state)@,
            data.deep_view(),
            lookups@,
            (PegDone {
                state: final(state)@,
                fault: match r {
                    Ok(()) => None,
                    Err(fault) => Some(fault),
                },
            }),
        ),
{
    let ghost s = state@;
    let ghost blocks = data.deep_view();
    let ghost draft = peg_draft(s, blocks, lookups@);
    let mut diff = AccumulatorDiff::new();
    let staged = stage_connect(state, &mut diff, data, lookups, build);
    let ghost step = PegStep {
        state: state@,
        diff: diff@,
        fault: match staged {
            Ok(()) => None,
            Err(fault) => Some(fault),
        },
    };
    let ghost built = choose|built: Result<M6id, Rejection>| #[trigger]
        may_build_if_any(*build, draft, built) && step == peg_connect_staged(
            s,
            blocks,
            lookups@,
            built,
        );
    assert(may_build_if_any(*build, draft, built));
    match staged {
        Err(fault) => Err(fault),
        Ok(()) => take_diff(state, &diff),
    }
}

/// Connects the events of mainchain blocks, and makes a bundle if one is due,
/// where that does not come upon a state that cannot be; `try_connect` tells where
/// it does. `lookups` holds what parent chains answered when they were asked for
/// the payments of swaps; `build` builds the mainchain transaction of a bundle,
/// and says what it is called or why it cannot be. Where this fails, what was done
/// until then is left as it is.
pub fn connect<F: Fn(&BundleDraft) -> Result<M6id, Rejection>>(
    state: &mut State,
    data: &TwoWayPegData,
    lookups: &Table<SwapId, Vec<L1Match>>,
    build: &F,
) -> (r: Result<(), Error>)
    requires
        forall|d: BundleDraft| call_requires(*build, (&d,)),
        !may_halt(*build, old(state)@, data.deep_view(), lookups@),
    ensures
        is_peg_connected(
            *build,
            old(state)@,
            data.deep_view(),
            lookups@,
            (PegDone {
                state: final(state)@,
                fault: match r {
                    Ok(()) => None,
                    Err(e) => Some(Fault::Error(e)),
                },
            }),
        ),
{
    match try_connect(state, data, lookups, build) {
        Ok(()) => Ok(()),
        Err(Fault::Error(e)) => Err(e),
        Err(Fault::Halt(_)) => {
            assert(false);
            Ok(())
        },
    }
}

/// Forgets the block that an event of a bundle came from.
fn undo_event_block(state: &mut State, height: u32, hash: Option<MainBlockHash>) -> (r: Result<
    (),
    Fault,
>)
    ensures
        ({
            let done = event_block_undone(old(state)@, height, hash);
            &&& final(state)@ == done.state
            &&& r == done.reports()
        }),
{
    let hash = match hash {
        Some(hash) => hash,
        None => {
            return Ok(());
        },
    };
    match find_last_block(&state.withdrawal_bundle_event_blocks) {
        None => Err(Fault::Error(Error::NoWithdrawalBundleEventBlock)),
        Some(last) => {
            if last.1 != hash || height == 0 || last.2 != height - 1 {
                return Err(Fault::Halt(Halt::LatestEventBlock));
            }
            if !state.deposit_blocks.delete(&last.0) {
                assert(state@.deposit_blocks =~= old(state)@.deposit_blocks);
                return Err(Fault::Error(Error::NoWithdrawalBundleEventBlock));
            }
            Ok(())
        },
    }
}

/// Forgets a bundle that was made at the block before.
fn undo_pending(state: &mut State, height: u32) -> (r: Result<(), Fault>)
    ensures
        ({
            let done = pending_undone(old(state)@, height);
            &&& final(state)@ == done.state
            &&& r == done.reports()
        }),
{
    let failure: u32 = last_failure_height(state);
    if height < failure {
        return Err(Fault::Halt(Halt::OutOfRange));
    }
    let made_before = match &state.pending_withdrawal_bundle {
        Some((_, made_at)) => height > 0 && *made_at == height - 1,
        None => false,
    };
    if height - failure > state.withdrawal_bundle_failure_gap && made_before {
        state.pending_withdrawal_bundle = None;
    }
    Ok(())
}

/// Forgets the block that a deposit came from.
fn undo_deposit_block(state: &mut State, height: u32, hash: Option<MainBlockHash>) -> (r: Result<
    (),
    Fault,
>)
    ensures
        ({
            let done = deposit_block_undone(old(state)@, height, hash);
            &&& final(state)@ == done.state
            &&& r == done.reports()
        }),
{
    let hash = match hash {
        Some(hash) => hash,
        None => {
            return Ok(());
        },
    };
    match find_last_block(&state.deposit_blocks) {
        None => Err(Fault::Error(Error::NoDepositBlock)),
        Some(last) => {
            if last.1 != hash || height == 0 || last.2 != height - 1 {
                return Err(Fault::Halt(Halt::LatestDepositBlock));
            }
            let _ = state.deposit_blocks.delete(&last.0);
            Ok(())
        },
    }
}

/// Disconnects the events of mainchain blocks, last to first, up to the change to
/// the accumulator, which is gathered in `diff`. Where this fails, what was done
/// until then is left as it is.
pub fn stage_disconnect(
    state: &mut State,
    diff: &mut AccumulatorDiff,
    data: &TwoWayPegData,
) -> (r: Result<(), Fault>)
    requires
        old(diff)@ == DiffView::none(),
    ensures
        ({
            let step = peg_disconnect_staged(old(state)@, data.deep_view());
            &&& final(state)@ == step.state
            &&& final(diff)@ == step.diff
            &&& r == step.reports()
        }),
{
    let block_height: u32 = match state.height {
        Some(height) => height,
        None => {
            return Err(Fault::Halt(Halt::NoHeight));
        },
    };
    let ghost blocks = data.deep_view();
    let mut deposit_block: Option<MainBlockHash> = None;
    let mut bundle_event_block: Option<MainBlockHash> = None;
    let ghost goal = blocks_undone(Run::start(state@), block_height, blocks, blocks.len());
    let mut left: usize = data.block_info.len();
    while left > 0
        invariant
            left <= data.block_info@.len(),
            blocks == data.deep_view(),
            old(state)@.height == Some(block_height),
            goal == blocks_undone(
                Run {
                    state: state@,
                    diff: diff@,
                    deposit_block,
                    bundle_event_block,
                    fault: None,
                },
                block_height,
                blocks,
                left as nat,
            ),
            goal == blocks_undone(Run::start(old(state)@), block_height, blocks, blocks.len()),
        decreases left,
    {
        left = left - 1;
        let block = &data.block_info[left];
        assert(blocks[left as int].0 == block.0);
        assert(blocks[left as int].1 == block.1.deep_view());
        match disconnect_block(
            state,
            block_height,
            diff,
            &mut deposit_block,
            &mut bundle_event_block,
            block.0,
            &block.1,
        ) {
            Ok(()) => {},
            Err(fault) => {
                proof {
                    reveal_with_fuel(blocks_undone, 2);
                }
                return Err(fault);
            },
        }
    }
    match undo_event_block(state, block_height, bundle_event_block) {
        Ok(()) => {},
        Err(fault) => {
            return Err(fault);
        },
    }
    match undo_pending(state, block_height) {
        Ok(()) => {},
        Err(fault) => {
            return Err(fault);
        },
    }
    undo_deposit_block(state, block_height, deposit_block)
}

/// Disconnects the events of mainchain blocks, last to first. Where this fails,
/// what was done until then is left as it is.
pub fn try_disconnect(state: &mut State, data: &TwoWayPegData) -> (r: Result<(), Fault>)
    ensures
        ({
            let done = peg_disconnected(old(state)@, data.deep_view());
            &&& final(state)@ == done.state
            &&& r == done.reports()
        }),
{
    let mut diff = AccumulatorDiff::new();
    match stage_disconnect(state, &mut diff, data) {
        Err(fault) => Err(fault),
        Ok(()) => take_diff(state, &diff),
    }
}

/// Disconnects the events of mainchain blocks, last to first, where that does not
/// come upon a state that cannot be; `try_disconnect` tells where it does. Where
/// this fails, what was done until then is left as it is.
pub fn disconnect(state: &mut State, data: &TwoWayPegData) -> (r: Result<(), Error>)
    requires
        !halts(peg_disconnected(old(state)@, data.deep_view()).fault),
    ensures
        ({
            let done = peg_disconnected(old(state)@, data.deep_view());
            &&& final(state)@ == done.state
            &&& r == done.reports_error()
        }),
{
    match try_disconnect(state, data) {
        Ok(()) => Ok(()),
        Err(Fault::Error(e)) => Err(e),
        Err(Fault::Halt(_)) => {
            assert(false);
            Ok(())
        },
    }
}

} // verus!
