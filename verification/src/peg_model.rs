//! What connecting and disconnecting the events of mainchain blocks means.
use vstd::prelude::*;

use crate::accumulator::DiffView;
use crate::block_model::{diff_applied, halts};
use crate::bundle::{bundled, drafted, may_build, BundleDraft, BundleDraftView};
use crate::coinshift::{coinshift_processed, L1MatchView};
use crate::error::{Error, Fault, Halt, Rejection};
use crate::ids::{BlockHash, M6id, MainBlockHash, SwapId};
use crate::mainchain::{BlockEventView, DepositView, WithdrawalBundleEvent};
use crate::rollback::HeightStamped;
use crate::state::StateView;
use crate::table::ordered;
use crate::types::{InPoint, OutPoint, OutputView, SpentOutputView};
use crate::withdrawal::{WithdrawalBundleInfoView, WithdrawalBundleStatus};

verus! {

/// A state that something was done to, the change that this makes to the
/// accumulator, and why it was not done to the end.
#[verifier::ext_equal]
pub struct PegStep {
    pub state: StateView,
    pub diff: DiffView,
    pub fault: Option<Fault>,
}

impl PegStep {
    /// What is reported.
    pub open spec fn reports(self) -> Result<(), Fault> {
        match self.fault {
            Some(fault) => Err(fault),
            None => Ok(()),
        }
    }
}

/// A value set at `height`, where heights do not go down.
pub open spec fn pushed<T>(list: Seq<HeightStamped<T>>, value: T, height: u32) -> Option<
    Seq<HeightStamped<T>>,
> {
    if height < list.last().height {
        None
    } else {
        Some(list.push(HeightStamped { value, height }))
    }
}

/// Outputs, unspent and spent, and the change made to the accumulator.
#[verifier::ext_equal]
pub struct Ledger {
    pub utxos: Map<OutPoint, OutputView>,
    pub stxos: Map<OutPoint, SpentOutputView>,
    pub diff: DiffView,
}

impl Ledger {
    /// That of a state.
    pub open spec fn of(s: StateView, diff: DiffView) -> Ledger {
        Ledger { utxos: s.utxos, stxos: s.stxos, diff }
    }

    /// A state with these outputs in place of its own.
    pub open spec fn in_state(self, s: StateView) -> StateView {
        StateView { utxos: self.utxos, stxos: self.stxos, ..s }
    }
}

// Connecting.
/// A bundle spends the first `n` of its outputs.
pub open spec fn bundle_spent(
    ledger: Ledger,
    m6id: M6id,
    spend: Seq<(OutPoint, OutputView)>,
    n: nat,
) -> Ledger
    decreases n,
{
    if n == 0 {
        ledger
    } else {
        let before = bundle_spent(ledger, m6id, spend, (n - 1) as nat);
        let (outpoint, output) = spend[n - 1];
        Ledger {
            utxos: before.utxos.remove(outpoint),
            stxos: before.stxos.insert(
                outpoint,
                SpentOutputView { output, inpoint: InPoint::Withdrawal { m6id } },
            ),
            diff: before.diff.remove(output.leaf),
        }
    }
}

/// The bundle that waits to be submitted is this one.
pub open spec fn awaits(s: StateView, m6id: M6id) -> bool {
    match s.pending_withdrawal_bundle {
        Some((bundle, _)) => bundle.m6id == m6id,
        None => false,
    }
}

/// A bundle was submitted.
pub open spec fn submitted(s: StateView, diff: DiffView, height: u32, m6id: M6id) -> PegStep {
    let first = seq![HeightStamped { value: WithdrawalBundleStatus::Submitted, height }];
    let unchanged = PegStep { state: s, diff, fault: None };
    if awaits(s, m6id) {
        let (bundle, made_at) = s.pending_withdrawal_bundle->0;
        if made_at != height - 1 {
            PegStep { fault: Some(Fault::Halt(Halt::PendingBundleHeight)), ..unchanged }
        } else {
            let spend = bundle.spend_utxos;
            let spent = bundle_spent(Ledger::of(s, diff), m6id, spend, spend.len());
            PegStep {
                state: StateView {
                    withdrawal_bundles: s.withdrawal_bundles.insert(
                        m6id,
                        (WithdrawalBundleInfoView::Known(bundle), first),
                    ),
                    pending_withdrawal_bundle: None,
                    ..spent.in_state(s)
                },
                diff: spent.diff,
                fault: None,
            }
        }
    } else if s.withdrawal_bundles.contains_key(m6id) {
        if s.withdrawal_bundles[m6id].1.first().value != WithdrawalBundleStatus::Submitted {
            PegStep { fault: Some(Fault::Halt(Halt::BundleStatus)), ..unchanged }
        } else {
            unchanged
        }
    } else {
        PegStep {
            state: StateView {
                withdrawal_bundles: s.withdrawal_bundles.insert(
                    m6id,
                    (WithdrawalBundleInfoView::Unknown, first),
                ),
                ..s
            },
            ..unchanged
        }
    }
}

/// All unspent outputs with their outpoints, in the order of the outpoints.
pub open spec fn listed(utxos: Map<OutPoint, OutputView>) -> Seq<(OutPoint, OutputView)> {
    let keys = ordered(utxos.dom());
    Seq::new(keys.len(), |i: int| (keys[i], utxos[keys[i]]))
}

/// A bundle takes the first `n` of the listed outputs, which are left among the
/// unspent ones for now.
pub open spec fn bundle_took(
    ledger: Ledger,
    m6id: M6id,
    spend: Seq<(OutPoint, OutputView)>,
    n: nat,
) -> Ledger
    decreases n,
{
    if n == 0 {
        ledger
    } else {
        let before = bundle_took(ledger, m6id, spend, (n - 1) as nat);
        let (outpoint, output) = spend[n - 1];
        Ledger {
            stxos: before.stxos.insert(
                outpoint,
                SpentOutputView { output, inpoint: InPoint::Withdrawal { m6id } },
            ),
            diff: before.diff.remove(output.leaf),
            ..before
        }
    }
}

/// A bundle was confirmed. One that was not made here may have taken any
/// output; this is accepted at height 0 alone, where it is taken to have taken
/// all of them.
pub open spec fn confirmed(
    s: StateView,
    diff: DiffView,
    height: u32,
    event_block_hash: MainBlockHash,
    m6id: M6id,
) -> PegStep {
    let unchanged = PegStep { state: s, diff, fault: None };
    if !s.withdrawal_bundles.contains_key(m6id) {
        PegStep {
            fault: Some(Fault::Error(Error::UnknownWithdrawalBundle { m6id })),
            ..unchanged
        }
    } else {
        let (info, status) = s.withdrawal_bundles[m6id];
        let latest = status.last().value;
        if latest == WithdrawalBundleStatus::Confirmed {
            unchanged
        } else if latest != WithdrawalBundleStatus::Submitted {
            PegStep { fault: Some(Fault::Halt(Halt::BundleStatus)), ..unchanged }
        } else if !(info is Known) && height != 0 {
            PegStep {
                fault: Some(
                    Fault::Error(
                        Error::UnknownWithdrawalBundleConfirmed { event_block_hash, m6id },
                    ),
                ),
                ..unchanged
            }
        } else {
            let spend = listed(s.utxos);
            let taken = bundle_took(Ledger::of(s, diff), m6id, spend, spend.len());
            let step = if info is Known {
                unchanged
            } else {
                PegStep {
                    state: Ledger { utxos: Map::empty(), ..taken }.in_state(s),
                    diff: taken.diff,
                    fault: None,
                }
            };
            match pushed(status, WithdrawalBundleStatus::Confirmed, height) {
                None => PegStep { fault: Some(Fault::Halt(Halt::BundleStatusOrder)), ..step },
                Some(status) => PegStep {
                    state: StateView {
                        withdrawal_bundles: s.withdrawal_bundles.insert(
                            m6id,
                            (
                                if info is Known {
                                    info
                                } else {
                                    WithdrawalBundleInfoView::UnknownConfirmed {
                                        spend_utxos: spend,
                                    }
                                },
                                status,
                            ),
                        ),
                        ..step.state
                    },
                    ..step
                },
            }
        }
    }
}

/// A bundle gives back the first `n` of the outputs that it spent.
pub open spec fn bundle_returned(
    ledger: Ledger,
    spend: Seq<(OutPoint, OutputView)>,
    n: nat,
) -> Ledger
    decreases n,
{
    if n == 0 {
        ledger
    } else {
        let before = bundle_returned(ledger, spend, (n - 1) as nat);
        let (outpoint, output) = spend[n - 1];
        Ledger {
            stxos: before.stxos.remove(outpoint),
            utxos: before.utxos.insert(outpoint, output),
            diff: before.diff.insert(output.leaf),
        }
    }
}

/// The bundle that failed last, once `m6id` failed; `None` where heights go
/// down.
pub open spec fn failure_noted(
    latest: Option<Seq<HeightStamped<M6id>>>,
    m6id: M6id,
    height: u32,
) -> Option<Seq<HeightStamped<M6id>>> {
    match latest {
        None => Some(seq![HeightStamped { value: m6id, height }]),
        Some(list) => pushed(list, m6id, height),
    }
}

/// A bundle failed.
pub open spec fn failed(s: StateView, diff: DiffView, height: u32, m6id: M6id) -> PegStep {
    let unchanged = PegStep { state: s, diff, fault: None };
    if !s.withdrawal_bundles.contains_key(m6id) {
        PegStep {
            fault: Some(Fault::Error(Error::UnknownWithdrawalBundle { m6id })),
            ..unchanged
        }
    } else {
        let (info, status) = s.withdrawal_bundles[m6id];
        let latest = status.last().value;
        let after = pushed(status, WithdrawalBundleStatus::Failed, height);
        if latest == WithdrawalBundleStatus::Failed {
            unchanged
        } else if latest != WithdrawalBundleStatus::Submitted {
            PegStep { fault: Some(Fault::Halt(Halt::BundleStatus)), ..unchanged }
        } else if after is None {
            PegStep { fault: Some(Fault::Halt(Halt::BundleStatusOrder)), ..unchanged }
        } else {
            let bundles = s.withdrawal_bundles.insert(m6id, (info, after->0));
            match info {
                WithdrawalBundleInfoView::Known(bundle) => {
                    let spend = bundle.spend_utxos;
                    let back = bundle_returned(Ledger::of(s, diff), spend, spend.len());
                    let step = PegStep { state: back.in_state(s), diff: back.diff, fault: None };
                    match failure_noted(s.latest_failed_withdrawal_bundle, m6id, height) {
                        None => PegStep { fault: Some(Fault::Halt(Halt::FailureOrder)), ..step },
                        Some(list) => PegStep {
                            state: StateView {
                                latest_failed_withdrawal_bundle: Some(list),
                                withdrawal_bundles: bundles,
                                ..step.state
                            },
                            ..step
                        },
                    }
                },
                _ => PegStep {
                    state: StateView { withdrawal_bundles: bundles, ..s },
                    ..unchanged
                },
            }
        }
    }
}

/// Something happened to a bundle.
pub open spec fn bundle_event_connected(
    s: StateView,
    diff: DiffView,
    height: u32,
    event_block_hash: MainBlockHash,
    event: WithdrawalBundleEvent,
) -> PegStep {
    match event.status {
        WithdrawalBundleStatus::Submitted => submitted(s, diff, height, event.m6id),
        WithdrawalBundleStatus::Confirmed => confirmed(
            s,
            diff,
            height,
            event_block_hash,
            event.m6id,
        ),
        WithdrawalBundleStatus::Failed => failed(s, diff, height, event.m6id),
    }
}

/// The outpoint of a deposit.
pub open spec fn deposit_outpoint(deposit: DepositView) -> OutPoint {
    OutPoint::Deposit { main_txid: deposit.txid, vout: deposit.vout }
}

/// A run through events: what was done so far, and the blocks that the last
/// deposit and the last event of a bundle came from.
#[verifier::ext_equal]
pub struct Run {
    pub state: StateView,
    pub diff: DiffView,
    pub deposit_block: Option<MainBlockHash>,
    pub bundle_event_block: Option<MainBlockHash>,
    pub fault: Option<Fault>,
}

impl Run {
    /// A run that has yet to begin.
    pub open spec fn start(state: StateView) -> Run {
        Run {
            state,
            diff: DiffView::none(),
            deposit_block: None,
            bundle_event_block: None,
            fault: None,
        }
    }

    /// What is reported.
    pub open spec fn reports(self) -> Result<(), Fault> {
        match self.fault {
            Some(fault) => Err(fault),
            None => Ok(()),
        }
    }

    /// The run after an event of a bundle.
    pub open spec fn after_bundle_event(self, step: PegStep, hash: MainBlockHash) -> Run {
        Run {
            state: step.state,
            diff: step.diff,
            fault: step.fault,
            bundle_event_block: if step.fault is Some {
                self.bundle_event_block
            } else {
                Some(hash)
            },
            ..self
        }
    }
}

/// An event is connected.
pub open spec fn event_connected(
    run: Run,
    height: u32,
    hash: MainBlockHash,
    event: BlockEventView,
) -> Run {
    match event {
        BlockEventView::Deposit(deposit) => Run {
            state: StateView {
                utxos: run.state.utxos.insert(deposit_outpoint(deposit), deposit.output),
                ..run.state
            },
            diff: run.diff.insert(deposit.output.leaf),
            deposit_block: Some(hash),
            ..run
        },
        BlockEventView::WithdrawalBundle(event) => run.after_bundle_event(
            bundle_event_connected(run.state, run.diff, height, hash, event),
            hash,
        ),
    }
}

/// The first `n` events of a block are connected.
pub open spec fn events_connected(
    run: Run,
    height: u32,
    hash: MainBlockHash,
    events: Seq<BlockEventView>,
    n: nat,
) -> Run
    decreases n,
{
    if n == 0 {
        run
    } else {
        let before = events_connected(run, height, hash, events, (n - 1) as nat);
        if before.fault is Some {
            before
        } else {
            event_connected(before, height, hash, events[n - 1])
        }
    }
}

/// The events of the first `n` blocks are connected.
pub open spec fn blocks_connected(
    run: Run,
    height: u32,
    blocks: Seq<(MainBlockHash, Seq<BlockEventView>)>,
    n: nat,
) -> Run
    decreases n,
{
    if n == 0 {
        run
    } else {
        let before = blocks_connected(run, height, blocks, (n - 1) as nat);
        if before.fault is Some {
            before
        } else {
            events_connected(
                before,
                height,
                blocks[n - 1].0,
                blocks[n - 1].1,
                blocks[n - 1].1.len(),
            )
        }
    }
}

// Disconnecting.
/// Outputs that something was done to, and why it was not done to the end.
#[verifier::ext_equal]
pub struct LedgerStep {
    pub ledger: Ledger,
    pub error: Option<Error>,
}

impl LedgerStep {
    /// Nothing was done yet.
    pub open spec fn start(ledger: Ledger) -> LedgerStep {
        LedgerStep { ledger, error: None }
    }

    /// The state with what was done to outputs.
    pub open spec fn in_state(self, s: StateView) -> PegStep {
        PegStep {
            state: self.ledger.in_state(s),
            diff: self.ledger.diff,
            fault: match self.error {
                Some(e) => Some(Fault::Error(e)),
                None => None,
            },
        }
    }
}

/// The first `n` of the outputs that a submitted bundle spent are given back,
/// last to first.
pub open spec fn spending_undone(
    step: LedgerStep,
    spend: Seq<(OutPoint, OutputView)>,
    n: nat,
) -> LedgerStep
    decreases n,
{
    if n == 0 || step.error is Some {
        step
    } else {
        let (outpoint, output) = spend[n - 1];
        if !step.ledger.stxos.contains_key(outpoint) {
            LedgerStep { error: Some(Error::NoStxo { outpoint }), ..step }
        } else {
            spending_undone(
                LedgerStep {
                    ledger: Ledger {
                        stxos: step.ledger.stxos.remove(outpoint),
                        utxos: step.ledger.utxos.insert(outpoint, output),
                        diff: step.ledger.diff.insert(output.leaf),
                    },
                    error: None,
                },
                spend,
                (n - 1) as nat,
            )
        }
    }
}

/// That a bundle was submitted is taken back.
pub open spec fn submitted_undone(s: StateView, diff: DiffView, height: u32, m6id: M6id) -> PegStep {
    let unchanged = PegStep { state: s, diff, fault: None };
    if !s.withdrawal_bundles.contains_key(m6id) {
        if awaits(s, m6id) {
            unchanged
        } else {
            PegStep {
                fault: Some(Fault::Error(Error::UnknownWithdrawalBundle { m6id })),
                ..unchanged
            }
        }
    } else {
        let (info, status) = s.withdrawal_bundles[m6id];
        if status.last().value != WithdrawalBundleStatus::Submitted {
            PegStep { fault: Some(Fault::Halt(Halt::BundleStatus)), ..unchanged }
        } else if status.last().height != height {
            PegStep { fault: Some(Fault::Halt(Halt::BundleStatusHeight)), ..unchanged }
        } else {
            match info {
                WithdrawalBundleInfoView::Known(bundle) => {
                    let spend = bundle.spend_utxos;
                    let step = spending_undone(
                        LedgerStep::start(Ledger::of(s, diff)),
                        spend,
                        spend.len(),
                    ).in_state(s);
                    if step.fault is Some {
                        step
                    } else if height == 0 {
                        PegStep { fault: Some(Fault::Halt(Halt::OutOfRange)), ..step }
                    } else {
                        PegStep {
                            state: StateView {
                                pending_withdrawal_bundle: Some((bundle, (height - 1) as u32)),
                                withdrawal_bundles: s.withdrawal_bundles.remove(m6id),
                                ..step.state
                            },
                            ..step
                        }
                    }
                },
                _ => PegStep {
                    state: StateView {
                        withdrawal_bundles: s.withdrawal_bundles.remove(m6id),
                        ..s
                    },
                    ..unchanged
                },
            }
        }
    }
}

/// The first `n` of the outputs that an unknown bundle took are given back.
pub open spec fn taking_undone(
    ledger: Ledger,
    spend: Seq<(OutPoint, OutputView)>,
    n: nat,
) -> LedgerStep
    decreases n,
{
    if n == 0 {
        LedgerStep::start(ledger)
    } else {
        let before = taking_undone(ledger, spend, (n - 1) as nat);
        let (outpoint, output) = spend[n - 1];
        if before.error is Some {
            before
        } else {
            let after = Ledger {
                utxos: before.ledger.utxos.insert(outpoint, output),
                stxos: before.ledger.stxos.remove(outpoint),
                ..before.ledger
            };
            if !before.ledger.stxos.contains_key(outpoint) {
                LedgerStep { ledger: after, error: Some(Error::NoStxo { outpoint }) }
            } else {
                LedgerStep {
                    ledger: Ledger { diff: after.diff.insert(output.leaf), ..after },
                    error: None,
                }
            }
        }
    }
}

/// What stands in the way of taking back that a bundle, submitted before, got
/// the status `latest` at `height`.
pub open spec fn status_halt(
    status: Seq<HeightStamped<WithdrawalBundleStatus>>,
    latest: WithdrawalBundleStatus,
    height: u32,
) -> Option<Halt> {
    if status.last().value != latest {
        Some(Halt::BundleStatus)
    } else if status.last().height != height {
        Some(Halt::BundleStatusHeight)
    } else if status.len() == 1 || status[status.len() - 2].value
        != WithdrawalBundleStatus::Submitted {
        Some(Halt::BundleStatus)
    } else {
        None
    }
}

/// That a bundle was confirmed is taken back.
pub open spec fn confirmed_undone(s: StateView, diff: DiffView, height: u32, m6id: M6id) -> PegStep {
    let unchanged = PegStep { state: s, diff, fault: None };
    if !s.withdrawal_bundles.contains_key(m6id) {
        PegStep {
            fault: Some(Fault::Error(Error::UnknownWithdrawalBundle { m6id })),
            ..unchanged
        }
    } else {
        let (info, status) = s.withdrawal_bundles[m6id];
        let halt = status_halt(status, WithdrawalBundleStatus::Confirmed, height);
        if status.last().value == WithdrawalBundleStatus::Submitted {
            unchanged
        } else if halt is Some {
            PegStep { fault: Some(Fault::Halt(halt->0)), ..unchanged }
        } else {
            match info {
                WithdrawalBundleInfoView::UnknownConfirmed { spend_utxos } => {
                    let step = taking_undone(
                        Ledger::of(s, diff),
                        spend_utxos,
                        spend_utxos.len(),
                    ).in_state(s);
                    if step.fault is Some {
                        step
                    } else {
                        PegStep {
                            state: StateView {
                                withdrawal_bundles: s.withdrawal_bundles.insert(
                                    m6id,
                                    (WithdrawalBundleInfoView::Unknown, status.drop_last()),
                                ),
                                ..step.state
                            },
                            ..step
                        }
                    }
                },
                _ => PegStep {
                    state: StateView {
                        withdrawal_bundles: s.withdrawal_bundles.insert(
                            m6id,
                            (info, status.drop_last()),
                        ),
                        ..s
                    },
                    ..unchanged
                },
            }
        }
    }
}

/// The first `n` of the outputs that a failed bundle gave back are spent again,
/// last to first. One that is there to be spent is deleted, and ends this with
/// an error.
pub open spec fn returning_undone(
    step: LedgerStep,
    m6id: M6id,
    spend: Seq<(OutPoint, OutputView)>,
    n: nat,
) -> LedgerStep
    decreases n,
{
    if n == 0 || step.error is Some {
        step
    } else {
        let (outpoint, output) = spend[n - 1];
        let after = Ledger {
            stxos: step.ledger.stxos.insert(
                outpoint,
                SpentOutputView { output, inpoint: InPoint::Withdrawal { m6id } },
            ),
            utxos: step.ledger.utxos.remove(outpoint),
            ..step.ledger
        };
        if step.ledger.utxos.contains_key(outpoint) {
            LedgerStep { ledger: after, error: Some(Error::NoUtxo { outpoint }) }
        } else {
            returning_undone(
                LedgerStep::start(Ledger { diff: after.diff.remove(output.leaf), ..after }),
                m6id,
                spend,
                (n - 1) as nat,
            )
        }
    }
}

/// That a bundle failed is taken back.
pub open spec fn failed_undone(s: StateView, diff: DiffView, height: u32, m6id: M6id) -> PegStep {
    let unchanged = PegStep { state: s, diff, fault: None };
    if !s.withdrawal_bundles.contains_key(m6id) {
        PegStep {
            fault: Some(Fault::Error(Error::UnknownWithdrawalBundle { m6id })),
            ..unchanged
        }
    } else {
        let (info, status) = s.withdrawal_bundles[m6id];
        let halt = status_halt(status, WithdrawalBundleStatus::Failed, height);
        let bundles = s.withdrawal_bundles.insert(m6id, (info, status.drop_last()));
        if status.last().value == WithdrawalBundleStatus::Submitted {
            unchanged
        } else if halt is Some {
            PegStep { fault: Some(Fault::Halt(halt->0)), ..unchanged }
        } else {
            match info {
                WithdrawalBundleInfoView::Known(bundle) => {
                    let spend = bundle.spend_utxos;
                    let step = returning_undone(
                        LedgerStep::start(Ledger::of(s, diff)),
                        m6id,
                        spend,
                        spend.len(),
                    ).in_state(s);
                    let latest = s.latest_failed_withdrawal_bundle;
                    if step.fault is Some {
                        step
                    } else if latest is None || latest->0.last() != (HeightStamped {
                        value: m6id,
                        height,
                    }) {
                        PegStep { fault: Some(Fault::Halt(Halt::LatestFailure)), ..step }
                    } else {
                        PegStep {
                            state: StateView {
                                latest_failed_withdrawal_bundle: if latest->0.len() > 1 {
                                    Some(latest->0.drop_last())
                                } else {
                                    None
                                },
                                withdrawal_bundles: bundles,
                                ..step.state
                            },
                            ..step
                        }
                    }
                },
                _ => PegStep {
                    state: StateView { withdrawal_bundles: bundles, ..s },
                    ..unchanged
                },
            }
        }
    }
}

/// What happened to a bundle is taken back.
pub open spec fn bundle_event_undone(
    s: StateView,
    diff: DiffView,
    height: u32,
    event: WithdrawalBundleEvent,
) -> PegStep {
    match event.status {
        WithdrawalBundleStatus::Submitted => submitted_undone(s, diff, height, event.m6id),
        WithdrawalBundleStatus::Confirmed => confirmed_undone(s, diff, height, event.m6id),
        WithdrawalBundleStatus::Failed => failed_undone(s, diff, height, event.m6id),
    }
}

/// An event is taken back.
pub open spec fn event_undone(
    run: Run,
    height: u32,
    hash: MainBlockHash,
    event: BlockEventView,
) -> Run {
    match event {
        BlockEventView::Deposit(deposit) => {
            let outpoint = deposit_outpoint(deposit);
            if !run.state.utxos.contains_key(outpoint) {
                Run { fault: Some(Fault::Error(Error::NoUtxo { outpoint })), ..run }
            } else {
                Run {
                    state: StateView { utxos: run.state.utxos.remove(outpoint), ..run.state },
                    diff: run.diff.remove(deposit.output.leaf),
                    deposit_block: Some(hash),
                    ..run
                }
            }
        },
        BlockEventView::WithdrawalBundle(event) => run.after_bundle_event(
            bundle_event_undone(run.state, run.diff, height, event),
            hash,
        ),
    }
}

/// The first `n` events of a block are taken back, last to first.
pub open spec fn events_undone(
    run: Run,
    height: u32,
    hash: MainBlockHash,
    events: Seq<BlockEventView>,
    n: nat,
) -> Run
    decreases n,
{
    if n == 0 || run.fault is Some {
        run
    } else {
        events_undone(
            event_undone(run, height, hash, events[n - 1]),
            height,
            hash,
            events,
            (n - 1) as nat,
        )
    }
}

/// The events of the first `n` blocks are taken back, last to first.
pub open spec fn blocks_undone(
    run: Run,
    height: u32,
    blocks: Seq<(MainBlockHash, Seq<BlockEventView>)>,
    n: nat,
) -> Run
    decreases n,
{
    if n == 0 || run.fault is Some {
        run
    } else {
        blocks_undone(
            events_undone(
                run,
                height,
                blocks[n - 1].0,
                blocks[n - 1].1,
                blocks[n - 1].1.len(),
            ),
            height,
            blocks,
            (n - 1) as nat,
        )
    }
}

/// The height of the last failure of a bundle; 0 where there was none.
pub open spec fn failure_height(s: StateView) -> u32 {
    match s.latest_failed_withdrawal_bundle {
        Some(list) => list.last().height,
        None => 0,
    }
}

/// A state, and why it was not brought to the end.
#[verifier::ext_equal]
pub struct PegDone {
    pub state: StateView,
    pub fault: Option<Fault>,
}

impl PegDone {
    /// What is reported.
    pub open spec fn reports(self) -> Result<(), Fault> {
        match self.fault {
            Some(fault) => Err(fault),
            None => Ok(()),
        }
    }

    /// What is reported, where nothing halts.
    pub open spec fn reports_error(self) -> Result<(), Error> {
        match self.fault {
            Some(Fault::Error(e)) => Err(e),
            _ => Ok(()),
        }
    }

    /// Some error is reported.
    pub open spec fn turned_down(state: StateView, e: Error) -> PegDone {
        PegDone { state, fault: Some(Fault::Error(e)) }
    }

    /// Nothing more can be done.
    pub open spec fn halted(state: StateView, halt: Halt) -> PegDone {
        PegDone { state, fault: Some(Fault::Halt(halt)) }
    }
}

/// A change is taken into the accumulator, unless something went wrong before.
pub open spec fn peg_diff_applied(step: PegStep) -> PegDone {
    if step.fault is Some {
        PegDone { state: step.state, fault: step.fault }
    } else {
        let taken = diff_applied(step.state, step.diff);
        PegDone { state: taken.state, fault: taken.fault }
    }
}

/// The last entry of a numbered list of blocks.
pub open spec fn last_block(blocks: Map<u32, (MainBlockHash, u32)>) -> Option<
    (u32, MainBlockHash, u32),
> {
    let numbers = ordered(blocks.dom());
    if numbers.len() == 0 {
        None
    } else {
        Some((numbers.last(), blocks[numbers.last()].0, blocks[numbers.last()].1))
    }
}

/// What stands in the way of taking the last of a list of blocks for the one
/// that came from `hash` a block ago.
pub open spec fn is_last_block(
    last: (u32, MainBlockHash, u32),
    hash: MainBlockHash,
    height: u32,
) -> bool {
    last.1 == hash && last.2 == height - 1
}

/// The block that an event of a bundle came from is forgotten. What is
/// forgotten is the block of deposits that has its number.
pub open spec fn event_block_undone(s: StateView, height: u32, hash: Option<MainBlockHash>) -> PegDone {
    match hash {
        None => PegDone { state: s, fault: None },
        Some(hash) => match last_block(s.withdrawal_bundle_event_blocks) {
            None => PegDone::turned_down(s, Error::NoWithdrawalBundleEventBlock),
            Some(last) => if !is_last_block(last, hash, height) {
                PegDone::halted(s, Halt::LatestEventBlock)
            } else if !s.deposit_blocks.contains_key(last.0) {
                PegDone::turned_down(s, Error::NoWithdrawalBundleEventBlock)
            } else {
                PegDone {
                    state: StateView { deposit_blocks: s.deposit_blocks.remove(last.0), ..s },
                    fault: None,
                }
            },
        },
    }
}

/// The bundle that waits to be submitted was made at the block before.
pub open spec fn made_before(s: StateView, height: u32) -> bool {
    match s.pending_withdrawal_bundle {
        Some((_, made_at)) => made_at == height - 1,
        None => false,
    }
}

/// A bundle that was made at the block before is forgotten.
pub open spec fn pending_undone(s: StateView, height: u32) -> PegDone {
    if height < failure_height(s) {
        PegDone::halted(s, Halt::OutOfRange)
    } else if height - failure_height(s) > s.withdrawal_bundle_failure_gap
        && made_before(s, height) {
        PegDone { state: StateView { pending_withdrawal_bundle: None, ..s }, fault: None }
    } else {
        PegDone { state: s, fault: None }
    }
}

/// The block that a deposit came from is forgotten.
pub open spec fn deposit_block_undone(
    s: StateView,
    height: u32,
    hash: Option<MainBlockHash>,
) -> PegDone {
    match hash {
        None => PegDone { state: s, fault: None },
        Some(hash) => match last_block(s.deposit_blocks) {
            None => PegDone::turned_down(s, Error::NoDepositBlock),
            Some(last) => if !is_last_block(last, hash, height) {
                PegDone::halted(s, Halt::LatestDepositBlock)
            } else {
                PegDone {
                    state: StateView { deposit_blocks: s.deposit_blocks.remove(last.0), ..s },
                    fault: None,
                }
            },
        },
    }
}

/// The events of mainchain blocks are taken back, up to the change to the
/// accumulator.
pub open spec fn peg_disconnect_staged(
    s: StateView,
    blocks: Seq<(MainBlockHash, Seq<BlockEventView>)>,
) -> PegStep {
    let run = blocks_undone(Run::start(s), s.height->0, blocks, blocks.len());
    let first = event_block_undone(run.state, s.height->0, run.bundle_event_block);
    let second = pending_undone(first.state, s.height->0);
    let third = deposit_block_undone(second.state, s.height->0, run.deposit_block);
    if s.height is None {
        PegStep { state: s, diff: DiffView::none(), fault: Some(Fault::Halt(Halt::NoHeight)) }
    } else if run.fault is Some {
        PegStep { state: run.state, diff: run.diff, fault: run.fault }
    } else if first.fault is Some {
        PegStep { state: first.state, diff: run.diff, fault: first.fault }
    } else if second.fault is Some {
        PegStep { state: second.state, diff: run.diff, fault: second.fault }
    } else {
        PegStep { state: third.state, diff: run.diff, fault: third.fault }
    }
}

/// The events of mainchain blocks are taken back.
pub open spec fn peg_disconnected(
    s: StateView,
    blocks: Seq<(MainBlockHash, Seq<BlockEventView>)>,
) -> PegDone {
    peg_diff_applied(peg_disconnect_staged(s, blocks))
}

/// A block is added to a numbered list of blocks; `None` where its number would
/// run out of range.
pub open spec fn block_noted(
    blocks: Map<u32, (MainBlockHash, u32)>,
    hash: Option<MainBlockHash>,
    height: u32,
) -> Option<Map<u32, (MainBlockHash, u32)>> {
    match hash {
        None => Some(blocks),
        Some(hash) => match last_block(blocks) {
            None => Some(blocks.insert(0u32, (hash, height))),
            Some(last) => if last.0 == u32::MAX {
                None
            } else {
                Some(blocks.insert((last.0 + 1) as u32, (hash, height)))
            },
        },
    }
}

/// The events of mainchain blocks are connected, where there is a tip.
pub open spec fn events_run(
    s: StateView,
    blocks: Seq<(MainBlockHash, Seq<BlockEventView>)>,
) -> Run {
    let run = blocks_connected(Run::start(s), s.height->0, blocks, blocks.len());
    let no_tip = Some(Fault::Error(Error::NoTip));
    if s.height is None {
        Run { fault: no_tip, ..Run::start(s) }
    } else if run.fault is None && run.state.tip is None {
        Run { fault: no_tip, ..run }
    } else {
        run
    }
}

/// Swaps are looked at after a run, and where its events came from is noted.
pub open spec fn run_noted(
    run: Run,
    height: u32,
    tip: BlockHash,
    lookups: Map<SwapId, Seq<L1MatchView>>,
) -> PegStep {
    let seen = coinshift_processed(run.state, height, tip, lookups);
    let deposits = block_noted(seen.deposit_blocks, run.deposit_block, height);
    let events = block_noted(
        seen.withdrawal_bundle_event_blocks,
        run.bundle_event_block,
        height,
    );
    let out_of_range = Some(Fault::Halt(Halt::OutOfRange));
    if deposits is None {
        PegStep { state: seen, diff: run.diff, fault: out_of_range }
    } else if events is None {
        PegStep {
            state: StateView { deposit_blocks: deposits->0, ..seen },
            diff: run.diff,
            fault: out_of_range,
        }
    } else {
        PegStep {
            state: StateView {
                deposit_blocks: deposits->0,
                withdrawal_bundle_event_blocks: events->0,
                ..seen
            },
            diff: run.diff,
            fault: None,
        }
    }
}

/// What a bundle is built from, if one is due: none is pending, and none failed
/// of late.
pub open spec fn due_draft(s: StateView, height: u32) -> Result<Option<BundleDraftView>, Fault> {
    if height < failure_height(s) {
        Err(Fault::Halt(Halt::OutOfRange))
    } else if height - failure_height(s) >= s.withdrawal_bundle_failure_gap
        && s.pending_withdrawal_bundle is None {
        drafted(s.utxos, height)
    } else {
        Ok(None)
    }
}

/// A bundle is made if one is due.
pub open spec fn bundle_made(step: PegStep, height: u32, built: Result<M6id, Rejection>) -> PegStep {
    match due_draft(step.state, height) {
        Err(fault) => PegStep { fault: Some(fault), ..step },
        Ok(None) => step,
        Ok(Some(draft)) => match bundled(draft, built) {
            Err(fault) => PegStep { fault: Some(fault), ..step },
            Ok(bundle) => PegStep {
                state: StateView {
                    pending_withdrawal_bundle: Some((bundle, height)),
                    ..step.state
                },
                ..step
            },
        },
    }
}

/// What comes after a run, up to the change to the accumulator. `built` is how
/// building a bundle went, if it came to that.
pub open spec fn run_staged(
    run: Run,
    height: u32,
    tip: BlockHash,
    lookups: Map<SwapId, Seq<L1MatchView>>,
    built: Result<M6id, Rejection>,
) -> PegStep {
    let step = run_noted(run, height, tip, lookups);
    if step.fault is Some {
        step
    } else {
        bundle_made(step, height, built)
    }
}

/// What a bundle is built from after a run.
pub open spec fn run_draft(
    run: Run,
    height: u32,
    tip: BlockHash,
    lookups: Map<SwapId, Seq<L1MatchView>>,
) -> Option<BundleDraftView> {
    let step = run_noted(run, height, tip, lookups);
    if step.fault is Some {
        None
    } else {
        match due_draft(step.state, height) {
            Ok(draft) => draft,
            Err(_) => None,
        }
    }
}

/// The events of mainchain blocks are connected, up to the change to the
/// accumulator. `built` is how building a bundle went, if it came to that.
pub open spec fn peg_connect_staged(
    s: StateView,
    blocks: Seq<(MainBlockHash, Seq<BlockEventView>)>,
    lookups: Map<SwapId, Seq<L1MatchView>>,
    built: Result<M6id, Rejection>,
) -> PegStep {
    let run = events_run(s, blocks);
    if run.fault is Some {
        PegStep { state: run.state, diff: run.diff, fault: run.fault }
    } else {
        run_staged(run, s.height->0, run.state.tip->0, lookups, built)
    }
}

/// The events of mainchain blocks are connected. `built` is how building a
/// bundle went, if it came to that.
pub open spec fn peg_connected(
    s: StateView,
    blocks: Seq<(MainBlockHash, Seq<BlockEventView>)>,
    lookups: Map<SwapId, Seq<L1MatchView>>,
    built: Result<M6id, Rejection>,
) -> PegDone {
    peg_diff_applied(peg_connect_staged(s, blocks, lookups, built))
}

/// What a bundle is built from when the events of mainchain blocks are
/// connected.
pub open spec fn peg_draft(
    s: StateView,
    blocks: Seq<(MainBlockHash, Seq<BlockEventView>)>,
    lookups: Map<SwapId, Seq<L1MatchView>>,
) -> Option<BundleDraftView> {
    let run = events_run(s, blocks);
    if run.fault is Some {
        None
    } else {
        run_draft(run, s.height->0, run.state.tip->0, lookups)
    }
}

/// If there is a draft, building it may have this outcome.
pub open spec fn may_build_if_any<F: Fn(&BundleDraft) -> Result<M6id, Rejection>>(
    build: F,
    draft: Option<BundleDraftView>,
    built: Result<M6id, Rejection>,
) -> bool {
    match draft {
        Some(draft) => may_build(build, draft, built),
        None => true,
    }
}

/// `staged` is what comes after a run, up to the change to the accumulator,
/// however building a bundle went.
pub open spec fn is_run_staged<F: Fn(&BundleDraft) -> Result<M6id, Rejection>>(
    build: F,
    run: Run,
    height: u32,
    tip: BlockHash,
    lookups: Map<SwapId, Seq<L1MatchView>>,
    staged: PegStep,
) -> bool {
    exists|built: Result<M6id, Rejection>| #[trigger]
        may_build_if_any(build, run_draft(run, height, tip, lookups), built) && staged
            == run_staged(run, height, tip, lookups, built)
}

/// `done` is what comes after a run, however building a bundle went.
pub open spec fn is_run_finished<F: Fn(&BundleDraft) -> Result<M6id, Rejection>>(
    build: F,
    run: Run,
    height: u32,
    tip: BlockHash,
    lookups: Map<SwapId, Seq<L1MatchView>>,
    done: PegDone,
) -> bool {
    exists|built: Result<M6id, Rejection>| #[trigger]
        may_build_if_any(build, run_draft(run, height, tip, lookups), built) && done
            == peg_diff_applied(run_staged(run, height, tip, lookups, built))
}

/// `staged` is what connecting the events of mainchain blocks comes to up to the
/// change to the accumulator, however building a bundle went.
pub open spec fn is_peg_staged<F: Fn(&BundleDraft) -> Result<M6id, Rejection>>(
    build: F,
    s: StateView,
    blocks: Seq<(MainBlockHash, Seq<BlockEventView>)>,
    lookups: Map<SwapId, Seq<L1MatchView>>,
    staged: PegStep,
) -> bool {
    exists|built: Result<M6id, Rejection>| #[trigger]
        may_build_if_any(build, peg_draft(s, blocks, lookups), built) && staged
            == peg_connect_staged(s, blocks, lookups, built)
}

/// `done` is what connecting the events of mainchain blocks comes to, however
/// building a bundle went.
pub open spec fn is_peg_connected<F: Fn(&BundleDraft) -> Result<M6id, Rejection>>(
    build: F,
    s: StateView,
    blocks: Seq<(MainBlockHash, Seq<BlockEventView>)>,
    lookups: Map<SwapId, Seq<L1MatchView>>,
    done: PegDone,
) -> bool {
    exists|built: Result<M6id, Rejection>| #[trigger]
        may_build_if_any(build, peg_draft(s, blocks, lookups), built) && done == peg_connected(
            s,
            blocks,
            lookups,
            built,
        )
}

/// Connecting the events of mainchain blocks halts, if building a bundle goes in
/// some way that it can go in.
pub open spec fn may_halt<F: Fn(&BundleDraft) -> Result<M6id, Rejection>>(
    build: F,
    s: StateView,
    blocks: Seq<(MainBlockHash, Seq<BlockEventView>)>,
    lookups: Map<SwapId, Seq<L1MatchView>>,
) -> bool {
    exists|built: Result<M6id, Rejection>| #[trigger]
        may_build_if_any(build, peg_draft(s, blocks, lookups), built) && halts(
            peg_connected(s, blocks, lookups, built).fault,
        )
}

} // verus!
