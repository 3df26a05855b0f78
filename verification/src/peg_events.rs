//! Connecting and disconnecting what happens to withdrawal bundles on the
//! mainchain.
use vstd::prelude::*;

use crate::accumulator::AccumulatorDiff;
use crate::error::{Error, Fault, Halt};
use crate::ids::{M6id, MainBlockHash};
use crate::mainchain::WithdrawalBundleEvent;
use crate::peg_model::{
    awaits, bundle_event_connected, bundle_event_undone, bundle_returned, bundle_spent, bundle_took,
    confirmed, confirmed_undone, failed, failed_undone, listed, returning_undone, spending_undone,
    status_halt, submitted, submitted_undone, taking_undone, Ledger, LedgerStep,
};
use crate::rollback::RollBack;
use crate::state::State;
use crate::table::{lists, ordered};
use crate::types::{InPoint, OutPoint, Output, SpentOutput};
use crate::withdrawal::{pointed, WithdrawalBundleInfo, WithdrawalBundleStatus};

verus! {

/// Spends the outputs of a bundle.
fn spend_bundle(
    state: &mut State,
    diff: &mut AccumulatorDiff,
    m6id: M6id,
    spend: &Vec<(OutPoint, Output)>,
)
    ensures
        ({
            let done = bundle_spent(
                Ledger::of(old(state)@, old(diff)@),
                m6id,
                pointed(spend@),
                spend@.len(),
            );
            &&& final(state)@ == done.in_state(old(state)@)
            &&& final(diff)@ == done.diff
        }),
{
    let n: usize = spend.len();
    for i in 0..n
        invariant
            n == spend@.len(),
            ({
                let done = bundle_spent(
                    Ledger::of(old(state)@, old(diff)@),
                    m6id,
                    pointed(spend@),
                    i as nat,
                );
                &&& state@ == done.in_state(old(state)@)
                &&& diff@ == done.diff
            }),
    {
        let outpoint = spend[i].0;
        let output = spend[i].1.clone();
        diff.remove(output.leaf);
        let _ = state.utxos.delete(&outpoint);
        state.stxos.put(outpoint, SpentOutput { output, inpoint: InPoint::Withdrawal { m6id } });
    }
}

/// Gives the outputs of a bundle back.
fn return_bundle(state: &mut State, diff: &mut AccumulatorDiff, spend: &Vec<(OutPoint, Output)>)
    ensures
        ({
            let done = bundle_returned(
                Ledger::of(old(state)@, old(diff)@),
                pointed(spend@),
                spend@.len(),
            );
            &&& final(state)@ == done.in_state(old(state)@)
            &&& final(diff)@ == done.diff
        }),
{
    let n: usize = spend.len();
    for i in 0..n
        invariant
            n == spend@.len(),
            ({
                let done = bundle_returned(
                    Ledger::of(old(state)@, old(diff)@),
                    pointed(spend@),
                    i as nat,
                );
                &&& state@ == done.in_state(old(state)@)
                &&& diff@ == done.diff
            }),
    {
        let outpoint = spend[i].0;
        let output = spend[i].1.clone();
        let _ = state.stxos.delete(&outpoint);
        diff.insert(output.leaf);
        state.utxos.put(outpoint, output);
    }
}

/// Connects that a bundle was submitted.
pub fn connect_withdrawal_bundle_submitted(
    state: &mut State,
    block_height: u32,
    diff: &mut AccumulatorDiff,
    m6id: M6id,
) -> (r: Result<(), Fault>)
    ensures
        ({
            let step = submitted(old(state)@, old(diff)@, block_height, m6id);
            &&& final(state)@ == step.state
            &&& final(diff)@ == step.diff
            &&& r == step.reports()
        }),
{
    let pending = match &state.pending_withdrawal_bundle {
        Some((bundle, made_at)) => if bundle.m6id == m6id {
            Some(*made_at)
        } else {
            None
        },
        None => None,
    };
    assert(pending is Some <==> awaits(state@, m6id));
    if let Some(made_at) = pending {
        if block_height == 0 || made_at != block_height - 1 {
            return Err(Fault::Halt(Halt::PendingBundleHeight));
        }
        let (bundle, _) = state.pending_withdrawal_bundle.take().unwrap();
        spend_bundle(state, diff, m6id, &bundle.spend_utxos);
        state.withdrawal_bundles.put(
            m6id,
            (
                WithdrawalBundleInfo::Known(bundle),
                RollBack::new(WithdrawalBundleStatus::Submitted, block_height),
            ),
        );
        return Ok(());
    }
    match state.withdrawal_bundles.try_get(&m6id) {
        Some((_, status)) => {
            // This event was connected before.
            if status.earliest().value != WithdrawalBundleStatus::Submitted {
                return Err(Fault::Halt(Halt::BundleStatus));
            }
        },
        None => {
            state.withdrawal_bundles.put(
                m6id,
                (
                    WithdrawalBundleInfo::Unknown,
                    RollBack::new(WithdrawalBundleStatus::Submitted, block_height),
                ),
            );
        },
    }
    Ok(())
}

/// Lists the unspent outputs.
fn list_utxos(state: &State) -> (r: Vec<(OutPoint, Output)>)
    ensures
        pointed(r@) == listed(state@.utxos),
{
    let keys = state.utxos.keys();
    let mut r: Vec<(OutPoint, Output)> = Vec::new();
    let n: usize = keys.len();
    for i in 0..n
        invariant
            n == keys@.len(),
            keys@ == ordered(state@.utxos.dom()),
            lists(keys@, state@.utxos.dom()),
            pointed(r@) =~= listed(state@.utxos).take(i as int),
    {
        assert(keys@.contains(keys@[i as int]));
        let ghost before = pointed(r@);
        if let Some(output) = state.utxos.try_get(&keys[i]) {
            r.push((keys[i], output.clone()));
            assert(pointed(r@) =~= before.push((keys@[i as int], output.deep_view())));
        }
        assert(listed(state@.utxos).take(i + 1) =~= listed(state@.utxos).take(i as int).push(
            listed(state@.utxos)[i as int],
        ));
    }
    assert(listed(state@.utxos).take(n as int) =~= listed(state@.utxos));
    r
}

/// Writes down that a bundle took outputs.
fn take_for_bundle(
    state: &mut State,
    diff: &mut AccumulatorDiff,
    m6id: M6id,
    spend: &Vec<(OutPoint, Output)>,
)
    ensures
        ({
            let done = bundle_took(
                Ledger::of(old(state)@, old(diff)@),
                m6id,
                pointed(spend@),
                spend@.len(),
            );
            &&& final(state)@ == done.in_state(old(state)@)
            &&& final(diff)@ == done.diff
        }),
{
    let n: usize = spend.len();
    for i in 0..n
        invariant
            n == spend@.len(),
            ({
                let done = bundle_took(
                    Ledger::of(old(state)@, old(diff)@),
                    m6id,
                    pointed(spend@),
                    i as nat,
                );
                &&& state@ == done.in_state(old(state)@)
                &&& diff@ == done.diff
            }),
    {
        let outpoint = spend[i].0;
        let output = spend[i].1.clone();
        diff.remove(output.leaf);
        state.stxos.put(outpoint, SpentOutput { output, inpoint: InPoint::Withdrawal { m6id } });
    }
}

/// Connects that a bundle was confirmed.
pub fn connect_withdrawal_bundle_confirmed(
    state: &mut State,
    block_height: u32,
    diff: &mut AccumulatorDiff,
    event_block_hash: MainBlockHash,
    m6id: M6id,
) -> (r: Result<(), Fault>)
    ensures
        ({
            let step = confirmed(
                old(state)@,
                old(diff)@,
                block_height,
                event_block_hash,
                m6id,
            );
            &&& final(state)@ == step.state
            &&& final(diff)@ == step.diff
            &&& r == step.reports()
        }),
{
    let (known, latest) = match state.withdrawal_bundles.try_get(&m6id) {
        Some((info, status)) => (info.is_known(), status.latest()),
        None => {
            return Err(Fault::Error(Error::UnknownWithdrawalBundle { m6id }));
        },
    };
    if latest.value == WithdrawalBundleStatus::Confirmed {
        // This event was connected before.
        return Ok(());
    }
    if latest.value != WithdrawalBundleStatus::Submitted {
        return Err(Fault::Halt(Halt::BundleStatus));
    }
    if !known && block_height != 0 {
        return Err(
            Fault::Error(Error::UnknownWithdrawalBundleConfirmed { event_block_hash, m6id }),
        );
    }
    let spend_utxos = if known {
        None
    } else {
        let spend = list_utxos(state);
        take_for_bundle(state, diff, m6id, &spend);
        state.utxos.clear();
        Some(spend)
    };
    if block_height < latest.height {
        return Err(Fault::Halt(Halt::BundleStatusOrder));
    }
    let (info, mut status) = state.withdrawal_bundles.take(&m6id).unwrap();
    let _ = status.push(WithdrawalBundleStatus::Confirmed, block_height);
    let info = match spend_utxos {
        Some(spend_utxos) => WithdrawalBundleInfo::UnknownConfirmed { spend_utxos },
        None => info,
    };
    state.withdrawal_bundles.put(m6id, (info, status));
    assert(state@ =~= confirmed(
        old(state)@,
        old(diff)@,
        block_height,
        event_block_hash,
        m6id,
    ).state);
    Ok(())
}

/// Connects that a bundle failed.
pub fn connect_withdrawal_bundle_failed(
    state: &mut State,
    block_height: u32,
    diff: &mut AccumulatorDiff,
    m6id: M6id,
) -> (r: Result<(), Fault>)
    ensures
        ({
            let step = failed(old(state)@, old(diff)@, block_height, m6id);
            &&& final(state)@ == step.state
            &&& final(diff)@ == step.diff
            &&& r == step.reports()
        }),
{
    let latest = match state.withdrawal_bundles.try_get(&m6id) {
        Some((_, status)) => status.latest(),
        None => {
            return Err(Fault::Error(Error::UnknownWithdrawalBundle { m6id }));
        },
    };
    if latest.value == WithdrawalBundleStatus::Failed {
        // This event was connected before.
        return Ok(());
    }
    if latest.value != WithdrawalBundleStatus::Submitted {
        return Err(Fault::Halt(Halt::BundleStatus));
    }
    if block_height < latest.height {
        return Err(Fault::Halt(Halt::BundleStatusOrder));
    }
    let ghost bundles = state@.withdrawal_bundles;
    let (info, mut status) = state.withdrawal_bundles.take(&m6id).unwrap();
    if let WithdrawalBundleInfo::Known(bundle) = &info {
        return_bundle(state, diff, &bundle.spend_utxos);
        let noted = match &mut state.latest_failed_withdrawal_bundle {
            Some(list) => list.push(m6id, block_height).is_ok(),
            None => false,
        };
        if !noted {
            if state.latest_failed_withdrawal_bundle.is_some() {
                state.withdrawal_bundles.put(m6id, (info, status));
                assert(state@.withdrawal_bundles =~= bundles);
                return Err(Fault::Halt(Halt::FailureOrder));
            }
            state.latest_failed_withdrawal_bundle = Some(RollBack::new(m6id, block_height));
        }
    }
    let _ = status.push(WithdrawalBundleStatus::Failed, block_height);
    state.withdrawal_bundles.put(m6id, (info, status));
    assert(state@ =~= failed(old(state)@, old(diff)@, block_height, m6id).state);
    Ok(())
}

/// Connects what happened to a bundle.
pub fn connect_withdrawal_bundle_event(
    state: &mut State,
    block_height: u32,
    diff: &mut AccumulatorDiff,
    event_block_hash: MainBlockHash,
    event: &WithdrawalBundleEvent,
) -> (r: Result<(), Fault>)
    ensures
        ({
            let step = bundle_event_connected(
                old(state)@,
                old(diff)@,
                block_height,
                event_block_hash,
                *event,
            );
            &&& final(state)@ == step.state
            &&& final(diff)@ == step.diff
            &&& r == step.reports()
        }),
{
    match event.status {
        WithdrawalBundleStatus::Submitted => connect_withdrawal_bundle_submitted(
            state,
            block_height,
            diff,
            event.m6id,
        ),
        WithdrawalBundleStatus::Confirmed => connect_withdrawal_bundle_confirmed(
            state,
            block_height,
            diff,
            event_block_hash,
            event.m6id,
        ),
        WithdrawalBundleStatus::Failed => connect_withdrawal_bundle_failed(
            state,
            block_height,
            diff,
            event.m6id,
        ),
    }
}

/// Gives back what a submitted bundle spent, last to first.
fn undo_spending(
    state: &mut State,
    diff: &mut AccumulatorDiff,
    spend: &Vec<(OutPoint, Output)>,
) -> (r: Result<(), Error>)
    ensures
        ({
            let done = spending_undone(
                LedgerStep::start(Ledger::of(old(state)@, old(diff)@)),
                pointed(spend@),
                spend@.len(),
            );
            &&& final(state)@ == done.ledger.in_state(old(state)@)
            &&& final(diff)@ == done.ledger.diff
            &&& r == match done.error {
                Some(e) => Err::<(), Error>(e),
                None => Ok(()),
            }
        }),
{
    let ghost goal = spending_undone(
        LedgerStep::start(Ledger::of(state@, diff@)),
        pointed(spend@),
        spend@.len(),
    );
    let mut left: usize = spend.len();
    while left > 0
        invariant
            left <= spend@.len(),
            state@ == Ledger::of(state@, diff@).in_state(old(state)@),
            goal == spending_undone(
                LedgerStep::start(Ledger::of(state@, diff@)),
                pointed(spend@),
                left as nat,
            ),
            goal == spending_undone(
                LedgerStep::start(Ledger::of(old(state)@, old(diff)@)),
                pointed(spend@),
                spend@.len(),
            ),
        decreases left,
    {
        left = left - 1;
        let outpoint = spend[left].0;
        let output = spend[left].1.clone();
        let ghost before = state@;
        if !state.stxos.delete(&outpoint) {
            assert(state@.stxos =~= before.stxos);
            return Err(Error::NoStxo { outpoint });
        }
        diff.insert(output.leaf);
        state.utxos.put(outpoint, output);
    }
    Ok(())
}

/// Disconnects that a bundle was submitted.
pub fn disconnect_withdrawal_bundle_submitted(
    state: &mut State,
    block_height: u32,
    diff: &mut AccumulatorDiff,
    m6id: M6id,
) -> (r: Result<(), Fault>)
    ensures
        ({
            let step = submitted_undone(old(state)@, old(diff)@, block_height, m6id);
            &&& final(state)@ == step.state
            &&& final(diff)@ == step.diff
            &&& r == step.reports()
        }),
{
    let latest = match state.withdrawal_bundles.try_get(&m6id) {
        Some((_, status)) => status.latest(),
        None => {
            let pending = match &state.pending_withdrawal_bundle {
                Some((bundle, _)) => bundle.m6id == m6id,
                None => false,
            };
            if pending {
                // This event was disconnected before.
                return Ok(());
            }
            return Err(Fault::Error(Error::UnknownWithdrawalBundle { m6id }));
        },
    };
    if latest.value != WithdrawalBundleStatus::Submitted {
        return Err(Fault::Halt(Halt::BundleStatus));
    }
    if latest.height != block_height {
        return Err(Fault::Halt(Halt::BundleStatusHeight));
    }
    let ghost bundles = state@.withdrawal_bundles;
    let (info, status) = state.withdrawal_bundles.take(&m6id).unwrap();
    match info {
        WithdrawalBundleInfo::Known(bundle) => {
            let fault = match undo_spending(state, diff, &bundle.spend_utxos) {
                Err(e) => Some(Fault::Error(e)),
                Ok(()) => if block_height == 0 {
                    Some(Fault::Halt(Halt::OutOfRange))
                } else {
                    None
                },
            };
            if let Some(fault) = fault {
                state.withdrawal_bundles.put(m6id, (WithdrawalBundleInfo::Known(bundle), status));
                assert(state@.withdrawal_bundles =~= bundles);
                return Err(fault);
            }
            state.pending_withdrawal_bundle = Some((bundle, block_height - 1));
        },
        _ => {},
    }
    Ok(())
}

/// Once giving back failed, nothing more is given back.
proof fn taking_undone_stays(
    ledger: Ledger,
    spend: Seq<(OutPoint, crate::types::OutputView)>,
    i: nat,
    n: nat,
)
    requires
        i <= n,
        taking_undone(ledger, spend, i).error is Some,
    ensures
        taking_undone(ledger, spend, n) == taking_undone(ledger, spend, i),
    decreases n - i,
{
    if i < n {
        taking_undone_stays(ledger, spend, i, (n - 1) as nat);
    }
}

/// Gives back what an unknown bundle took.
fn undo_taking(
    state: &mut State,
    diff: &mut AccumulatorDiff,
    spend: &Vec<(OutPoint, Output)>,
) -> (r: Result<(), Error>)
    ensures
        ({
            let done = taking_undone(
                Ledger::of(old(state)@, old(diff)@),
                pointed(spend@),
                spend@.len(),
            );
            &&& final(state)@ == done.ledger.in_state(old(state)@)
            &&& final(diff)@ == done.ledger.diff
            &&& r == match done.error {
                Some(e) => Err::<(), Error>(e),
                None => Ok(()),
            }
        }),
{
    let n: usize = spend.len();
    for i in 0..n
        invariant
            n == spend@.len(),
            ({
                let done = taking_undone(
                    Ledger::of(old(state)@, old(diff)@),
                    pointed(spend@),
                    i as nat,
                );
                &&& done.error is None
                &&& state@ == done.ledger.in_state(old(state)@)
                &&& diff@ == done.ledger.diff
            }),
    {
        let outpoint = spend[i].0;
        let output = spend[i].1.clone();
        let leaf = output.leaf;
        state.utxos.put(outpoint, output);
        if !state.stxos.delete(&outpoint) {
            proof {
                taking_undone_stays(
                    Ledger::of(old(state)@, old(diff)@),
                    pointed(spend@),
                    (i + 1) as nat,
                    n as nat,
                );
            }
            return Err(Error::NoStxo { outpoint });
        }
        diff.insert(leaf);
    }
    Ok(())
}

/// Finds what stands in the way of taking back that a bundle, submitted before,
/// got the status `latest` at `height`.
fn check_status(
    status: &RollBack<WithdrawalBundleStatus>,
    latest: WithdrawalBundleStatus,
    height: u32,
) -> (r: Result<(), Halt>)
    ensures
        r == match status_halt(status.deep_view(), latest, height) {
            Some(halt) => Err::<(), Halt>(halt),
            None => Ok(()),
        },
{
    let (earlier, last) = status.copy().pop();
    if last.value != latest {
        return Err(Halt::BundleStatus);
    }
    if last.height != height {
        return Err(Halt::BundleStatusHeight);
    }
    match earlier {
        None => Err(Halt::BundleStatus),
        Some(earlier) => if earlier.latest().value != WithdrawalBundleStatus::Submitted {
            Err(Halt::BundleStatus)
        } else {
            Ok(())
        },
    }
}

/// Disconnects that a bundle was confirmed.
pub fn disconnect_withdrawal_bundle_confirmed(
    state: &mut State,
    block_height: u32,
    diff: &mut AccumulatorDiff,
    m6id: M6id,
) -> (r: Result<(), Fault>)
    ensures
        ({
            let step = confirmed_undone(old(state)@, old(diff)@, block_height, m6id);
            &&& final(state)@ == step.state
            &&& final(diff)@ == step.diff
            &&& r == step.reports()
        }),
{
    match state.withdrawal_bundles.try_get(&m6id) {
        Some((_, status)) => {
            if status.latest().value == WithdrawalBundleStatus::Submitted {
                // This event was disconnected before.
                return Ok(());
            }
            match check_status(status, WithdrawalBundleStatus::Confirmed, block_height) {
                Ok(()) => {},
                Err(halt) => {
                    return Err(Fault::Halt(halt));
                },
            }
        },
        None => {
            return Err(Fault::Error(Error::UnknownWithdrawalBundle { m6id }));
        },
    }
    let ghost bundles = state@.withdrawal_bundles;
    let (info, status) = state.withdrawal_bundles.take(&m6id).unwrap();
    let info = match info {
        WithdrawalBundleInfo::UnknownConfirmed { spend_utxos } => {
            match undo_taking(state, diff, &spend_utxos) {
                Ok(()) => {},
                Err(e) => {
                    state.withdrawal_bundles.put(
                        m6id,
                        (WithdrawalBundleInfo::UnknownConfirmed { spend_utxos }, status),
                    );
                    assert(state@.withdrawal_bundles =~= bundles);
                    return Err(Fault::Error(e));
                },
            }
            WithdrawalBundleInfo::Unknown
        },
        other => other,
    };
    let (earlier, _) = status.pop();
    state.withdrawal_bundles.put(m6id, (info, earlier.unwrap()));
    assert(state@ =~= confirmed_undone(old(state)@, old(diff)@, block_height, m6id).state);
    Ok(())
}

/// Spends again what a failed bundle gave back, last to first, until an output
/// is there to be spent.
fn undo_returning(
    state: &mut State,
    diff: &mut AccumulatorDiff,
    m6id: M6id,
    spend: &Vec<(OutPoint, Output)>,
) -> (r: Result<(), Error>)
    ensures
        ({
            let done = returning_undone(
                LedgerStep::start(Ledger::of(old(state)@, old(diff)@)),
                m6id,
                pointed(spend@),
                spend@.len(),
            );
            &&& final(state)@ == done.ledger.in_state(old(state)@)
            &&& final(diff)@ == done.ledger.diff
            &&& r == match done.error {
                Some(e) => Err::<(), Error>(e),
                None => Ok(()),
            }
        }),
{
    let ghost goal = returning_undone(
        LedgerStep::start(Ledger::of(state@, diff@)),
        m6id,
        pointed(spend@),
        spend@.len(),
    );
    let mut left: usize = spend.len();
    while left > 0
        invariant
            left <= spend@.len(),
            state@ == Ledger::of(state@, diff@).in_state(old(state)@),
            goal == returning_undone(
                LedgerStep::start(Ledger::of(state@, diff@)),
                m6id,
                pointed(spend@),
                left as nat,
            ),
            goal == returning_undone(
                LedgerStep::start(Ledger::of(old(state)@, old(diff)@)),
                m6id,
                pointed(spend@),
                spend@.len(),
            ),
        decreases left,
    {
        left = left - 1;
        let outpoint = spend[left].0;
        let output = spend[left].1.clone();
        let leaf = output.leaf;
        state.stxos.put(outpoint, SpentOutput { output, inpoint: InPoint::Withdrawal { m6id } });
        if state.utxos.delete(&outpoint) {
            return Err(Error::NoUtxo { outpoint });
        }
        diff.remove(leaf);
    }
    Ok(())
}

/// Disconnects that a bundle failed.
pub fn disconnect_withdrawal_bundle_failed(
    state: &mut State,
    block_height: u32,
    diff: &mut AccumulatorDiff,
    m6id: M6id,
) -> (r: Result<(), Fault>)
    ensures
        ({
            let step = failed_undone(old(state)@, old(diff)@, block_height, m6id);
            &&& final(state)@ == step.state
            &&& final(diff)@ == step.diff
            &&& r == step.reports()
        }),
{
    match state.withdrawal_bundles.try_get(&m6id) {
        Some((_, status)) => {
            if status.latest().value == WithdrawalBundleStatus::Submitted {
                // This event was disconnected before.
                return Ok(());
            }
            match check_status(status, WithdrawalBundleStatus::Failed, block_height) {
                Ok(()) => {},
                Err(halt) => {
                    return Err(Fault::Halt(halt));
                },
            }
        },
        None => {
            return Err(Fault::Error(Error::UnknownWithdrawalBundle { m6id }));
        },
    }
    let ghost bundles = state@.withdrawal_bundles;
    let (info, status) = state.withdrawal_bundles.take(&m6id).unwrap();
    if let WithdrawalBundleInfo::Known(bundle) = &info {
        let fault = match undo_returning(state, diff, m6id, &bundle.spend_utxos) {
            Err(e) => Some(Fault::Error(e)),
            Ok(()) => {
                let last = match &state.latest_failed_withdrawal_bundle {
                    Some(list) => {
                        let latest = list.latest();
                        latest.value == m6id && latest.height == block_height
                    },
                    None => false,
                };
                if last {
                    None
                } else {
                    Some(Fault::Halt(Halt::LatestFailure))
                }
            },
        };
        if let Some(fault) = fault {
            state.withdrawal_bundles.put(m6id, (info, status));
            assert(state@.withdrawal_bundles =~= bundles);
            return Err(fault);
        }
        let (earlier, _) = state.latest_failed_withdrawal_bundle.take().unwrap().pop();
        state.latest_failed_withdrawal_bundle = earlier;
    }
    let (earlier, _) = status.pop();
    state.withdrawal_bundles.put(m6id, (info, earlier.unwrap()));
    assert(state@ =~= failed_undone(old(state)@, old(diff)@, block_height, m6id).state);
    Ok(())
}

/// Disconnects what happened to a bundle.
pub fn disconnect_withdrawal_bundle_event(
    state: &mut State,
    block_height: u32,
    diff: &mut AccumulatorDiff,
    event: &WithdrawalBundleEvent,
) -> (r: Result<(), Fault>)
    ensures
        ({
            let step = bundle_event_undone(old(state)@, old(diff)@, block_height, *event);
            &&& final(state)@ == step.state
            &&& final(diff)@ == step.diff
            &&& r == step.reports()
        }),
{
    match event.status {
        WithdrawalBundleStatus::Submitted => disconnect_withdrawal_bundle_submitted(
            state,
            block_height,
            diff,
            event.m6id,
        ),
        WithdrawalBundleStatus::Confirmed => disconnect_withdrawal_bundle_confirmed(
            state,
            block_height,
            diff,
            event.m6id,
        ),
        WithdrawalBundleStatus::Failed => disconnect_withdrawal_bundle_failed(
            state,
            block_height,
            diff,
            event.m6id,
        ),
    }
}

} // verus!
