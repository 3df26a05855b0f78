//! Taking back what happened to a bundle, where outputs are missing or in the way: what
//! is reported, and what was done to outputs before that.
use vstd::prelude::*;

use crate::accumulator::DiffView;
use crate::error::{Error, Fault, Halt};
use crate::event_laws::{latest, was_submitted};
use crate::ids::M6id;
use crate::peg_model::{
    confirmed_undone, failed_undone, returning_undone, spending_undone, submitted_undone,
    taking_undone, Ledger, LedgerStep,
};
use crate::rollback::HeightStamped;
use crate::state::StateView;
use crate::types::{InPoint, OutPoint, OutputView, SpentOutputView};
use crate::withdrawal::WithdrawalBundleStatus;

verus! {

/// No outpoint is listed twice.
pub open spec fn points_differ(spend: Seq<(OutPoint, OutputView)>) -> bool {
    forall|i: int, j: int|
        #![trigger spend[i], spend[j]]
        0 <= i < j < spend.len() ==> spend[i].0 != spend[j].0
}

/// An outpoint is as it was.
pub open spec fn is_kept(
    utxos: Map<OutPoint, OutputView>,
    stxos: Map<OutPoint, SpentOutputView>,
    after: StateView,
    k: OutPoint,
) -> bool {
    &&& after.utxos.contains_key(k) <==> utxos.contains_key(k)
    &&& utxos.contains_key(k) ==> after.utxos[k] == utxos[k]
    &&& after.stxos.contains_key(k) <==> stxos.contains_key(k)
    &&& stxos.contains_key(k) ==> after.stxos[k] == stxos[k]
}

/// At an outpoint, the listed outputs from `low` up to `high` are unspent, and all else is
/// as it was.
pub open spec fn is_back_at(
    utxos: Map<OutPoint, OutputView>,
    stxos: Map<OutPoint, SpentOutputView>,
    after: StateView,
    spend: Seq<(OutPoint, OutputView)>,
    low: int,
    high: int,
    k: OutPoint,
) -> bool {
    &&& forall|j: int|
        low <= j < high && (#[trigger] spend[j]).0 == k ==> after.utxos.contains_key(k)
            && after.utxos[k] == spend[j].1 && !after.stxos.contains_key(k)
    &&& (forall|j: int| low <= j < high ==> (#[trigger] spend[j]).0 != k) ==> is_kept(
        utxos,
        stxos,
        after,
        k,
    )
}

/// At an outpoint, the listed outputs from `low` up to `high` are spent by a bundle, and all
/// else is as it was.
pub open spec fn is_gone_at(
    utxos: Map<OutPoint, OutputView>,
    stxos: Map<OutPoint, SpentOutputView>,
    after: StateView,
    m6id: M6id,
    spend: Seq<(OutPoint, OutputView)>,
    low: int,
    high: int,
    k: OutPoint,
) -> bool {
    &&& forall|j: int|
        low <= j < high && (#[trigger] spend[j]).0 == k ==> !after.utxos.contains_key(k)
            && after.stxos.contains_key(k) && after.stxos[k] == (SpentOutputView {
            output: spend[j].1,
            inpoint: InPoint::Withdrawal { m6id },
        })
    &&& (forall|j: int| low <= j < high ==> (#[trigger] spend[j]).0 != k) ==> is_kept(
        utxos,
        stxos,
        after,
        k,
    )
}

/// Giving back stops at the last output that was not spent.
proof fn giving_back_stops(
    s: StateView,
    step: LedgerStep,
    spend: Seq<(OutPoint, OutputView)>,
    n: nat,
    i: int,
    k: OutPoint,
)
    requires
        points_differ(spend),
        -1 <= i < n <= spend.len(),
        step.error is None,
        forall|j: int| i < j < n ==> step.ledger.stxos.contains_key((#[trigger] spend[j]).0),
        i >= 0 ==> !step.ledger.stxos.contains_key(spend[i].0),
    ensures
        ({
            let done = spending_undone(step, spend, n);
            &&& done.error == if i >= 0 {
                Some(Error::NoStxo { outpoint: spend[i].0 })
            } else {
                None
            }
            &&& is_back_at(
                step.ledger.utxos,
                step.ledger.stxos,
                done.ledger.in_state(s),
                spend,
                i + 1,
                n as int,
                k,
            )
        }),
    decreases n,
{
    reveal_with_fuel(spending_undone, 2);
    if n > 0 && i < n - 1 {
        let (outpoint, output) = spend[n - 1];
        assert(step.ledger.stxos.contains_key(spend[n - 1].0));
        let next = LedgerStep {
            ledger: Ledger {
                stxos: step.ledger.stxos.remove(outpoint),
                utxos: step.ledger.utxos.insert(outpoint, output),
                diff: step.ledger.diff.insert(output.leaf),
            },
            error: None,
        };
        assert forall|j: int| i < j < n - 1 implies next.ledger.stxos.contains_key(
            (#[trigger] spend[j]).0,
        ) by {
            assert(spend[j].0 != spend[n - 1].0);
        }
        if n > 1 || i >= 0 {
            giving_back_stops(s, next, spend, (n - 1) as nat, i, k);
        }
        let after = spending_undone(step, spend, n).ledger.in_state(s);
        assert(spending_undone(step, spend, n) == spending_undone(next, spend, (n - 1) as nat));
        if k == outpoint {
            assert forall|j: int| i < j < n - 1 implies (#[trigger] spend[j]).0 != k by {
                assert(spend[j].0 != spend[n - 1].0);
            }
            assert forall|j: int| i < j < n && (#[trigger] spend[j]).0 == k implies j == n - 1 by {}
        } else if forall|j: int| i < j < n ==> (#[trigger] spend[j]).0 != k {
            assert forall|j: int| i < j < n - 1 implies (#[trigger] spend[j]).0 != k by {}
        }
    }
}

/// Giving back what an unknown bundle took goes on as long as it was spent.
proof fn giving_all_back_goes_on(
    s: StateView,
    ledger: Ledger,
    spend: Seq<(OutPoint, OutputView)>,
    n: nat,
    k: OutPoint,
)
    requires
        points_differ(spend),
        n <= spend.len(),
        forall|j: int| 0 <= j < n ==> ledger.stxos.contains_key((#[trigger] spend[j]).0),
    ensures
        taking_undone(ledger, spend, n).error is None,
        is_back_at(
            ledger.utxos,
            ledger.stxos,
            taking_undone(ledger, spend, n).ledger.in_state(s),
            spend,
            0,
            n as int,
            k,
        ),
    decreases n,
{
    if n > 0 {
        let before = taking_undone(ledger, spend, (n - 1) as nat).ledger;
        let outpoint = spend[n - 1].0;
        assert forall|j: int| 0 <= j < n - 1 implies ledger.stxos.contains_key(
            (#[trigger] spend[j]).0,
        ) by {}
        giving_all_back_goes_on(s, ledger, spend, (n - 1) as nat, k);
        giving_all_back_goes_on(s, ledger, spend, (n - 1) as nat, outpoint);
        assert forall|j: int| 0 <= j < n - 1 implies (#[trigger] spend[j]).0 != outpoint by {
            assert(spend[j].0 != spend[n - 1].0);
        }
        assert(is_kept(ledger.utxos, ledger.stxos, before.in_state(s), outpoint));
        assert(ledger.stxos.contains_key(spend[n - 1].0));
        if forall|j: int| 0 <= j < n ==> (#[trigger] spend[j]).0 != k {
            assert forall|j: int| 0 <= j < n - 1 implies (#[trigger] spend[j]).0 != k by {}
        }
    }
}

/// Giving back what an unknown bundle took stops after the first output that was not spent.
proof fn giving_all_back_stops(
    s: StateView,
    ledger: Ledger,
    spend: Seq<(OutPoint, OutputView)>,
    n: nat,
    i: int,
    k: OutPoint,
)
    requires
        points_differ(spend),
        0 <= i < n <= spend.len(),
        forall|j: int| 0 <= j < i ==> ledger.stxos.contains_key((#[trigger] spend[j]).0),
        !ledger.stxos.contains_key(spend[i].0),
    ensures
        taking_undone(ledger, spend, n).error == Some(Error::NoStxo { outpoint: spend[i].0 }),
        is_back_at(
            ledger.utxos,
            ledger.stxos,
            taking_undone(ledger, spend, n).ledger.in_state(s),
            spend,
            0,
            i + 1,
            k,
        ),
    decreases n,
{
    if i < n - 1 {
        giving_all_back_stops(s, ledger, spend, (n - 1) as nat, i, k);
    } else {
        let before = taking_undone(ledger, spend, i as nat).ledger;
        let outpoint = spend[i].0;
        giving_all_back_goes_on(s, ledger, spend, i as nat, k);
        giving_all_back_goes_on(s, ledger, spend, i as nat, outpoint);
        assert forall|j: int| 0 <= j < i implies (#[trigger] spend[j]).0 != outpoint by {
            assert(spend[j].0 != spend[i].0);
        }
        assert(is_kept(ledger.utxos, ledger.stxos, before.in_state(s), outpoint));
        if forall|j: int| 0 <= j < i + 1 ==> (#[trigger] spend[j]).0 != k {
            assert(spend[i].0 != k);
            assert forall|j: int| 0 <= j < i implies (#[trigger] spend[j]).0 != k by {}
        }
    }
}

/// Spending again stops after the last output that is unspent.
proof fn spending_again_stops(
    s: StateView,
    step: LedgerStep,
    m6id: M6id,
    spend: Seq<(OutPoint, OutputView)>,
    n: nat,
    i: int,
    k: OutPoint,
)
    requires
        points_differ(spend),
        -1 <= i < n <= spend.len(),
        step.error is None,
        forall|j: int| i < j < n ==> !step.ledger.utxos.contains_key((#[trigger] spend[j]).0),
        i >= 0 ==> step.ledger.utxos.contains_key(spend[i].0),
    ensures
        ({
            let done = returning_undone(step, m6id, spend, n);
            &&& done.error == if i >= 0 {
                Some(Error::NoUtxo { outpoint: spend[i].0 })
            } else {
                None
            }
            &&& is_gone_at(
                step.ledger.utxos,
                step.ledger.stxos,
                done.ledger.in_state(s),
                m6id,
                spend,
                if i >= 0 {
                    i
                } else {
                    0
                },
                n as int,
                k,
            )
        }),
    decreases n,
{
    reveal_with_fuel(returning_undone, 2);
    let low = if i >= 0 {
        i
    } else {
        0
    };
    if n > 0 && i < n - 1 {
        let (outpoint, output) = spend[n - 1];
        assert(!step.ledger.utxos.contains_key(spend[n - 1].0));
        let after = Ledger {
            stxos: step.ledger.stxos.insert(
                outpoint,
                SpentOutputView { output, inpoint: InPoint::Withdrawal { m6id } },
            ),
            utxos: step.ledger.utxos.remove(outpoint),
            ..step.ledger
        };
        let next = LedgerStep::start(Ledger { diff: after.diff.remove(output.leaf), ..after });
        if i >= 0 {
            assert(spend[i].0 != spend[n - 1].0);
        }
        assert forall|j: int| i < j < n - 1 implies !next.ledger.utxos.contains_key(
            (#[trigger] spend[j]).0,
        ) by {}
        if n > 1 || i >= 0 {
            spending_again_stops(s, next, m6id, spend, (n - 1) as nat, i, k);
        }
        assert(returning_undone(step, m6id, spend, n) == returning_undone(
            next,
            m6id,
            spend,
            (n - 1) as nat,
        ));
        if k == outpoint {
            assert forall|j: int| low <= j < n - 1 implies (#[trigger] spend[j]).0 != k by {
                assert(spend[j].0 != spend[n - 1].0);
            }
        } else if forall|j: int| low <= j < n ==> (#[trigger] spend[j]).0 != k {
            assert forall|j: int| low <= j < n - 1 implies (#[trigger] spend[j]).0 != k by {}
        }
    }
}

/// Where a submission is taken back of a bundle made here, its outputs are given back last to
/// first. The first of them, in that order, that is not spent is reported; those before it
/// were given back, and all else is as it was. Where all are spent, nothing is reported but
/// that no block comes before the first.
pub proof fn submissions_stop_at_missing_outputs(
    s: StateView,
    diff: DiffView,
    height: u32,
    m6id: M6id,
    i: int,
    k: OutPoint,
)
    requires
        s.withdrawal_bundles.contains_key(m6id),
        s.withdrawal_bundles[m6id].0 is Known,
        latest(s, m6id) == (HeightStamped { value: WithdrawalBundleStatus::Submitted, height }),
        ({
            let spend = s.withdrawal_bundles[m6id].0->Known_0.spend_utxos;
            &&& points_differ(spend)
            &&& -1 <= i < spend.len()
            &&& forall|j: int| i < j < spend.len() ==> s.stxos.contains_key((#[trigger] spend[j]).0)
            &&& i >= 0 ==> !s.stxos.contains_key(spend[i].0)
        }),
    ensures
        ({
            let spend = s.withdrawal_bundles[m6id].0->Known_0.spend_utxos;
            let done = submitted_undone(s, diff, height, m6id);
            &&& done.fault == if i >= 0 {
                Some(Fault::Error(Error::NoStxo { outpoint: spend[i].0 }))
            } else if height == 0 {
                Some(Fault::Halt(Halt::OutOfRange))
            } else {
                None
            }
            &&& is_back_at(
                s.utxos,
                s.stxos,
                done.state,
                spend,
                i + 1,
                spend.len() as int,
                k,
            )
            &&& done.fault is Some ==> done.state == (StateView {
                utxos: done.state.utxos,
                stxos: done.state.stxos,
                ..s
            })
        }),
{
    let spend = s.withdrawal_bundles[m6id].0->Known_0.spend_utxos;
    let start = LedgerStep::start(Ledger::of(s, diff));
    if spend.len() > 0 {
        giving_back_stops(s, start, spend, spend.len(), i, k);
    }
}

/// Where a confirmation is taken back of a bundle that was not made here, the outputs that it
/// took are given back first to last. The first that is not spent is reported; it and those
/// before it are unspent, and all else is as it was. Where all are spent, nothing is
/// reported.
pub proof fn confirmations_stop_at_missing_outputs(
    s: StateView,
    diff: DiffView,
    height: u32,
    m6id: M6id,
    i: int,
    k: OutPoint,
)
    requires
        s.withdrawal_bundles.contains_key(m6id),
        s.withdrawal_bundles[m6id].0 is UnknownConfirmed,
        latest(s, m6id) == (HeightStamped { value: WithdrawalBundleStatus::Confirmed, height }),
        was_submitted(s, m6id),
        ({
            let spend = s.withdrawal_bundles[m6id].0->spend_utxos;
            &&& points_differ(spend)
            &&& 0 <= i <= spend.len()
            &&& forall|j: int| 0 <= j < i ==> s.stxos.contains_key((#[trigger] spend[j]).0)
            &&& i < spend.len() ==> !s.stxos.contains_key(spend[i].0)
        }),
    ensures
        ({
            let spend = s.withdrawal_bundles[m6id].0->spend_utxos;
            let done = confirmed_undone(s, diff, height, m6id);
            if i < spend.len() {
                &&& done.fault == Some(Fault::Error(Error::NoStxo { outpoint: spend[i].0 }))
                &&& is_back_at(s.utxos, s.stxos, done.state, spend, 0, i + 1, k)
                &&& done.state == (StateView {
                    utxos: done.state.utxos,
                    stxos: done.state.stxos,
                    ..s
                })
            } else {
                &&& done.fault is None
                &&& is_back_at(s.utxos, s.stxos, done.state, spend, 0, i, k)
            }
        }),
{
    let spend = s.withdrawal_bundles[m6id].0->spend_utxos;
    let start = Ledger::of(s, diff);
    if i < spend.len() {
        giving_all_back_stops(s, start, spend, spend.len(), i, k);
    } else {
        giving_all_back_goes_on(s, start, spend, spend.len(), k);
    }
}

/// Where a failure is taken back of a bundle made here, its outputs are spent again last to
/// first. The first of them, in that order, that is unspent is reported as if it were
/// missing; it and those before it are spent, and all else is as it was. Where none is
/// unspent, nothing is reported but that it is not the failure that was noted last.
pub proof fn failures_stop_at_unspent_outputs(
    s: StateView,
    diff: DiffView,
    height: u32,
    m6id: M6id,
    i: int,
    k: OutPoint,
)
    requires
        s.withdrawal_bundles.contains_key(m6id),
        s.withdrawal_bundles[m6id].0 is Known,
        latest(s, m6id) == (HeightStamped { value: WithdrawalBundleStatus::Failed, height }),
        was_submitted(s, m6id),
        ({
            let spend = s.withdrawal_bundles[m6id].0->Known_0.spend_utxos;
            &&& points_differ(spend)
            &&& -1 <= i < spend.len()
            &&& forall|j: int|
                i < j < spend.len() ==> !s.utxos.contains_key((#[trigger] spend[j]).0)
            &&& i >= 0 ==> s.utxos.contains_key(spend[i].0)
        }),
    ensures
        ({
            let spend = s.withdrawal_bundles[m6id].0->Known_0.spend_utxos;
            let list = s.latest_failed_withdrawal_bundle;
            let done = failed_undone(s, diff, height, m6id);
            &&& done.fault == if i >= 0 {
                Some(Fault::Error(Error::NoUtxo { outpoint: spend[i].0 }))
            } else if list is Some && list->0[list->0.len() - 1] == (HeightStamped {
                value: m6id,
                height,
            }) {
                None
            } else {
                Some(Fault::Halt(Halt::LatestFailure))
            }
            &&& is_gone_at(
                s.utxos,
                s.stxos,
                done.state,
                m6id,
                spend,
                if i >= 0 {
                    i
                } else {
                    0
                },
                spend.len() as int,
                k,
            )
            &&& done.fault is Some ==> done.state == (StateView {
                utxos: done.state.utxos,
                stxos: done.state.stxos,
                ..s
            })
        }),
{
    let spend = s.withdrawal_bundles[m6id].0->Known_0.spend_utxos;
    let start = LedgerStep::start(Ledger::of(s, diff));
    if spend.len() > 0 {
        spending_again_stops(s, start, m6id, spend, spend.len(), i, k);
    }
}

} // verus!
