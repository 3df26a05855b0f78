//! What the events of mainchain blocks do, one by one, and what taking them back
//! does.
use vstd::prelude::*;

use crate::accumulator::DiffView;
use crate::error::{Error, Fault, Halt};
use crate::ids::{Hash256, M6id, MainBlockHash};
use crate::leaf_laws::{is_net, is_sound, one_more_came, one_more_went, stays_sound};
use crate::mainchain::{BlockEventView, DepositView};
use crate::peg_model::{
    bundle_returned, bundle_spent, bundle_took, confirmed, confirmed_undone, event_connected,
    event_undone, failed, failed_undone, listed, returning_undone, spending_undone, submitted,
    submitted_undone, taking_undone, Ledger, LedgerStep, Run,
};
use crate::rollback::HeightStamped;
use crate::state::StateView;
use crate::types::{InPoint, OutPoint, OutputView, SpentOutputView};
use crate::withdrawal::{WithdrawalBundleInfoView, WithdrawalBundleStatus};

verus! {

/// One of these outputs is kept under this outpoint.
pub open spec fn has_point(spend: Seq<(OutPoint, OutputView)>, k: OutPoint) -> bool {
    exists|i: int| 0 <= i < spend.len() && (#[trigger] spend[i]).0 == k
}

/// This is one of the outputs.
pub open spec fn has_output(
    spend: Seq<(OutPoint, OutputView)>,
    k: OutPoint,
    output: OutputView,
) -> bool {
    exists|i: int| 0 <= i < spend.len() && #[trigger] spend[i] == (k, output)
}

/// How often a leaf is that of one of the first `n` outputs.
pub open spec fn times_in(spend: Seq<(OutPoint, OutputView)>, leaf: Hash256, n: nat) -> nat
    decreases n,
{
    if n == 0 {
        0
    } else {
        times_in(spend, leaf, (n - 1) as nat) + if spend[n - 1].1.leaf == leaf {
            1nat
        } else {
            0nat
        }
    }
}

/// These outputs are spent by a bundle: none of them is unspent, each is noted as
/// spent by the bundle, and all other outputs are as they were.
pub open spec fn are_spent(
    s: StateView,
    after: StateView,
    spend: Seq<(OutPoint, OutputView)>,
    m6id: M6id,
) -> bool {
    forall|k: OutPoint|
        #![trigger after.utxos.contains_key(k)]
        #![trigger after.stxos.contains_key(k)]
        if has_point(spend, k) {
            &&& !after.utxos.contains_key(k)
            &&& after.stxos.contains_key(k)
            &&& has_output(spend, k, after.stxos[k].output)
            &&& after.stxos[k].inpoint == (InPoint::Withdrawal { m6id })
        } else {
            same_at(s, after, k)
        }
}

/// These outputs are given back: each is unspent, none is noted as spent, and all
/// other outputs are as they were.
pub open spec fn are_given_back(
    s: StateView,
    after: StateView,
    spend: Seq<(OutPoint, OutputView)>,
) -> bool {
    forall|k: OutPoint|
        #![trigger after.utxos.contains_key(k)]
        #![trigger after.stxos.contains_key(k)]
        if has_point(spend, k) {
            &&& after.utxos.contains_key(k)
            &&& has_output(spend, k, after.utxos[k])
            &&& !after.stxos.contains_key(k)
        } else {
            same_at(s, after, k)
        }
}

/// What is kept under an outpoint, spent or not, is as it was.
pub open spec fn same_at(s: StateView, after: StateView, k: OutPoint) -> bool {
    &&& after.utxos.contains_key(k) <==> s.utxos.contains_key(k)
    &&& after.utxos.contains_key(k) ==> after.utxos[k] == s.utxos[k]
    &&& after.stxos.contains_key(k) <==> s.stxos.contains_key(k)
    &&& after.stxos.contains_key(k) ==> after.stxos[k] == s.stxos[k]
}

/// The leaves of outputs went.
pub open spec fn leaves_went(
    diff: DiffView,
    after: DiffView,
    spend: Seq<(OutPoint, OutputView)>,
) -> bool {
    is_sound(diff) ==> is_sound(after) && forall|leaf: Hash256, came: nat, went: nat| #[trigger]
        is_net(diff, leaf, came, went) ==> is_net(
            after,
            leaf,
            came,
            went + times_in(spend, leaf, spend.len()),
        )
}

/// The leaves of outputs came.
pub open spec fn leaves_came(
    diff: DiffView,
    after: DiffView,
    spend: Seq<(OutPoint, OutputView)>,
) -> bool {
    is_sound(diff) ==> is_sound(after) && forall|leaf: Hash256, came: nat, went: nat| #[trigger]
        is_net(diff, leaf, came, went) ==> is_net(
            after,
            leaf,
            came + times_in(spend, leaf, spend.len()),
            went,
        )
}

/// Nothing but outputs changed, and this of what is known of bundles.
pub open spec fn only_bundles_change(s: StateView, after: StateView) -> bool {
    after == (StateView {
        utxos: after.utxos,
        stxos: after.stxos,
        pending_withdrawal_bundle: after.pending_withdrawal_bundle,
        withdrawal_bundles: after.withdrawal_bundles,
        latest_failed_withdrawal_bundle: after.latest_failed_withdrawal_bundle,
        ..s
    })
}

// Spending, taking and giving back.
/// One output more.
proof fn point_of_more(spend: Seq<(OutPoint, OutputView)>, n: nat, k: OutPoint)
    requires
        0 < n <= spend.len(),
    ensures
        has_point(spend.take(n as int), k) <==> has_point(spend.take(n - 1), k) || spend[n - 1].0
            == k,
        forall|output: OutputView| #[trigger]
            has_output(spend.take(n - 1), k, output) ==> has_output(
                spend.take(n as int),
                k,
                output,
            ),
        spend[n - 1].0 == k ==> has_output(spend.take(n as int), k, spend[n - 1].1),
{
    let some = spend.take(n - 1);
    let more = spend.take(n as int);
    assert(more[n - 1] == spend[n - 1]);
    if has_point(some, k) {
        let i = choose|i: int| 0 <= i < some.len() && (#[trigger] some[i]).0 == k;
        assert(more[i].0 == k);
    }
    if has_point(more, k) && spend[n - 1].0 != k {
        let i = choose|i: int| 0 <= i < more.len() && (#[trigger] more[i]).0 == k;
        assert(some[i].0 == k);
    }
    assert forall|output: OutputView| #[trigger] has_output(some, k, output) implies has_output(
        more,
        k,
        output,
    ) by {
        let i = choose|i: int| 0 <= i < some.len() && #[trigger] some[i] == (k, output);
        assert(more[i] == (k, output));
    }
    if spend[n - 1].0 == k {
        assert(more[n - 1] == (k, spend[n - 1].1));
    }
}

/// What a bundle spends, seen at one outpoint.
proof fn spent_at_point(
    ledger: Ledger,
    m6id: M6id,
    spend: Seq<(OutPoint, OutputView)>,
    n: nat,
    k: OutPoint,
)
    requires
        n <= spend.len(),
    ensures
        ({
            let after = bundle_spent(ledger, m6id, spend, n);
            if has_point(spend.take(n as int), k) {
                &&& !after.utxos.contains_key(k)
                &&& after.stxos.contains_key(k)
                &&& has_output(spend.take(n as int), k, after.stxos[k].output)
                &&& after.stxos[k].inpoint == (InPoint::Withdrawal { m6id })
            } else {
                &&& after.utxos.contains_key(k) <==> ledger.utxos.contains_key(k)
                &&& after.utxos.contains_key(k) ==> after.utxos[k] == ledger.utxos[k]
                &&& after.stxos.contains_key(k) <==> ledger.stxos.contains_key(k)
                &&& after.stxos.contains_key(k) ==> after.stxos[k] == ledger.stxos[k]
            }
        }),
    decreases n,
{
    if n > 0 {
        spent_at_point(ledger, m6id, spend, (n - 1) as nat, k);
        point_of_more(spend, n, k);
    }
}

/// What a bundle takes, seen at one outpoint.
proof fn taken_at_point(
    ledger: Ledger,
    m6id: M6id,
    spend: Seq<(OutPoint, OutputView)>,
    n: nat,
    k: OutPoint,
)
    requires
        n <= spend.len(),
    ensures
        ({
            let after = bundle_took(ledger, m6id, spend, n);
            &&& after.utxos == ledger.utxos
            &&& if has_point(spend.take(n as int), k) {
                &&& after.stxos.contains_key(k)
                &&& has_output(spend.take(n as int), k, after.stxos[k].output)
                &&& after.stxos[k].inpoint == (InPoint::Withdrawal { m6id })
            } else {
                &&& after.stxos.contains_key(k) <==> ledger.stxos.contains_key(k)
                &&& after.stxos.contains_key(k) ==> after.stxos[k] == ledger.stxos[k]
            }
        }),
    decreases n,
{
    if n > 0 {
        taken_at_point(ledger, m6id, spend, (n - 1) as nat, k);
        point_of_more(spend, n, k);
    }
}

/// What a bundle gives back, seen at one outpoint.
proof fn returned_at_point(
    ledger: Ledger,
    spend: Seq<(OutPoint, OutputView)>,
    n: nat,
    k: OutPoint,
)
    requires
        n <= spend.len(),
    ensures
        ({
            let after = bundle_returned(ledger, spend, n);
            if has_point(spend.take(n as int), k) {
                &&& after.utxos.contains_key(k)
                &&& has_output(spend.take(n as int), k, after.utxos[k])
                &&& !after.stxos.contains_key(k)
            } else {
                &&& after.utxos.contains_key(k) <==> ledger.utxos.contains_key(k)
                &&& after.utxos.contains_key(k) ==> after.utxos[k] == ledger.utxos[k]
                &&& after.stxos.contains_key(k) <==> ledger.stxos.contains_key(k)
                &&& after.stxos.contains_key(k) ==> after.stxos[k] == ledger.stxos[k]
            }
        }),
    decreases n,
{
    if n > 0 {
        returned_at_point(ledger, spend, (n - 1) as nat, k);
        point_of_more(spend, n, k);
    }
}

/// What taking back a submission gives back, seen at one outpoint.
proof fn unspent_at_point(
    step: LedgerStep,
    spend: Seq<(OutPoint, OutputView)>,
    n: nat,
    k: OutPoint,
)
    requires
        n <= spend.len(),
        spending_undone(step, spend, n).error is None,
    ensures
        ({
            let ledger = step.ledger;
            let after = spending_undone(step, spend, n).ledger;
            &&& step.error is None
            &&& has_point(spend.take(n as int), k) ==> {
                &&& ledger.stxos.contains_key(k)
                &&& after.utxos.contains_key(k)
                &&& has_output(spend.take(n as int), k, after.utxos[k])
                &&& !after.stxos.contains_key(k)
            }
            &&& !has_point(spend.take(n as int), k) ==> {
                &&& after.utxos.contains_key(k) <==> ledger.utxos.contains_key(k)
                &&& after.utxos.contains_key(k) ==> after.utxos[k] == ledger.utxos[k]
                &&& after.stxos.contains_key(k) <==> ledger.stxos.contains_key(k)
                &&& after.stxos.contains_key(k) ==> after.stxos[k] == ledger.stxos[k]
            }
        }),
    decreases n,
{
    if n > 0 && step.error is None {
        let (outpoint, output) = spend[n - 1];
        if step.ledger.stxos.contains_key(outpoint) {
            let next = LedgerStep {
                ledger: Ledger {
                    stxos: step.ledger.stxos.remove(outpoint),
                    utxos: step.ledger.utxos.insert(outpoint, output),
                    diff: step.ledger.diff.insert(output.leaf),
                },
                error: None,
            };
            unspent_at_point(next, spend, (n - 1) as nat, k);
            point_of_more(spend, n, k);
        }
    }
}

/// What taking back a confirmation gives back, seen at one outpoint.
proof fn untaken_at_point(ledger: Ledger, spend: Seq<(OutPoint, OutputView)>, n: nat, k: OutPoint)
    requires
        n <= spend.len(),
        taking_undone(ledger, spend, n).error is None,
    ensures
        ({
            let after = taking_undone(ledger, spend, n).ledger;
            if has_point(spend.take(n as int), k) {
                &&& ledger.stxos.contains_key(k)
                &&& after.utxos.contains_key(k)
                &&& has_output(spend.take(n as int), k, after.utxos[k])
                &&& !after.stxos.contains_key(k)
            } else {
                &&& after.utxos.contains_key(k) <==> ledger.utxos.contains_key(k)
                &&& after.utxos.contains_key(k) ==> after.utxos[k] == ledger.utxos[k]
                &&& after.stxos.contains_key(k) <==> ledger.stxos.contains_key(k)
                &&& after.stxos.contains_key(k) ==> after.stxos[k] == ledger.stxos[k]
            }
        }),
    decreases n,
{
    if n > 0 {
        untaken_at_point(ledger, spend, (n - 1) as nat, k);
        point_of_more(spend, n, k);
    }
}

/// The leaves that a bundle spends go.
proof fn spent_leaves_go(
    ledger: Ledger,
    m6id: M6id,
    spend: Seq<(OutPoint, OutputView)>,
    n: nat,
    leaf: Hash256,
    came: nat,
    went: nat,
)
    requires
        is_sound(ledger.diff),
    ensures
        bundle_took(ledger, m6id, spend, n).diff == bundle_spent(ledger, m6id, spend, n).diff,
        is_sound(bundle_spent(ledger, m6id, spend, n).diff),
        is_net(ledger.diff, leaf, came, went) ==> is_net(
            bundle_spent(ledger, m6id, spend, n).diff,
            leaf,
            came,
            went + times_in(spend, leaf, n),
        ),
    decreases n,
{
    if n > 0 {
        spent_leaves_go(ledger, m6id, spend, (n - 1) as nat, leaf, came, went);
        let before = bundle_spent(ledger, m6id, spend, (n - 1) as nat).diff;
        let gone = spend[n - 1].1.leaf;
        stays_sound(before, gone);
        if is_net(ledger.diff, leaf, came, went) {
            one_more_went(before, gone, leaf, came, went + times_in(spend, leaf, (n - 1) as nat));
        }
    }
}

/// The leaves that a bundle gives back come.
proof fn returned_leaves_come(
    ledger: Ledger,
    spend: Seq<(OutPoint, OutputView)>,
    n: nat,
    leaf: Hash256,
    came: nat,
    went: nat,
)
    requires
        is_sound(ledger.diff),
    ensures
        is_sound(bundle_returned(ledger, spend, n).diff),
        is_net(ledger.diff, leaf, came, went) ==> is_net(
            bundle_returned(ledger, spend, n).diff,
            leaf,
            came + times_in(spend, leaf, n),
            went,
        ),
        taking_undone(ledger, spend, n).error is None ==> taking_undone(ledger, spend, n).ledger.diff
            == bundle_returned(ledger, spend, n).diff,
    decreases n,
{
    if n > 0 {
        returned_leaves_come(ledger, spend, (n - 1) as nat, leaf, came, went);
        let before = bundle_returned(ledger, spend, (n - 1) as nat).diff;
        let back = spend[n - 1].1.leaf;
        stays_sound(before, back);
        if is_net(ledger.diff, leaf, came, went) {
            one_more_came(before, back, leaf, came + times_in(spend, leaf, (n - 1) as nat), went);
        }
    }
}

/// The leaves that taking back a submission gives back come.
proof fn unspent_leaves_come(
    step: LedgerStep,
    spend: Seq<(OutPoint, OutputView)>,
    n: nat,
    leaf: Hash256,
    came: nat,
    went: nat,
)
    requires
        is_sound(step.ledger.diff),
        spending_undone(step, spend, n).error is None,
    ensures
        is_sound(spending_undone(step, spend, n).ledger.diff),
        is_net(step.ledger.diff, leaf, came, went) ==> is_net(
            spending_undone(step, spend, n).ledger.diff,
            leaf,
            came + times_in(spend, leaf, n),
            went,
        ),
    decreases n,
{
    if n > 0 && step.error is None {
        let (outpoint, output) = spend[n - 1];
        if step.ledger.stxos.contains_key(outpoint) {
            let next = LedgerStep {
                ledger: Ledger {
                    stxos: step.ledger.stxos.remove(outpoint),
                    utxos: step.ledger.utxos.insert(outpoint, output),
                    diff: step.ledger.diff.insert(output.leaf),
                },
                error: None,
            };
            let so_far = came + if output.leaf == leaf {
                1nat
            } else {
                0nat
            };
            stays_sound(step.ledger.diff, output.leaf);
            if is_net(step.ledger.diff, leaf, came, went) {
                one_more_came(step.ledger.diff, output.leaf, leaf, came, went);
            }
            unspent_leaves_come(next, spend, (n - 1) as nat, leaf, so_far, went);
        }
    }
}

// Deposits.
/// A deposit makes its output unspent, under the outpoint of its mainchain
/// transaction, and its leaf comes; the block is noted as one with a deposit. Nothing
/// else changes.
pub proof fn deposits_are_paid_out(run: Run, height: u32, hash: MainBlockHash, deposit: DepositView)
    ensures
        ({
            let k = OutPoint::Deposit { main_txid: deposit.txid, vout: deposit.vout };
            let done = event_connected(run, height, hash, BlockEventView::Deposit(deposit));
            &&& done.state == (StateView {
                utxos: run.state.utxos.insert(k, deposit.output),
                ..run.state
            })
            &&& done.diff == run.diff.insert(deposit.output.leaf)
            &&& done.deposit_block == Some(hash)
            &&& done.bundle_event_block == run.bundle_event_block
            &&& done.fault == run.fault
        }),
{
}

/// A deposit that is taken back has to be unspent; it is not then, and its leaf goes.
/// Nothing else changes.
pub proof fn deposits_are_taken_back(
    run: Run,
    height: u32,
    hash: MainBlockHash,
    deposit: DepositView,
)
    requires
        run.fault is None,
    ensures
        ({
            let k = OutPoint::Deposit { main_txid: deposit.txid, vout: deposit.vout };
            let done = event_undone(run, height, hash, BlockEventView::Deposit(deposit));
            if run.state.utxos.contains_key(k) {
                &&& done.state == (StateView { utxos: run.state.utxos.remove(k), ..run.state })
                &&& done.diff == run.diff.remove(deposit.output.leaf)
                &&& done.deposit_block == Some(hash)
                &&& done.bundle_event_block == run.bundle_event_block
                &&& done.fault is None
            } else {
                &&& done.fault == Some(Fault::Error(Error::NoUtxo { outpoint: k }))
                &&& done.state == run.state
                &&& done.diff == run.diff
            }
        }),
{
}

// Bundles.
/// This bundle is the one that waits to be submitted.
pub open spec fn is_pending(s: StateView, m6id: M6id) -> bool {
    s.pending_withdrawal_bundle matches Some((bundle, _)) && bundle.m6id == m6id
}

/// That a bundle was submitted. If it is the pending one, it was made at the block
/// before; what it spends is then spent by it, its leaves go, it is not pending any
/// more, and it is known as submitted at this height. If it is neither pending nor
/// known, it is noted as unknown, submitted at this height. If it is known,
/// submitted first, nothing changes.
pub proof fn submitted_bundles_spend(s: StateView, diff: DiffView, height: u32, m6id: M6id)
    ensures
        ({
            let done = submitted(s, diff, height, m6id);
            let after = done.state;
            let noted = seq![HeightStamped { value: WithdrawalBundleStatus::Submitted, height }];
            if is_pending(s, m6id) {
                let (bundle, made_at) = s.pending_withdrawal_bundle->0;
                if made_at + 1 == height {
                    &&& done.fault is None
                    &&& are_spent(s, after, bundle.spend_utxos, m6id)
                    &&& leaves_went(diff, done.diff, bundle.spend_utxos)
                    &&& after.pending_withdrawal_bundle is None
                    &&& after.withdrawal_bundles == s.withdrawal_bundles.insert(
                        m6id,
                        (WithdrawalBundleInfoView::Known(bundle), noted),
                    )
                    &&& after.latest_failed_withdrawal_bundle == s.latest_failed_withdrawal_bundle
                    &&& only_bundles_change(s, after)
                } else {
                    &&& done.fault == Some(Fault::Halt(Halt::PendingBundleHeight))
                    &&& after == s
                    &&& done.diff == diff
                }
            } else if s.withdrawal_bundles.contains_key(m6id) {
                &&& after == s
                &&& done.diff == diff
                &&& done.fault is None <==> s.withdrawal_bundles[m6id].1[0].value
                    == WithdrawalBundleStatus::Submitted
                &&& done.fault is Some ==> done.fault == Some(Fault::Halt(Halt::BundleStatus))
            } else {
                &&& done.fault is None
                &&& done.diff == diff
                &&& after == (StateView {
                    withdrawal_bundles: s.withdrawal_bundles.insert(
                        m6id,
                        (WithdrawalBundleInfoView::Unknown, noted),
                    ),
                    ..s
                })
            }
        }),
{
    if is_pending(s, m6id) {
        let (bundle, made_at) = s.pending_withdrawal_bundle->0;
        let spend = bundle.spend_utxos;
        let start = Ledger::of(s, diff);
        let after = submitted(s, diff, height, m6id).state;
        if made_at + 1 == height {
            assert(spend.take(spend.len() as int) =~= spend);
            assert forall|k: OutPoint|
                #![trigger after.utxos.contains_key(k)]
                #![trigger after.stxos.contains_key(k)]
                if has_point(spend, k) {
                    &&& !after.utxos.contains_key(k)
                    &&& after.stxos.contains_key(k)
                    &&& has_output(spend, k, after.stxos[k].output)
                    &&& after.stxos[k].inpoint == (InPoint::Withdrawal { m6id })
                } else {
                    same_at(s, after, k)
                } by {
                spent_at_point(start, m6id, spend, spend.len(), k);
            }
            if is_sound(diff) {
                spent_leaves_go(start, m6id, spend, spend.len(), arbitrary(), 0, 0);
                assert forall|leaf: Hash256, came: nat, went: nat| #[trigger]
                    is_net(diff, leaf, came, went) implies is_net(
                    submitted(s, diff, height, m6id).diff,
                    leaf,
                    came,
                    went + times_in(spend, leaf, spend.len()),
                ) by {
                    spent_leaves_go(start, m6id, spend, spend.len(), leaf, came, went);
                }
            }
        }
    }
}

/// A status that a bundle has got last.
pub open spec fn latest(s: StateView, m6id: M6id) -> HeightStamped<WithdrawalBundleStatus> {
    let status = s.withdrawal_bundles[m6id].1;
    status[status.len() - 1]
}

/// That a bundle was confirmed. It has to be known, and submitted, or confirmed
/// before, when nothing changes. One that was made here is noted as confirmed, and
/// nothing else changes. One that was not made here is accepted at height 0 alone:
/// all that is unspent is then spent by it, and this is noted with it.
pub proof fn confirmed_bundles_are_noted(
    s: StateView,
    diff: DiffView,
    height: u32,
    hash: MainBlockHash,
    m6id: M6id,
)
    requires
        s.utxos.dom().finite(),
    ensures
        ({
            let done = confirmed(s, diff, height, hash, m6id);
            let after = done.state;
            let (info, status) = s.withdrawal_bundles[m6id];
            let was = latest(s, m6id);
            let noted = status.push(
                HeightStamped { value: WithdrawalBundleStatus::Confirmed, height },
            );
            let unchanged = after == s && done.diff == diff;
            if !s.withdrawal_bundles.contains_key(m6id) {
                done.fault == Some(Fault::Error(Error::UnknownWithdrawalBundle { m6id }))
                    && unchanged
            } else if was.value == WithdrawalBundleStatus::Confirmed {
                done.fault is None && unchanged
            } else if was.value == WithdrawalBundleStatus::Failed {
                done.fault == Some(Fault::Halt(Halt::BundleStatus)) && unchanged
            } else if !(info is Known) && height != 0 {
                done.fault == Some(
                    Fault::Error(
                        Error::UnknownWithdrawalBundleConfirmed { event_block_hash: hash, m6id },
                    ),
                ) && unchanged
            } else if height < was.height {
                done.fault == Some(Fault::Halt(Halt::BundleStatusOrder))
            } else if info is Known {
                &&& done.fault is None
                &&& done.diff == diff
                &&& after == (StateView {
                    withdrawal_bundles: s.withdrawal_bundles.insert(m6id, (info, noted)),
                    ..s
                })
            } else {
                &&& done.fault is None
                &&& after.withdrawal_bundles == s.withdrawal_bundles.insert(
                    m6id,
                    (
                        WithdrawalBundleInfoView::UnknownConfirmed { spend_utxos: listed(s.utxos) },
                        noted,
                    ),
                )
                &&& after == (StateView {
                    utxos: Map::empty(),
                    stxos: after.stxos,
                    withdrawal_bundles: after.withdrawal_bundles,
                    ..s
                })
                &&& forall|k: OutPoint| #[trigger]
                    after.stxos.contains_key(k) <==> s.stxos.contains_key(k)
                        || s.utxos.contains_key(k)
                &&& forall|k: OutPoint| #[trigger]
                    s.utxos.contains_key(k) ==> after.stxos[k] == (SpentOutputView {
                        output: s.utxos[k],
                        inpoint: InPoint::Withdrawal { m6id },
                    })
                &&& forall|k: OutPoint| #[trigger]
                    s.stxos.contains_key(k) && !s.utxos.contains_key(k) ==> after.stxos[k]
                        == s.stxos[k]
                &&& leaves_went(diff, done.diff, listed(s.utxos))
            }
        }),
{
    let done = confirmed(s, diff, height, hash, m6id);
    let after = done.state;
    let spend = listed(s.utxos);
    let start = Ledger::of(s, diff);
    all_are_listed(s.utxos);
    assert(spend.take(spend.len() as int) =~= spend);
    let taken = bundle_took(start, m6id, spend, spend.len());
    assert forall|k: OutPoint| #[trigger]
        taken.stxos.contains_key(k) <==> s.stxos.contains_key(k) || s.utxos.contains_key(k) by {
        taken_at_point(start, m6id, spend, spend.len(), k);
        assert(has_point(spend, k) <==> s.utxos.contains_key(k));
    }
    assert forall|k: OutPoint| #[trigger] s.utxos.contains_key(k) implies taken.stxos[k] == (
    SpentOutputView { output: s.utxos[k], inpoint: InPoint::Withdrawal { m6id } }) by {
        taken_at_point(start, m6id, spend, spend.len(), k);
        assert(has_point(spend, k) <==> s.utxos.contains_key(k));
        let output = taken.stxos[k].output;
        let i = choose|i: int| 0 <= i < spend.len() && #[trigger] spend[i] == (k, output);
        assert(spend[i] == (k, s.utxos[k]));
    }
    assert forall|k: OutPoint| #[trigger]
        s.stxos.contains_key(k) && !s.utxos.contains_key(k) implies taken.stxos[k]
        == s.stxos[k] by {
        taken_at_point(start, m6id, spend, spend.len(), k);
        assert(has_point(spend, k) <==> s.utxos.contains_key(k));
    }
    if is_sound(diff) {
        spent_leaves_go(start, m6id, spend, spend.len(), arbitrary(), 0, 0);
        assert forall|leaf: Hash256, came: nat, went: nat| #[trigger]
            is_net(diff, leaf, came, went) implies is_net(
            taken.diff,
            leaf,
            came,
            went + times_in(spend, leaf, spend.len()),
        ) by {
            spent_leaves_go(start, m6id, spend, spend.len(), leaf, came, went);
        }
    }
}

/// All unspent outputs are listed, as they are, each once and in order.
pub proof fn all_are_listed(utxos: Map<OutPoint, OutputView>)
    requires
        utxos.dom().finite(),
    ensures
        forall|i: int|
            0 <= i < listed(utxos).len() ==> utxos.contains_key((#[trigger] listed(utxos)[i]).0)
                && listed(utxos)[i].1 == utxos[listed(utxos)[i].0],
        forall|k: OutPoint| #[trigger] has_point(listed(utxos), k) <==> utxos.contains_key(k),
        forall|i: int, j: int|
            #![trigger listed(utxos)[i], listed(utxos)[j]]
            0 <= i < j < listed(utxos).len() ==> crate::table::Key::lt(
                listed(utxos)[i].0,
                listed(utxos)[j].0,
            ),
{
    let keys = crate::table::ordered(utxos.dom());
    let all = listed(utxos);
    crate::table::finite_is_listed(utxos.dom());
    assert forall|i: int| 0 <= i < all.len() implies utxos.contains_key((#[trigger] all[i]).0)
        && all[i].1 == utxos[all[i].0] by {
        assert(keys.contains(keys[i]));
        assert(utxos.dom().contains(keys[i]));
    }
    assert forall|k: OutPoint| #[trigger] has_point(all, k) <==> utxos.contains_key(k) by {
        if utxos.contains_key(k) {
            assert(utxos.dom().contains(k));
            assert(keys.contains(k));
            let i = choose|i: int| 0 <= i < keys.len() && keys[i] == k;
            assert(all[i].0 == k);
        }
    }
}

/// That a bundle failed. It has to be known, and submitted, or failed before, when
/// nothing changes. It is noted as failed. If it was made here, what it spent is
/// given back, its leaves come, and it is noted as the one that failed last.
pub proof fn failed_bundles_give_back(s: StateView, diff: DiffView, height: u32, m6id: M6id)
    ensures
        ({
            let done = failed(s, diff, height, m6id);
            let after = done.state;
            let (info, status) = s.withdrawal_bundles[m6id];
            let was = latest(s, m6id);
            let noted = s.withdrawal_bundles.insert(
                m6id,
                (info, status.push(HeightStamped { value: WithdrawalBundleStatus::Failed, height })),
            );
            let last = HeightStamped { value: m6id, height };
            let unchanged = after == s && done.diff == diff;
            if !s.withdrawal_bundles.contains_key(m6id) {
                done.fault == Some(Fault::Error(Error::UnknownWithdrawalBundle { m6id }))
                    && unchanged
            } else if was.value == WithdrawalBundleStatus::Failed {
                done.fault is None && unchanged
            } else if was.value == WithdrawalBundleStatus::Confirmed {
                done.fault == Some(Fault::Halt(Halt::BundleStatus)) && unchanged
            } else if height < was.height {
                done.fault == Some(Fault::Halt(Halt::BundleStatusOrder)) && unchanged
            } else if info is Known {
                let spend = info->Known_0.spend_utxos;
                let list = s.latest_failed_withdrawal_bundle;
                &&& are_given_back(s, after, spend)
                &&& leaves_came(diff, done.diff, spend)
                &&& only_bundles_change(s, after)
                &&& after.pending_withdrawal_bundle == s.pending_withdrawal_bundle
                &&& if list is Some && height < list->0[list->0.len() - 1].height {
                    done.fault == Some(Fault::Halt(Halt::FailureOrder))
                } else {
                    &&& done.fault is None
                    &&& after.withdrawal_bundles == noted
                    &&& after.latest_failed_withdrawal_bundle == Some(
                        match list {
                            Some(list) => list.push(last),
                            None => seq![last],
                        },
                    )
                }
            } else {
                &&& done.fault is None
                &&& done.diff == diff
                &&& after == (StateView { withdrawal_bundles: noted, ..s })
            }
        }),
{
    let done = failed(s, diff, height, m6id);
    let after = done.state;
    let (info, status) = s.withdrawal_bundles[m6id];
    if s.withdrawal_bundles.contains_key(m6id) && info is Known && latest(s, m6id).value
        == WithdrawalBundleStatus::Submitted && height >= latest(s, m6id).height {
        let spend = info->Known_0.spend_utxos;
        let start = Ledger::of(s, diff);
        assert(spend.take(spend.len() as int) =~= spend);
        assert forall|k: OutPoint|
            #![trigger after.utxos.contains_key(k)]
            #![trigger after.stxos.contains_key(k)]
            if has_point(spend, k) {
                &&& after.utxos.contains_key(k)
                &&& has_output(spend, k, after.utxos[k])
                &&& !after.stxos.contains_key(k)
            } else {
                same_at(s, after, k)
            } by {
            returned_at_point(start, spend, spend.len(), k);
        }
        if is_sound(diff) {
            returned_leaves_come(start, spend, spend.len(), arbitrary(), 0, 0);
            assert forall|leaf: Hash256, came: nat, went: nat| #[trigger]
                is_net(diff, leaf, came, went) implies is_net(
                done.diff,
                leaf,
                came + times_in(spend, leaf, spend.len()),
                went,
            ) by {
                returned_leaves_come(start, spend, spend.len(), leaf, came, went);
            }
        }
    }
}

/// That a bundle was submitted at this height is taken back. It has to be known, and
/// submitted at this height; it is not known then. If it was made here, what it spent
/// is unspent again, its leaves come, and it is pending again, made at the block
/// before. One that is pending already stays so.
pub proof fn submissions_are_taken_back(s: StateView, diff: DiffView, height: u32, m6id: M6id)
    ensures
        ({
            let done = submitted_undone(s, diff, height, m6id);
            let after = done.state;
            let (info, _) = s.withdrawal_bundles[m6id];
            let was = latest(s, m6id);
            let unchanged = after == s && done.diff == diff;
            if !s.withdrawal_bundles.contains_key(m6id) {
                &&& unchanged
                &&& is_pending(s, m6id) ==> done.fault is None
                &&& !is_pending(s, m6id) ==> done.fault == Some(
                    Fault::Error(Error::UnknownWithdrawalBundle { m6id }),
                )
            } else if was.value != WithdrawalBundleStatus::Submitted {
                done.fault == Some(Fault::Halt(Halt::BundleStatus)) && unchanged
            } else if was.height != height {
                done.fault == Some(Fault::Halt(Halt::BundleStatusHeight)) && unchanged
            } else if info is Known {
                let bundle = info->Known_0;
                &&& only_bundles_change(s, after)
                &&& done.fault is None ==> {
                    &&& height > 0
                    &&& are_given_back(s, after, bundle.spend_utxos)
                    &&& leaves_came(diff, done.diff, bundle.spend_utxos)
                    &&& after.pending_withdrawal_bundle == Some((bundle, (height - 1) as u32))
                    &&& after.withdrawal_bundles == s.withdrawal_bundles.remove(m6id)
                    &&& after.latest_failed_withdrawal_bundle == s.latest_failed_withdrawal_bundle
                }
                &&& bundle.spend_utxos.len() > 0 && !s.stxos.contains_key(
                    bundle.spend_utxos[bundle.spend_utxos.len() - 1].0,
                ) ==> done.fault == Some(
                    Fault::Error(
                        Error::NoStxo {
                            outpoint: bundle.spend_utxos[bundle.spend_utxos.len() - 1].0,
                        },
                    ),
                )
            } else {
                &&& done.fault is None
                &&& done.diff == diff
                &&& after == (StateView {
                    withdrawal_bundles: s.withdrawal_bundles.remove(m6id),
                    ..s
                })
            }
        }),
{
    let done = submitted_undone(s, diff, height, m6id);
    let after = done.state;
    let (info, _) = s.withdrawal_bundles[m6id];
    if s.withdrawal_bundles.contains_key(m6id) && info is Known && done.fault is None && latest(
        s,
        m6id,
    ).value == WithdrawalBundleStatus::Submitted && latest(s, m6id).height == height {
        let spend = info->Known_0.spend_utxos;
        let start = LedgerStep::start(Ledger::of(s, diff));
        assert(spend.take(spend.len() as int) =~= spend);
        assert forall|k: OutPoint|
            #![trigger after.utxos.contains_key(k)]
            #![trigger after.stxos.contains_key(k)]
            if has_point(spend, k) {
                &&& after.utxos.contains_key(k)
                &&& has_output(spend, k, after.utxos[k])
                &&& !after.stxos.contains_key(k)
            } else {
                same_at(s, after, k)
            } by {
            unspent_at_point(start, spend, spend.len(), k);
        }
        if is_sound(diff) {
            unspent_leaves_come(start, spend, spend.len(), arbitrary(), 0, 0);
            assert forall|leaf: Hash256, came: nat, went: nat| #[trigger]
                is_net(diff, leaf, came, went) implies is_net(
                done.diff,
                leaf,
                came + times_in(spend, leaf, spend.len()),
                went,
            ) by {
                unspent_leaves_come(start, spend, spend.len(), leaf, came, went);
            }
        }
    }
}

/// A status list without the last.
pub open spec fn taken_off(
    s: StateView,
    m6id: M6id,
) -> Seq<HeightStamped<WithdrawalBundleStatus>> {
    let status = s.withdrawal_bundles[m6id].1;
    status.subrange(0, status.len() - 1)
}

/// The status of a bundle before the last was that it was submitted.
pub open spec fn was_submitted(s: StateView, m6id: M6id) -> bool {
    let status = s.withdrawal_bundles[m6id].1;
    status.len() > 1 && status[status.len() - 2].value == WithdrawalBundleStatus::Submitted
}

/// That a bundle was confirmed at this height is taken back. It has to be known, and
/// confirmed at this height, submitted before; the confirmation is taken off. If it
/// was not made here, all that it took is unspent again, its leaves come, and it is
/// unknown as before. One that is not confirmed, but submitted, stays so.
pub proof fn confirmations_are_taken_back(s: StateView, diff: DiffView, height: u32, m6id: M6id)
    requires
        s.withdrawal_bundles.contains_key(m6id) ==> s.withdrawal_bundles[m6id].1.len() > 0,
    ensures
        ({
            let done = confirmed_undone(s, diff, height, m6id);
            let after = done.state;
            let (info, _) = s.withdrawal_bundles[m6id];
            let was = latest(s, m6id);
            let rest = taken_off(s, m6id);
            let unchanged = after == s && done.diff == diff;
            if !s.withdrawal_bundles.contains_key(m6id) {
                done.fault == Some(Fault::Error(Error::UnknownWithdrawalBundle { m6id }))
                    && unchanged
            } else if was.value == WithdrawalBundleStatus::Submitted {
                done.fault is None && unchanged
            } else if was.value == WithdrawalBundleStatus::Failed {
                done.fault == Some(Fault::Halt(Halt::BundleStatus)) && unchanged
            } else if was.height != height {
                done.fault == Some(Fault::Halt(Halt::BundleStatusHeight)) && unchanged
            } else if !was_submitted(s, m6id) {
                done.fault == Some(Fault::Halt(Halt::BundleStatus)) && unchanged
            } else if info is UnknownConfirmed {
                let spend = info->spend_utxos;
                &&& only_bundles_change(s, after)
                &&& done.fault is None ==> {
                    &&& are_given_back(s, after, spend)
                    &&& leaves_came(diff, done.diff, spend)
                    &&& after.withdrawal_bundles == s.withdrawal_bundles.insert(
                        m6id,
                        (WithdrawalBundleInfoView::Unknown, rest),
                    )
                    &&& after.pending_withdrawal_bundle == s.pending_withdrawal_bundle
                    &&& after.latest_failed_withdrawal_bundle == s.latest_failed_withdrawal_bundle
                }
            } else {
                &&& done.fault is None
                &&& done.diff == diff
                &&& after == (StateView {
                    withdrawal_bundles: s.withdrawal_bundles.insert(m6id, (info, rest)),
                    ..s
                })
            }
        }),
{
    let done = confirmed_undone(s, diff, height, m6id);
    let after = done.state;
    let (info, status) = s.withdrawal_bundles[m6id];
    assert(status.drop_last() =~= taken_off(s, m6id));
    if s.withdrawal_bundles.contains_key(m6id) && info is UnknownConfirmed && done.fault is None
        && latest(s, m6id).value == WithdrawalBundleStatus::Confirmed {
        let spend = info->spend_utxos;
        let start = Ledger::of(s, diff);
        assert(spend.take(spend.len() as int) =~= spend);
        assert forall|k: OutPoint|
            #![trigger after.utxos.contains_key(k)]
            #![trigger after.stxos.contains_key(k)]
            if has_point(spend, k) {
                &&& after.utxos.contains_key(k)
                &&& has_output(spend, k, after.utxos[k])
                &&& !after.stxos.contains_key(k)
            } else {
                same_at(s, after, k)
            } by {
            untaken_at_point(start, spend, spend.len(), k);
        }
        if is_sound(diff) {
            returned_leaves_come(start, spend, spend.len(), arbitrary(), 0, 0);
            assert forall|leaf: Hash256, came: nat, went: nat| #[trigger]
                is_net(diff, leaf, came, went) implies is_net(
                done.diff,
                leaf,
                came + times_in(spend, leaf, spend.len()),
                went,
            ) by {
                returned_leaves_come(start, spend, spend.len(), leaf, came, went);
            }
        }
    }
}

/// What taking back a failure spends again, seen at one outpoint.
proof fn respent_at_point(
    step: LedgerStep,
    m6id: M6id,
    spend: Seq<(OutPoint, OutputView)>,
    n: nat,
    k: OutPoint,
)
    requires
        n <= spend.len(),
        returning_undone(step, m6id, spend, n).error is None,
    ensures
        ({
            let ledger = step.ledger;
            let after = returning_undone(step, m6id, spend, n).ledger;
            &&& step.error is None
            &&& has_point(spend.take(n as int), k) ==> {
                &&& !after.utxos.contains_key(k)
                &&& after.stxos.contains_key(k)
                &&& has_output(spend.take(n as int), k, after.stxos[k].output)
                &&& after.stxos[k].inpoint == (InPoint::Withdrawal { m6id })
            }
            &&& !has_point(spend.take(n as int), k) ==> {
                &&& after.utxos.contains_key(k) <==> ledger.utxos.contains_key(k)
                &&& after.utxos.contains_key(k) ==> after.utxos[k] == ledger.utxos[k]
                &&& after.stxos.contains_key(k) <==> ledger.stxos.contains_key(k)
                &&& after.stxos.contains_key(k) ==> after.stxos[k] == ledger.stxos[k]
            }
        }),
    decreases n,
{
    reveal_with_fuel(returning_undone, 2);
    if n > 0 && step.error is None {
        let (outpoint, output) = spend[n - 1];
        if !step.ledger.utxos.contains_key(outpoint) {
            let next = LedgerStep::start(
                Ledger {
                    stxos: step.ledger.stxos.insert(
                        outpoint,
                        SpentOutputView { output, inpoint: InPoint::Withdrawal { m6id } },
                    ),
                    utxos: step.ledger.utxos.remove(outpoint),
                    diff: step.ledger.diff.remove(output.leaf),
                },
            );
            respent_at_point(next, m6id, spend, (n - 1) as nat, k);
            point_of_more(spend, n, k);
        }
    }
}

/// The leaves that taking back a failure spends again go.
proof fn respent_leaves_go(
    step: LedgerStep,
    m6id: M6id,
    spend: Seq<(OutPoint, OutputView)>,
    n: nat,
    leaf: Hash256,
    came: nat,
    went: nat,
)
    requires
        is_sound(step.ledger.diff),
        returning_undone(step, m6id, spend, n).error is None,
    ensures
        is_sound(returning_undone(step, m6id, spend, n).ledger.diff),
        is_net(step.ledger.diff, leaf, came, went) ==> is_net(
            returning_undone(step, m6id, spend, n).ledger.diff,
            leaf,
            came,
            went + times_in(spend, leaf, n),
        ),
    decreases n,
{
    reveal_with_fuel(returning_undone, 2);
    if n > 0 && step.error is None {
        let (outpoint, output) = spend[n - 1];
        if !step.ledger.utxos.contains_key(outpoint) {
            let next = LedgerStep::start(
                Ledger {
                    stxos: step.ledger.stxos.insert(
                        outpoint,
                        SpentOutputView { output, inpoint: InPoint::Withdrawal { m6id } },
                    ),
                    utxos: step.ledger.utxos.remove(outpoint),
                    diff: step.ledger.diff.remove(output.leaf),
                },
            );
            let so_far = went + if output.leaf == leaf {
                1nat
            } else {
                0nat
            };
            stays_sound(step.ledger.diff, output.leaf);
            if is_net(step.ledger.diff, leaf, came, went) {
                one_more_went(step.ledger.diff, output.leaf, leaf, came, went);
            }
            respent_leaves_go(next, m6id, spend, (n - 1) as nat, leaf, came, so_far);
        }
    }
}

/// That a bundle failed at this height is taken back. It has to be known, and failed
/// at this height, submitted before. If it was made here and the last output that it
/// gave back is unspent, this is reported as if that output were missing. Where none
/// is, what it spent is spent again, and its leaves go; it has to be the one that
/// failed last, and is not then. The failure is taken off. One that has not failed,
/// but was submitted, stays so.
pub proof fn failures_are_taken_back(s: StateView, diff: DiffView, height: u32, m6id: M6id)
    requires
        s.withdrawal_bundles.contains_key(m6id) ==> s.withdrawal_bundles[m6id].1.len() > 0,
        s.latest_failed_withdrawal_bundle is Some
            ==> s.latest_failed_withdrawal_bundle->0.len() > 0,
    ensures
        ({
            let done = failed_undone(s, diff, height, m6id);
            let after = done.state;
            let (info, _) = s.withdrawal_bundles[m6id];
            let was = latest(s, m6id);
            let noted = s.withdrawal_bundles.insert(m6id, (info, taken_off(s, m6id)));
            let unchanged = after == s && done.diff == diff;
            if !s.withdrawal_bundles.contains_key(m6id) {
                done.fault == Some(Fault::Error(Error::UnknownWithdrawalBundle { m6id }))
                    && unchanged
            } else if was.value == WithdrawalBundleStatus::Submitted {
                done.fault is None && unchanged
            } else if was.value == WithdrawalBundleStatus::Confirmed {
                done.fault == Some(Fault::Halt(Halt::BundleStatus)) && unchanged
            } else if was.height != height {
                done.fault == Some(Fault::Halt(Halt::BundleStatusHeight)) && unchanged
            } else if !was_submitted(s, m6id) {
                done.fault == Some(Fault::Halt(Halt::BundleStatus)) && unchanged
            } else if info is Known {
                let spend = info->Known_0.spend_utxos;
                let list = s.latest_failed_withdrawal_bundle;
                let n = spend.len();
                &&& n > 0 && s.utxos.contains_key(spend[n - 1].0) ==> {
                    &&& done.fault == Some(
                        Fault::Error(Error::NoUtxo { outpoint: spend[n - 1].0 }),
                    )
                    &&& !after.utxos.contains_key(spend[n - 1].0)
                }
                &&& done.fault is None ==> {
                    &&& list is Some && list->0[list->0.len() - 1] == (HeightStamped {
                        value: m6id,
                        height,
                    })
                    &&& are_spent(s, after, spend, m6id)
                    &&& leaves_went(diff, done.diff, spend)
                    &&& only_bundles_change(s, after)
                    &&& after.pending_withdrawal_bundle == s.pending_withdrawal_bundle
                    &&& after.withdrawal_bundles == noted
                    &&& after.latest_failed_withdrawal_bundle == if list->0.len() == 1 {
                        None
                    } else {
                        Some(list->0.subrange(0, list->0.len() - 1))
                    }
                }
                &&& n == 0 ==> if list is Some && list->0[list->0.len() - 1] == (HeightStamped {
                    value: m6id,
                    height,
                }) {
                    done.fault is None
                } else {
                    done.fault == Some(Fault::Halt(Halt::LatestFailure))
                }
            } else {
                &&& done.fault is None
                &&& done.diff == diff
                &&& after == (StateView { withdrawal_bundles: noted, ..s })
            }
        }),
{
    reveal_with_fuel(returning_undone, 2);
    let done = failed_undone(s, diff, height, m6id);
    let after = done.state;
    let (info, status) = s.withdrawal_bundles[m6id];
    assert(status.drop_last() =~= taken_off(s, m6id));
    if s.withdrawal_bundles.contains_key(m6id) && info is Known && done.fault is None && latest(
        s,
        m6id,
    ).value == WithdrawalBundleStatus::Failed {
        let spend = info->Known_0.spend_utxos;
        let start = LedgerStep::start(Ledger::of(s, diff));
        assert(spend.take(spend.len() as int) =~= spend);
        assert forall|k: OutPoint|
            #![trigger after.utxos.contains_key(k)]
            #![trigger after.stxos.contains_key(k)]
            if has_point(spend, k) {
                &&& !after.utxos.contains_key(k)
                &&& after.stxos.contains_key(k)
                &&& has_output(spend, k, after.stxos[k].output)
                &&& after.stxos[k].inpoint == (InPoint::Withdrawal { m6id })
            } else {
                same_at(s, after, k)
            } by {
            respent_at_point(start, m6id, spend, spend.len(), k);
        }
        if is_sound(diff) {
            respent_leaves_go(start, m6id, spend, spend.len(), arbitrary(), 0, 0);
            assert forall|leaf: Hash256, came: nat, went: nat| #[trigger]
                is_net(diff, leaf, came, went) implies is_net(
                done.diff,
                leaf,
                came,
                went + times_in(spend, leaf, spend.len()),
            ) by {
                respent_leaves_go(start, m6id, spend, spend.len(), leaf, came, went);
            }
        }
    }
    if let Some(list) = s.latest_failed_withdrawal_bundle {
        assert(list.drop_last() =~= list.subrange(0, list.len() - 1));
    }
}

} // verus!
