//! What holds of connecting and disconnecting the events of mainchain blocks.
use vstd::prelude::*;

use crate::accumulator::DiffView;
use crate::coinshift::{all_swaps, swaps_processed, L1MatchView};
use crate::error::{Error, Fault, Rejection};
use crate::ids::{BlockHash, Hash256, M6id, MainBlockHash, SwapId};
use crate::mainchain::{BlockEventView, DepositView, WithdrawalBundleEvent};
use crate::peg_model::{
    awaits, blocks_connected, blocks_undone, bundle_event_connected, bundle_event_undone,
    bundle_returned, bundle_spent, bundle_took, confirmed, confirmed_undone, deposit_outpoint,
    event_connected, event_undone, events_connected, events_run, events_undone, failed,
    failed_undone, last_block, listed, peg_connected, peg_disconnected, run_noted, spending_undone,
    submitted, submitted_undone, taking_undone, Ledger, LedgerStep, Run,
};
use crate::state::StateView;
use crate::swap::SwapView;
use crate::table::{finite_is_listed, ordered, Key};
use crate::types::{OutPoint, OutputView};
use crate::withdrawal::{WithdrawalBundleInfoView, WithdrawalBundleStatus};

verus! {

/// The first place that a leaf stands at is the one that it is taken off from.
proof fn first_is_removed(list: Seq<Hash256>, leaf: Hash256, at: int)
    requires
        0 <= at < list.len(),
        list[at] == leaf,
        forall|j: int| 0 <= j < at ==> list[j] != leaf,
    ensures
        list.contains(leaf),
        list.remove_value(leaf) == list.remove(at),
{
    list.index_of_first_ensures(leaf);
    assert(list.index_of_first(leaf)->0 == at);
}

/// A leaf that was put at the end of a list is the one that is taken off again.
proof fn push_then_remove(list: Seq<Hash256>, leaf: Hash256)
    requires
        !list.contains(leaf),
    ensures
        list.push(leaf).contains(leaf),
        list.push(leaf).remove_value(leaf) == list,
{
    let longer = list.push(leaf);
    first_is_removed(longer, leaf, list.len() as int);
    assert(longer.remove(list.len() as int) =~= list);
}

/// Adding a leaf and taking it out again, or the other way round, changes
/// nothing, where the change did not touch the leaf before.
pub proof fn opposite_changes_cancel(diff: DiffView, leaf: Hash256)
    requires
        !diff.insertions.contains(leaf),
        !diff.deletions.contains(leaf),
    ensures
        diff.insert(leaf).remove(leaf) == diff,
        diff.remove(leaf).insert(leaf) == diff,
{
    push_then_remove(diff.insertions, leaf);
    push_then_remove(diff.deletions, leaf);
}

/// A deposit that is connected and then disconnected leaves the outputs and the
/// change to the accumulator as they were, where its outpoint and its leaf are
/// new.
pub proof fn deposits_can_be_taken_back(
    run: Run,
    height: u32,
    hash: MainBlockHash,
    deposit: DepositView,
)
    requires
        run.fault is None,
        !run.state.utxos.contains_key(deposit_outpoint(deposit)),
        !run.diff.insertions.contains(deposit.output.leaf),
        !run.diff.deletions.contains(deposit.output.leaf),
    ensures
        ({
            let event = BlockEventView::Deposit(deposit);
            let back = event_undone(
                event_connected(run, height, hash, event),
                height,
                hash,
                event,
            );
            &&& back.fault is None
            &&& back.state == run.state
            &&& back.diff == run.diff
        }),
{
    opposite_changes_cancel(run.diff, deposit.output.leaf);
    let point = deposit_outpoint(deposit);
    assert(run.state.utxos.insert(point, deposit.output).remove(point) =~= run.state.utxos);
}

/// What happened to a bundle is connected once: connecting it again changes
/// nothing.
pub proof fn bundle_events_connect_once(
    s: StateView,
    diff: DiffView,
    height: u32,
    hash: MainBlockHash,
    event: WithdrawalBundleEvent,
)
    requires
        bundle_event_connected(s, diff, height, hash, event).fault is None,
    ensures
        ({
            let once = bundle_event_connected(s, diff, height, hash, event);
            bundle_event_connected(once.state, once.diff, height, hash, event) == once
        }),
{
}

/// The outputs that a bundle spends are those that are there, and each is there
/// once.
pub open spec fn spends_what_is_there(s: StateView, spend: Seq<(OutPoint, OutputView)>) -> bool {
    &&& forall|i: int|
        0 <= i < spend.len() ==> s.utxos.contains_key((#[trigger] spend[i]).0)
            && s.utxos[spend[i].0] == spend[i].1 && !s.stxos.contains_key(spend[i].0)
    &&& forall|i: int, j: int|
        #![trigger spend[i], spend[j]]
        0 <= i < j < spend.len() ==> spend[i].0 != spend[j].0
}

/// Where nothing was done to an outpoint yet, what a bundle spends of other
/// outputs does nothing to it.
proof fn spending_leaves_others(
    ledger: Ledger,
    m6id: M6id,
    spend: Seq<(OutPoint, OutputView)>,
    n: nat,
    k: OutPoint,
)
    requires
        n <= spend.len(),
        forall|i: int| 0 <= i < n ==> (#[trigger] spend[i]).0 != k,
    ensures
        ({
            let after = bundle_spent(ledger, m6id, spend, n);
            &&& after.utxos.contains_key(k) == ledger.utxos.contains_key(k)
            &&& after.stxos.contains_key(k) == ledger.stxos.contains_key(k)
            &&& ledger.utxos.contains_key(k) ==> after.utxos[k] == ledger.utxos[k]
        }),
    decreases n,
{
    if n > 0 {
        assert(spend[n - 1].0 != k);
        spending_leaves_others(ledger, m6id, spend, (n - 1) as nat, k);
    }
}

/// Giving back what a bundle just spent brings back what was there.
proof fn spending_taken_back(
    s: StateView,
    start: Ledger,
    step: LedgerStep,
    m6id: M6id,
    spend: Seq<(OutPoint, OutputView)>,
    n: nat,
)
    requires
        n <= spend.len(),
        spends_what_is_there(s, spend),
        start.utxos == s.utxos,
        start.stxos == s.stxos,
        step.error is None,
        step.ledger.utxos == bundle_spent(start, m6id, spend, n).utxos,
        step.ledger.stxos == bundle_spent(start, m6id, spend, n).stxos,
    ensures
        ({
            let back = spending_undone(step, spend, n);
            &&& back.error is None
            &&& back.ledger.utxos == s.utxos
            &&& back.ledger.stxos == s.stxos
        }),
    decreases n,
{
    if n > 0 {
        let before = bundle_spent(start, m6id, spend, (n - 1) as nat);
        let (point, output) = spend[n - 1];
        assert forall|i: int| 0 <= i < n - 1 implies (#[trigger] spend[i]).0 != point by {
            assert(spend[i].0 != spend[n - 1].0);
        }
        spending_leaves_others(start, m6id, spend, (n - 1) as nat, point);
        assert(s.utxos.contains_key(spend[n - 1].0));
        assert(step.ledger.stxos.remove(point) =~= before.stxos);
        assert(step.ledger.utxos.insert(point, output) =~= before.utxos);
        let next = LedgerStep {
            ledger: Ledger {
                stxos: before.stxos,
                utxos: before.utxos,
                diff: step.ledger.diff.insert(output.leaf),
            },
            error: None,
        };
        spending_taken_back(s, start, next, m6id, spend, (n - 1) as nat);
    }
}

/// A change did not touch the leaves of these outputs, which are all different.
pub open spec fn leaves_are_new(diff: DiffView, spend: Seq<(OutPoint, OutputView)>) -> bool {
    &&& forall|i: int|
        0 <= i < spend.len() ==> !diff.insertions.contains((#[trigger] spend[i]).1.leaf)
            && !diff.deletions.contains(spend[i].1.leaf)
    &&& forall|i: int, j: int|
        #![trigger spend[i], spend[j]]
        0 <= i < j < spend.len() ==> spend[i].1.leaf != spend[j].1.leaf
}

/// The change with the leaves of the outputs in places `from` to `to` taken out.
spec fn with_gone(
    diff: DiffView,
    spend: Seq<(OutPoint, OutputView)>,
    from: int,
    to: int,
) -> DiffView {
    DiffView {
        deletions: diff.deletions + Seq::new(
            (to - from) as nat,
            |i: int| spend[from + i].1.leaf,
        ),
        ..diff
    }
}

/// Taking out one more leaf.
proof fn one_more_gone(diff: DiffView, spend: Seq<(OutPoint, OutputView)>, n: nat)
    requires
        0 < n <= spend.len(),
        leaves_are_new(diff, spend),
    ensures
        with_gone(diff, spend, 0, n - 1).remove(spend[n - 1].1.leaf) == with_gone(
            diff,
            spend,
            0,
            n as int,
        ),
        with_gone(diff, spend, 0, n as int).insert(spend[n - 1].1.leaf) == with_gone(
            diff,
            spend,
            0,
            n - 1,
        ),
{
    let before = with_gone(diff, spend, 0, n - 1);
    let leaf = spend[n - 1].1.leaf;
    assert(!before.deletions.contains(leaf)) by {
        if before.deletions.contains(leaf) {
            let i = choose|i: int| 0 <= i < before.deletions.len() && before.deletions[i] == leaf;
            if i < diff.deletions.len() {
                assert(diff.deletions[i] == leaf);
                assert(diff.deletions.contains(spend[n - 1].1.leaf));
            } else {
                let j = i - diff.deletions.len();
                assert(spend[j].1.leaf == leaf);
                assert(spend[j].1.leaf != spend[n - 1].1.leaf);
            }
        }
    }
    assert(!diff.insertions.contains(spend[n - 1].1.leaf));
    push_then_remove(before.deletions, leaf);
    assert(before.deletions.push(leaf) =~= with_gone(diff, spend, 0, n as int).deletions);
}

/// Adding the first of the leaves that are gone.
proof fn first_comes_back(diff: DiffView, spend: Seq<(OutPoint, OutputView)>, n: nat)
    requires
        0 < n <= spend.len(),
        leaves_are_new(diff, spend),
    ensures
        with_gone(diff, spend, n - 1, spend.len() as int).insert(spend[n - 1].1.leaf) == with_gone(
            diff,
            spend,
            n as int,
            spend.len() as int,
        ),
{
    let before = with_gone(diff, spend, n - 1, spend.len() as int);
    let leaf = spend[n - 1].1.leaf;
    let at = diff.deletions.len() as int;
    assert(before.deletions[at] == leaf);
    assert forall|j: int| 0 <= j < at implies before.deletions[j] != leaf by {
        assert(before.deletions[j] == diff.deletions[j]);
        assert(!diff.deletions.contains(spend[n - 1].1.leaf));
    }
    first_is_removed(before.deletions, leaf, at);
    assert(before.deletions.remove(at) =~= with_gone(
        diff,
        spend,
        n as int,
        spend.len() as int,
    ).deletions);
}

/// What a bundle spends takes its leaves out, one after the other.
proof fn spending_diff(ledger: Ledger, m6id: M6id, spend: Seq<(OutPoint, OutputView)>, n: nat)
    requires
        n <= spend.len(),
        leaves_are_new(ledger.diff, spend),
    ensures
        bundle_spent(ledger, m6id, spend, n).diff == with_gone(ledger.diff, spend, 0, n as int),
        bundle_took(ledger, m6id, spend, n).diff == with_gone(ledger.diff, spend, 0, n as int),
    decreases n,
{
    if n == 0 {
        assert(with_gone(ledger.diff, spend, 0, 0) =~= ledger.diff);
    } else {
        spending_diff(ledger, m6id, spend, (n - 1) as nat);
        one_more_gone(ledger.diff, spend, n);
    }
}

/// Giving back what a bundle spent adds its leaves again, last to first.
proof fn spending_diff_back(
    step: LedgerStep,
    diff: DiffView,
    spend: Seq<(OutPoint, OutputView)>,
    n: nat,
)
    requires
        n <= spend.len(),
        leaves_are_new(diff, spend),
        step.ledger.diff == with_gone(diff, spend, 0, n as int),
        step.error is None,
        spending_undone(step, spend, n).error is None,
    ensures
        spending_undone(step, spend, n).ledger.diff == diff,
    decreases n,
{
    if n == 0 {
        assert(with_gone(diff, spend, 0, 0) =~= diff);
    } else {
        let (outpoint, output) = spend[n - 1];
        one_more_gone(diff, spend, n);
        let next = LedgerStep {
            ledger: Ledger {
                stxos: step.ledger.stxos.remove(outpoint),
                utxos: step.ledger.utxos.insert(outpoint, output),
                diff: step.ledger.diff.insert(output.leaf),
            },
            error: None,
        };
        spending_diff_back(next, diff, spend, (n - 1) as nat);
    }
}

/// Giving back what an unknown bundle took adds its leaves again, first to last.
proof fn taking_diff_back(
    ledger: Ledger,
    diff: DiffView,
    spend: Seq<(OutPoint, OutputView)>,
    n: nat,
)
    requires
        n <= spend.len(),
        leaves_are_new(diff, spend),
        ledger.diff == with_gone(diff, spend, 0, spend.len() as int),
        taking_undone(ledger, spend, n).error is None,
    ensures
        taking_undone(ledger, spend, n).ledger.diff == with_gone(
            diff,
            spend,
            n as int,
            spend.len() as int,
        ),
    decreases n,
{
    if n > 0 {
        taking_diff_back(ledger, diff, spend, (n - 1) as nat);
        first_comes_back(diff, spend, n);
    }
}

/// That a bundle was submitted can be taken back: the state is as it was before,
/// where the bundle had not been submitted yet and, if it was made here, spends
/// what is there; and so is the change to the accumulator, where it did not touch
/// what the bundle spends.
pub proof fn submissions_can_be_taken_back(s: StateView, diff: DiffView, height: u32, m6id: M6id)
    requires
        !s.withdrawal_bundles.contains_key(m6id),
        submitted(s, diff, height, m6id).fault is None,
        s.pending_withdrawal_bundle matches Some((bundle, _)) ==> bundle.m6id == m6id
            ==> spends_what_is_there(s, bundle.spend_utxos),
    ensures
        ({
            let once = submitted(s, diff, height, m6id);
            let back = submitted_undone(once.state, once.diff, height, m6id);
            &&& back.fault is None
            &&& back.state == s
            &&& (s.pending_withdrawal_bundle matches Some((bundle, _)) ==> bundle.m6id == m6id
                ==> leaves_are_new(diff, bundle.spend_utxos)) ==> back.diff == diff
        }),
{
    let once = submitted(s, diff, height, m6id);
    let back = submitted_undone(once.state, once.diff, height, m6id);
    assert(once.state.withdrawal_bundles.remove(m6id) =~= s.withdrawal_bundles);
    if awaits(s, m6id) {
        let (bundle, made_at) = s.pending_withdrawal_bundle->0;
        let spend = bundle.spend_utxos;
        let start = Ledger::of(s, diff);
        let step = LedgerStep::start(Ledger::of(once.state, once.diff));
        spending_taken_back(s, start, step, m6id, spend, spend.len());
        assert(back.state =~= s);
        if leaves_are_new(diff, spend) {
            spending_diff(start, m6id, spend, spend.len());
            spending_diff_back(step, diff, spend, spend.len());
        }
    }
}

/// The outpoint `k` is that of one of these outputs.
pub open spec fn among(spend: Seq<(OutPoint, OutputView)>, n: nat, k: OutPoint) -> bool {
    exists|i: int| 0 <= i < n && (#[trigger] spend[i]).0 == k
}

/// What a bundle took is written down as spent, and nothing else is changed.
proof fn taking_is(ledger: Ledger, m6id: M6id, spend: Seq<(OutPoint, OutputView)>, n: nat)
    requires
        n <= spend.len(),
    ensures
        ({
            let after = bundle_took(ledger, m6id, spend, n);
            &&& after.utxos == ledger.utxos
            &&& forall|k: OutPoint| #[trigger]
                after.stxos.contains_key(k) <==> ledger.stxos.contains_key(k) || among(spend, n, k)
            &&& forall|k: OutPoint| #[trigger]
                after.stxos.contains_key(k) && !among(spend, n, k) ==> after.stxos[k]
                    == ledger.stxos[k]
        }),
    decreases n,
{
    if n > 0 {
        taking_is(ledger, m6id, spend, (n - 1) as nat);
        among_grows(spend, n);
    }
}

/// One more output is among the first ones.
proof fn among_grows(spend: Seq<(OutPoint, OutputView)>, n: nat)
    requires
        0 < n <= spend.len(),
    ensures
        forall|k: OutPoint| #[trigger]
            among(spend, n, k) <==> among(spend, (n - 1) as nat, k) || k == spend[n - 1].0,
{
    assert forall|k: OutPoint| #[trigger]
        among(spend, n, k) <==> among(spend, (n - 1) as nat, k) || k == spend[n - 1].0 by {
        if among(spend, n, k) && k != spend[n - 1].0 {
            let i = choose|i: int| 0 <= i < n && (#[trigger] spend[i]).0 == k;
            assert(spend[i].0 == k && i < n - 1);
        }
        if among(spend, (n - 1) as nat, k) {
            let i = choose|i: int| 0 <= i < n - 1 && (#[trigger] spend[i]).0 == k;
            assert(spend[i].0 == k);
        }
        assert(spend[n - 1].0 == spend[n - 1].0);
    }
}

/// Giving back what an unknown bundle took gives back these outputs, and changes
/// nothing else.
proof fn taking_undone_is(ledger: Ledger, spend: Seq<(OutPoint, OutputView)>, n: nat)
    requires
        n <= spend.len(),
        forall|i: int| 0 <= i < spend.len() ==> ledger.stxos.contains_key((#[trigger] spend[i]).0),
        forall|i: int, j: int|
            #![trigger spend[i], spend[j]]
            0 <= i < j < spend.len() ==> spend[i].0 != spend[j].0,
    ensures
        ({
            let after = taking_undone(ledger, spend, n);
            &&& after.error is None
            &&& forall|k: OutPoint| #[trigger]
                after.ledger.utxos.contains_key(k) <==> ledger.utxos.contains_key(k) || among(
                    spend,
                    n,
                    k,
                )
            &&& forall|i: int|
                0 <= i < n ==> after.ledger.utxos[(#[trigger] spend[i]).0] == spend[i].1
            &&& forall|k: OutPoint| #[trigger]
                after.ledger.stxos.contains_key(k) <==> ledger.stxos.contains_key(k) && !among(
                    spend,
                    n,
                    k,
                )
            &&& forall|k: OutPoint| #[trigger]
                after.ledger.stxos.contains_key(k) ==> after.ledger.stxos[k] == ledger.stxos[k]
        }),
    decreases n,
{
    if n > 0 {
        taking_undone_is(ledger, spend, (n - 1) as nat);
        among_grows(spend, n);
        let before = taking_undone(ledger, spend, (n - 1) as nat);
        let point = spend[n - 1].0;
        assert(!among(spend, (n - 1) as nat, point)) by {
            if among(spend, (n - 1) as nat, point) {
                let i = choose|i: int| 0 <= i < n - 1 && (#[trigger] spend[i]).0 == point;
                assert(spend[i].0 != spend[n - 1].0);
            }
        }
        assert(ledger.stxos.contains_key(spend[n - 1].0));
        assert(before.ledger.stxos.contains_key(point));
        assert forall|i: int| 0 <= i < n implies taking_undone(ledger, spend, n).ledger.utxos[(
        #[trigger] spend[i]).0] == spend[i].1 by {
            if i < n - 1 {
                assert(spend[i].0 != spend[n - 1].0);
            }
        }
    }
}

/// All outputs, listed, are those that are there.
proof fn listed_is(utxos: Map<OutPoint, OutputView>)
    requires
        utxos.dom().finite(),
    ensures
        ({
            let spend = listed(utxos);
            &&& forall|k: OutPoint| #[trigger]
                utxos.contains_key(k) <==> among(spend, spend.len(), k)
            &&& forall|i: int|
                0 <= i < spend.len() ==> utxos[(#[trigger] spend[i]).0] == spend[i].1
            &&& forall|i: int, j: int|
                #![trigger spend[i], spend[j]]
                0 <= i < j < spend.len() ==> spend[i].0 != spend[j].0
        }),
{
    let keys = ordered(utxos.dom());
    let spend = listed(utxos);
    finite_is_listed(utxos.dom());
    assert forall|k: OutPoint| #[trigger]
        utxos.contains_key(k) <==> among(spend, spend.len(), k) by {
        if utxos.contains_key(k) {
            assert(utxos.dom().contains(k));
            assert(keys.contains(k));
            let i = choose|i: int| 0 <= i < keys.len() && keys[i] == k;
            assert(spend[i].0 == k);
        }
        if among(spend, spend.len(), k) {
            let i = choose|i: int| 0 <= i < spend.len() && (#[trigger] spend[i]).0 == k;
            assert(keys[i] == k);
            assert(keys.contains(k));
        }
    }
    assert forall|i: int, j: int|
        #![trigger spend[i], spend[j]]
        0 <= i < j < spend.len() implies spend[i].0 != spend[j].0 by {
        assert(keys[i].lt(keys[j]));
        OutPoint::lt_irreflexive(keys[i]);
    }
}

/// That a bundle was confirmed can be taken back: the state is as it was before,
/// where the bundle was known or not, but not confirmed yet, and no outpoint is
/// both spent and unspent; and so is the change to the accumulator, where it did
/// not touch what is unspent.
pub proof fn confirmations_can_be_taken_back(
    s: StateView,
    diff: DiffView,
    height: u32,
    hash: MainBlockHash,
    m6id: M6id,
)
    requires
        s.utxos.dom().finite(),
        forall|k: OutPoint| #[trigger] s.utxos.contains_key(k) ==> !s.stxos.contains_key(k),
        s.withdrawal_bundles.contains_key(m6id),
        s.withdrawal_bundles[m6id].1.len() > 0,
        s.withdrawal_bundles[m6id].1.last().value == WithdrawalBundleStatus::Submitted,
        !(s.withdrawal_bundles[m6id].0 is UnknownConfirmed),
        confirmed(s, diff, height, hash, m6id).fault is None,
    ensures
        ({
            let once = confirmed(s, diff, height, hash, m6id);
            let back = confirmed_undone(once.state, once.diff, height, m6id);
            &&& back.fault is None
            &&& back.state == s
            &&& leaves_are_new(diff, listed(s.utxos)) ==> back.diff == diff
        }),
{
    let once = confirmed(s, diff, height, hash, m6id);
    let back = confirmed_undone(once.state, once.diff, height, m6id);
    let (info, status) = s.withdrawal_bundles[m6id];
    let longer = once.state.withdrawal_bundles[m6id].1;
    assert(longer.drop_last() =~= status);
    assert(longer[longer.len() - 2] == status.last());
    if info is Known {
        assert(back.state.withdrawal_bundles =~= s.withdrawal_bundles);
    } else {
        let spend = listed(s.utxos);
        let start = Ledger::of(s, diff);
        let gone = Ledger::of(once.state, once.diff);
        listed_is(s.utxos);
        taking_is(start, m6id, spend, spend.len());
        assert forall|i: int| 0 <= i < spend.len() implies gone.stxos.contains_key(
            (#[trigger] spend[i]).0,
        ) by {
            assert(among(spend, spend.len(), spend[i].0));
        }
        taking_undone_is(gone, spend, spend.len());
        let after = taking_undone(gone, spend, spend.len()).ledger;
        assert forall|k: OutPoint| s.utxos.contains_key(k) implies after.utxos[k]
            == #[trigger] s.utxos[k] by {
            assert(among(spend, spend.len(), k));
            let i = choose|i: int| 0 <= i < spend.len() && (#[trigger] spend[i]).0 == k;
            assert(after.utxos[spend[i].0] == spend[i].1);
        }
        assert(after.utxos =~= s.utxos);
        assert forall|k: OutPoint| #[trigger]
            after.stxos.contains_key(k) <==> s.stxos.contains_key(k) by {
            assert(gone.stxos.contains_key(k) <==> s.stxos.contains_key(k) || among(
                spend,
                spend.len(),
                k,
            ));
            assert(s.utxos.contains_key(k) <==> among(spend, spend.len(), k));
        }
        assert forall|k: OutPoint| #[trigger] after.stxos.contains_key(k) implies after.stxos[k]
            == s.stxos[k] by {
            assert(gone.stxos.contains_key(k) && !among(spend, spend.len(), k));
        }
        assert(after.stxos.dom() =~= s.stxos.dom());
        assert(after.stxos =~= s.stxos);
        assert(back.state.withdrawal_bundles =~= s.withdrawal_bundles);
        if leaves_are_new(diff, spend) {
            spending_diff(start, m6id, spend, spend.len());
            taking_diff_back(gone, diff, spend, spend.len());
            assert(with_gone(diff, spend, spend.len() as int, spend.len() as int) =~= diff);
        }
    }
}

/// What a bundle gives back is there.
proof fn returned_are_there(ledger: Ledger, spend: Seq<(OutPoint, OutputView)>, n: nat)
    requires
        n <= spend.len(),
    ensures
        n > 0 ==> bundle_returned(ledger, spend, n).utxos.contains_key(spend[n - 1].0),
{
}

/// That a bundle failed cannot be taken back where it was made here and spends
/// anything: the last output that it gave back is found, and this is reported as
/// if it were missing.
pub proof fn failures_cannot_be_taken_back(s: StateView, diff: DiffView, height: u32, m6id: M6id)
    requires
        s.withdrawal_bundles.contains_key(m6id),
        s.withdrawal_bundles[m6id].1.len() > 0,
        s.withdrawal_bundles[m6id].1.last().value == WithdrawalBundleStatus::Submitted,
        s.withdrawal_bundles[m6id].0 matches WithdrawalBundleInfoView::Known(bundle)
            && bundle.spend_utxos.len() > 0,
        failed(s, diff, height, m6id).fault is None,
    ensures
        ({
            let once = failed(s, diff, height, m6id);
            let spend = s.withdrawal_bundles[m6id].0->Known_0.spend_utxos;
            failed_undone(once.state, once.diff, height, m6id).fault == Some(
                Fault::Error(Error::NoUtxo { outpoint: spend.last().0 }),
            )
        }),
{
    let once = failed(s, diff, height, m6id);
    let (info, status) = s.withdrawal_bundles[m6id];
    let spend = info->Known_0.spend_utxos;
    let longer = once.state.withdrawal_bundles[m6id].1;
    assert(longer[longer.len() - 2] == status.last());
    returned_are_there(Ledger::of(s, diff), spend, spend.len());
}

/// That a bundle failed can be taken back where it was not made here, or spends
/// nothing: all is as it was before.
pub proof fn other_failures_can_be_taken_back(
    s: StateView,
    diff: DiffView,
    height: u32,
    m6id: M6id,
)
    requires
        s.withdrawal_bundles.contains_key(m6id),
        s.withdrawal_bundles[m6id].1.len() > 0,
        s.withdrawal_bundles[m6id].1.last().value == WithdrawalBundleStatus::Submitted,
        s.withdrawal_bundles[m6id].0 matches WithdrawalBundleInfoView::Known(bundle)
            ==> bundle.spend_utxos.len() == 0,
        s.latest_failed_withdrawal_bundle matches Some(list) ==> list.len() > 0,
        failed(s, diff, height, m6id).fault is None,
    ensures
        ({
            let once = failed(s, diff, height, m6id);
            let back = failed_undone(once.state, once.diff, height, m6id);
            &&& back.fault is None
            &&& back.state == s
            &&& back.diff == diff
        }),
{
    let once = failed(s, diff, height, m6id);
    let back = failed_undone(once.state, once.diff, height, m6id);
    let (info, status) = s.withdrawal_bundles[m6id];
    let longer = once.state.withdrawal_bundles[m6id].1;
    assert(longer.drop_last() =~= status);
    assert(longer[longer.len() - 2] == status.last());
    assert(back.state.withdrawal_bundles =~= s.withdrawal_bundles);
    if info is Known {
        let noted = once.state.latest_failed_withdrawal_bundle->0;
        if let Some(list) = s.latest_failed_withdrawal_bundle {
            assert(noted.drop_last() =~= list);
        }
        assert(back.state =~= s);
    }
}

/// Taking back what happened to a bundle leaves the lists of blocks alone.
proof fn bundle_event_keeps_blocks(
    s: StateView,
    diff: DiffView,
    height: u32,
    event: WithdrawalBundleEvent,
)
    ensures
        bundle_event_undone(s, diff, height, event).state.withdrawal_bundle_event_blocks
            == s.withdrawal_bundle_event_blocks,
{
}

/// Taking back the events of a block leaves the lists of blocks alone.
proof fn events_keep_blocks(
    run: Run,
    height: u32,
    hash: MainBlockHash,
    events: Seq<BlockEventView>,
    n: nat,
)
    ensures
        events_undone(run, height, hash, events, n).state.withdrawal_bundle_event_blocks
            == run.state.withdrawal_bundle_event_blocks,
    decreases n,
{
    if n > 0 && run.fault is None {
        let event = events[n - 1];
        if let BlockEventView::WithdrawalBundle(e) = event {
            bundle_event_keeps_blocks(run.state, run.diff, height, e);
        }
        events_keep_blocks(
            event_undone(run, height, hash, event),
            height,
            hash,
            events,
            (n - 1) as nat,
        );
    }
}

/// Taking back the events of blocks leaves the lists of blocks alone.
proof fn blocks_keep_blocks(
    run: Run,
    height: u32,
    blocks: Seq<(MainBlockHash, Seq<BlockEventView>)>,
    n: nat,
)
    ensures
        blocks_undone(run, height, blocks, n).state.withdrawal_bundle_event_blocks
            == run.state.withdrawal_bundle_event_blocks,
    decreases n,
{
    if n > 0 && run.fault is None {
        let (hash, events) = blocks[n - 1];
        events_keep_blocks(run, height, hash, events, events.len());
        blocks_keep_blocks(
            events_undone(run, height, hash, events, events.len()),
            height,
            blocks,
            (n - 1) as nat,
        );
    }
}

/// An event is connected, and taking it back brings back the state and the change
/// to the accumulator from before.
pub open spec fn is_taken_back(
    run: Run,
    height: u32,
    hash: MainBlockHash,
    event: BlockEventView,
) -> bool {
    let done = event_connected(run, height, hash, event);
    let back = event_undone(done, height, hash, event);
    &&& done.fault is None
    &&& back.fault is None
    &&& back.state == run.state
    &&& back.diff == run.diff
}

/// Each of the first `n` events of a block is connected and can be taken back.
pub open spec fn are_taken_back(
    run: Run,
    height: u32,
    hash: MainBlockHash,
    events: Seq<BlockEventView>,
    n: nat,
) -> bool {
    forall|i: int|
        0 <= i < n ==> is_taken_back(
            events_connected(run, height, hash, events, i as nat),
            height,
            hash,
            #[trigger] events[i],
        )
}

/// Events that can be taken back are connected.
proof fn events_connect(
    run: Run,
    height: u32,
    hash: MainBlockHash,
    events: Seq<BlockEventView>,
    n: nat,
)
    requires
        n <= events.len(),
        run.fault is None,
        are_taken_back(run, height, hash, events, n),
    ensures
        events_connected(run, height, hash, events, n).fault is None,
    decreases n,
{
    if n > 0 {
        events_connect(run, height, hash, events, (n - 1) as nat);
        let before = events_connected(run, height, hash, events, (n - 1) as nat);
        assert(is_taken_back(before, height, hash, events[n - 1]));
    }
}

/// Taking back the first `n` events of a block that were connected brings back
/// what was there.
proof fn events_come_back(
    run: Run,
    u: Run,
    height: u32,
    hash: MainBlockHash,
    events: Seq<BlockEventView>,
    n: nat,
)
    requires
        n <= events.len(),
        run.fault is None,
        are_taken_back(run, height, hash, events, n),
        u.fault is None,
        u.state == events_connected(run, height, hash, events, n).state,
        u.diff == events_connected(run, height, hash, events, n).diff,
    ensures
        ({
            let back = events_undone(u, height, hash, events, n);
            &&& back.fault is None
            &&& back.state == run.state
            &&& back.diff == run.diff
        }),
    decreases n,
{
    if n > 0 {
        let before = events_connected(run, height, hash, events, (n - 1) as nat);
        assert(is_taken_back(before, height, hash, events[n - 1]));
        events_connect(run, height, hash, events, (n - 1) as nat);
        let next = event_undone(u, height, hash, events[n - 1]);
        events_come_back(run, next, height, hash, events, (n - 1) as nat);
    }
}

/// Each event of the first `n` blocks is connected and can be taken back.
pub open spec fn blocks_are_taken_back(
    run: Run,
    height: u32,
    blocks: Seq<(MainBlockHash, Seq<BlockEventView>)>,
    n: nat,
) -> bool {
    forall|i: int|
        0 <= i < n ==> are_taken_back(
            blocks_connected(run, height, blocks, i as nat),
            height,
            (#[trigger] blocks[i]).0,
            blocks[i].1,
            blocks[i].1.len(),
        )
}

/// Blocks whose events can be taken back are connected.
proof fn blocks_connect(
    run: Run,
    height: u32,
    blocks: Seq<(MainBlockHash, Seq<BlockEventView>)>,
    n: nat,
)
    requires
        n <= blocks.len(),
        run.fault is None,
        blocks_are_taken_back(run, height, blocks, n),
    ensures
        blocks_connected(run, height, blocks, n).fault is None,
    decreases n,
{
    if n > 0 {
        blocks_connect(run, height, blocks, (n - 1) as nat);
        let before = blocks_connected(run, height, blocks, (n - 1) as nat);
        let (hash, events) = blocks[n - 1];
        assert(are_taken_back(before, height, blocks[n - 1].0, events, events.len()));
        events_connect(before, height, hash, events, events.len());
    }
}

/// Taking back the events of the first `n` blocks that were connected brings back
/// what was there.
proof fn blocks_come_back(
    run: Run,
    u: Run,
    height: u32,
    blocks: Seq<(MainBlockHash, Seq<BlockEventView>)>,
    n: nat,
)
    requires
        n <= blocks.len(),
        run.fault is None,
        blocks_are_taken_back(run, height, blocks, n),
        u.fault is None,
        u.state == blocks_connected(run, height, blocks, n).state,
        u.diff == blocks_connected(run, height, blocks, n).diff,
    ensures
        ({
            let back = blocks_undone(u, height, blocks, n);
            &&& back.fault is None
            &&& back.state == run.state
            &&& back.diff == run.diff
        }),
    decreases n,
{
    if n > 0 {
        let before = blocks_connected(run, height, blocks, (n - 1) as nat);
        let (hash, events) = blocks[n - 1];
        blocks_connect(run, height, blocks, (n - 1) as nat);
        assert(are_taken_back(before, height, blocks[n - 1].0, events, events.len()));
        events_come_back(before, u, height, hash, events, events.len());
        let next = events_undone(u, height, hash, events, events.len());
        blocks_come_back(run, next, height, blocks, (n - 1) as nat);
    }
}

/// Taking back the events of mainchain blocks undoes connecting them: where each
/// event can be taken back, the state and the change to the accumulator are as
/// they were before.
pub proof fn events_can_be_taken_back(
    run: Run,
    height: u32,
    blocks: Seq<(MainBlockHash, Seq<BlockEventView>)>,
)
    requires
        run.fault is None,
        blocks_are_taken_back(run, height, blocks, blocks.len()),
    ensures
        ({
            let done = blocks_connected(run, height, blocks, blocks.len());
            let back = blocks_undone(done, height, blocks, blocks.len());
            &&& done.fault is None
            &&& back.fault is None
            &&& back.state == run.state
            &&& back.diff == run.diff
        }),
{
    let done = blocks_connected(run, height, blocks, blocks.len());
    blocks_connect(run, height, blocks, blocks.len());
    blocks_come_back(run, done, height, blocks, blocks.len());
}

/// Disconnecting never forgets a block that an event of a bundle came from.
pub proof fn event_blocks_are_not_forgotten(
    s: StateView,
    blocks: Seq<(MainBlockHash, Seq<BlockEventView>)>,
)
    ensures
        peg_disconnected(s, blocks).state.withdrawal_bundle_event_blocks
            == s.withdrawal_bundle_event_blocks,
{
    if s.height is Some {
        blocks_keep_blocks(Run::start(s), s.height->0, blocks, blocks.len());
    }
}

/// One output more.
proof fn among_one_more(spend: Seq<(OutPoint, OutputView)>, n: nat, k: OutPoint)
    requires
        0 < n <= spend.len(),
    ensures
        among(spend, n, k) <==> among(spend, (n - 1) as nat, k) || spend[n - 1].0 == k,
{
    if among(spend, n, k) && spend[n - 1].0 != k {
        let i = choose|i: int| 0 <= i < n && (#[trigger] spend[i]).0 == k;
        assert(spend[i].0 == k && i < n - 1);
    }
}

/// What a bundle spends does to one outpoint.
proof fn spent_at(
    ledger: Ledger,
    m6id: M6id,
    spend: Seq<(OutPoint, OutputView)>,
    n: nat,
    k: OutPoint,
)
    requires
        n <= spend.len(),
    ensures
        ({
            let after = bundle_spent(ledger, m6id, spend, n);
            if among(spend, n, k) {
                !after.utxos.contains_key(k)
            } else {
                &&& after.utxos.contains_key(k) <==> ledger.utxos.contains_key(k)
                &&& after.utxos.contains_key(k) ==> after.utxos[k] == ledger.utxos[k]
                &&& after.stxos.contains_key(k) <==> ledger.stxos.contains_key(k)
                &&& after.stxos.contains_key(k) ==> after.stxos[k] == ledger.stxos[k]
            }
        }),
    decreases n,
{
    if n > 0 {
        among_one_more(spend, n, k);
        spent_at(ledger, m6id, spend, (n - 1) as nat, k);
    }
}

/// What a bundle gives back does to one outpoint.
proof fn returned_at(
    ledger: Ledger,
    s: StateView,
    spend: Seq<(OutPoint, OutputView)>,
    n: nat,
    k: OutPoint,
)
    requires
        n <= spend.len(),
        spends_what_is_there(s, spend),
    ensures
        ({
            let after = bundle_returned(ledger, spend, n);
            if among(spend, n, k) {
                &&& after.utxos.contains_key(k)
                &&& after.utxos[k] == s.utxos[k]
                &&& !after.stxos.contains_key(k)
            } else {
                &&& after.utxos.contains_key(k) <==> ledger.utxos.contains_key(k)
                &&& after.utxos.contains_key(k) ==> after.utxos[k] == ledger.utxos[k]
                &&& after.stxos.contains_key(k) <==> ledger.stxos.contains_key(k)
                &&& after.stxos.contains_key(k) ==> after.stxos[k] == ledger.stxos[k]
            }
        }),
    decreases n,
{
    if n > 0 {
        among_one_more(spend, n, k);
        returned_at(ledger, s, spend, (n - 1) as nat, k);
        assert(s.utxos[spend[n - 1].0] == spend[n - 1].1);
    }
}

/// A bundle that failed adds the leaves again that it took out, first to last.
proof fn returning_diff(ledger: Ledger, diff: DiffView, spend: Seq<(OutPoint, OutputView)>, n: nat)
    requires
        n <= spend.len(),
        leaves_are_new(diff, spend),
        ledger.diff == with_gone(diff, spend, 0, spend.len() as int),
    ensures
        bundle_returned(ledger, spend, n).diff == with_gone(
            diff,
            spend,
            n as int,
            spend.len() as int,
        ),
    decreases n,
{
    if n > 0 {
        returning_diff(ledger, diff, spend, (n - 1) as nat);
        first_comes_back(diff, spend, n);
    }
}

/// A bundle that is submitted and then fails leaves unspent and spent outputs as
/// they were, where it had not been submitted before and, if it was made here,
/// spends what is there. Where both happen in one change to the accumulator that
/// did not touch what the bundle spends, that change is as it was too.
pub proof fn failures_give_back_what_was_submitted(
    s: StateView,
    diff: DiffView,
    height: u32,
    later: DiffView,
    later_height: u32,
    m6id: M6id,
)
    requires
        !s.withdrawal_bundles.contains_key(m6id),
        s.pending_withdrawal_bundle matches Some((bundle, _)) ==> bundle.m6id == m6id
            ==> spends_what_is_there(s, bundle.spend_utxos),
        submitted(s, diff, height, m6id).fault is None,
        failed(submitted(s, diff, height, m6id).state, later, later_height, m6id).fault is None,
    ensures
        ({
            let once = submitted(s, diff, height, m6id);
            let back = failed(once.state, later, later_height, m6id);
            &&& back.state.utxos == s.utxos
            &&& back.state.stxos == s.stxos
            &&& later == once.diff && (s.pending_withdrawal_bundle matches Some((bundle, _))
                ==> bundle.m6id == m6id ==> leaves_are_new(diff, bundle.spend_utxos)) ==> back.diff
                == diff
        }),
{
    let once = submitted(s, diff, height, m6id);
    let back = failed(once.state, later, later_height, m6id);
    if awaits(s, m6id) {
        let (bundle, made_at) = s.pending_withdrawal_bundle->0;
        let spend = bundle.spend_utxos;
        let start = Ledger::of(s, diff);
        let between = Ledger::of(once.state, later);
        let done = bundle_returned(between, spend, spend.len());
        assert(back.state.utxos == done.utxos && back.state.stxos == done.stxos);
        assert(back.diff == done.diff);
        assert forall|k: OutPoint|
            #![trigger done.utxos.contains_key(k)]
            #![trigger s.utxos.contains_key(k)]
            #![trigger done.utxos[k]]
            #![trigger done.stxos.contains_key(k)]
            #![trigger s.stxos.contains_key(k)]
            #![trigger done.stxos[k]]
            {
                &&& done.utxos.contains_key(k) <==> s.utxos.contains_key(k)
                &&& done.utxos.contains_key(k) ==> done.utxos[k] == s.utxos[k]
                &&& done.stxos.contains_key(k) <==> s.stxos.contains_key(k)
                &&& done.stxos.contains_key(k) ==> done.stxos[k] == s.stxos[k]
            } by {
            spent_at(start, m6id, spend, spend.len(), k);
            returned_at(between, s, spend, spend.len(), k);
            if among(spend, spend.len(), k) {
                let i = choose|i: int| 0 <= i < spend.len() && (#[trigger] spend[i]).0 == k;
                assert(s.utxos.contains_key(spend[i].0));
            }
        }
        assert(done.utxos =~= s.utxos);
        assert(done.stxos =~= s.stxos);
        if later == once.diff && leaves_are_new(diff, spend) {
            spending_diff(start, m6id, spend, spend.len());
            returning_diff(between, diff, spend, spend.len());
            assert(with_gone(diff, spend, spend.len() as int, spend.len() as int) =~= diff);
        }
    }
}

// Where events came from.
/// A block carries a deposit among its first `n` events.
pub open spec fn has_deposit(events: Seq<BlockEventView>, n: nat) -> bool {
    exists|i: int| 0 <= i < n && #[trigger] events[i] is Deposit
}

/// A block carries an event of a bundle among its first `n` events.
pub open spec fn has_bundle_event(events: Seq<BlockEventView>, n: nat) -> bool {
    exists|i: int| 0 <= i < n && #[trigger] events[i] is WithdrawalBundle
}

/// The last of the first `n` blocks that carries a deposit.
pub open spec fn last_with_deposit(
    blocks: Seq<(MainBlockHash, Seq<BlockEventView>)>,
    n: nat,
) -> Option<MainBlockHash>
    decreases n,
{
    if n == 0 {
        None
    } else if has_deposit(blocks[n - 1].1, blocks[n - 1].1.len()) {
        Some(blocks[n - 1].0)
    } else {
        last_with_deposit(blocks, (n - 1) as nat)
    }
}

/// The last of the first `n` blocks that carries an event of a bundle.
pub open spec fn last_with_bundle_event(
    blocks: Seq<(MainBlockHash, Seq<BlockEventView>)>,
    n: nat,
) -> Option<MainBlockHash>
    decreases n,
{
    if n == 0 {
        None
    } else if has_bundle_event(blocks[n - 1].1, blocks[n - 1].1.len()) {
        Some(blocks[n - 1].0)
    } else {
        last_with_bundle_event(blocks, (n - 1) as nat)
    }
}

/// Connecting an event leaves the lists of blocks alone.
proof fn event_keeps_lists(run: Run, height: u32, hash: MainBlockHash, event: BlockEventView)
    ensures
        ({
            let after = event_connected(run, height, hash, event).state;
            &&& after.deposit_blocks == run.state.deposit_blocks
            &&& after.withdrawal_bundle_event_blocks == run.state.withdrawal_bundle_event_blocks
        }),
{
}

/// The events of a block are noted as coming from it.
proof fn events_come_from(
    run: Run,
    height: u32,
    hash: MainBlockHash,
    events: Seq<BlockEventView>,
    n: nat,
)
    requires
        n <= events.len(),
        events_connected(run, height, hash, events, n).fault is None,
    ensures
        ({
            let after = events_connected(run, height, hash, events, n);
            &&& after.state.deposit_blocks == run.state.deposit_blocks
            &&& after.state.withdrawal_bundle_event_blocks
                == run.state.withdrawal_bundle_event_blocks
            &&& after.deposit_block == if has_deposit(events, n) {
                Some(hash)
            } else {
                run.deposit_block
            }
            &&& after.bundle_event_block == if has_bundle_event(events, n) {
                Some(hash)
            } else {
                run.bundle_event_block
            }
        }),
    decreases n,
{
    if n > 0 {
        let before = events_connected(run, height, hash, events, (n - 1) as nat);
        let event = events[n - 1];
        events_come_from(run, height, hash, events, (n - 1) as nat);
        event_keeps_lists(before, height, hash, event);
        if has_deposit(events, (n - 1) as nat) {
            let i = choose|i: int| 0 <= i < n - 1 && #[trigger] events[i] is Deposit;
            assert(events[i] is Deposit);
        } else if has_deposit(events, n) {
            let i = choose|i: int| 0 <= i < n && #[trigger] events[i] is Deposit;
            assert(i == n - 1);
        }
        if has_bundle_event(events, (n - 1) as nat) {
            let i = choose|i: int| 0 <= i < n - 1 && #[trigger] events[i] is WithdrawalBundle;
            assert(events[i] is WithdrawalBundle);
        } else if has_bundle_event(events, n) {
            let i = choose|i: int| 0 <= i < n && #[trigger] events[i] is WithdrawalBundle;
            assert(i == n - 1);
        }
        assert(events[n - 1] is Deposit || events[n - 1] is WithdrawalBundle);
    }
}

/// The events of blocks are noted as coming from the last block that carries such
/// an event.
pub(crate) proof fn blocks_come_from(
    s: StateView,
    height: u32,
    blocks: Seq<(MainBlockHash, Seq<BlockEventView>)>,
    n: nat,
)
    requires
        n <= blocks.len(),
        blocks_connected(Run::start(s), height, blocks, n).fault is None,
    ensures
        ({
            let after = blocks_connected(Run::start(s), height, blocks, n);
            &&& after.state.deposit_blocks == s.deposit_blocks
            &&& after.state.withdrawal_bundle_event_blocks == s.withdrawal_bundle_event_blocks
            &&& after.deposit_block == last_with_deposit(blocks, n)
            &&& after.bundle_event_block == last_with_bundle_event(blocks, n)
        }),
    decreases n,
{
    if n > 0 {
        let before = blocks_connected(Run::start(s), height, blocks, (n - 1) as nat);
        let (hash, events) = blocks[n - 1];
        blocks_come_from(s, height, blocks, (n - 1) as nat);
        events_come_from(before, height, hash, events, events.len());
    }
}

/// Looking at swaps leaves all but swaps and what is locked to them alone.
pub(crate) proof fn looking_keeps(
    s: StateView,
    swaps: Seq<SwapView>,
    height: u32,
    tip: BlockHash,
    lookups: Map<SwapId, Seq<L1MatchView>>,
    n: nat,
)
    ensures
        ({
            let after = swaps_processed(s, swaps, height, tip, lookups, n);
            after == (StateView {
                swaps: after.swaps,
                locked_swap_outputs: after.locked_swap_outputs,
                ..s
            })
        }),
    decreases n,
{
    if n > 0 {
        looking_keeps(s, swaps, height, tip, lookups, (n - 1) as nat);
    }
}

/// The number that the next entry of a numbered list of blocks gets.
pub open spec fn next_number(blocks: Map<u32, (MainBlockHash, u32)>) -> int {
    match last_block(blocks) {
        Some(last) => last.0 + 1,
        None => 0,
    }
}

/// All numbers of a list come before the next.
pub(crate) proof fn numbers_come_before(blocks: Map<u32, (MainBlockHash, u32)>)
    requires
        blocks.dom().finite(),
    ensures
        forall|k: u32| #[trigger] blocks.contains_key(k) ==> k < next_number(blocks),
{
    let numbers = ordered(blocks.dom());
    finite_is_listed(blocks.dom());
    assert forall|k: u32| #[trigger] blocks.contains_key(k) implies k < next_number(blocks) by {
        assert(blocks.dom().contains(k));
        assert(numbers.contains(k));
        let i = choose|i: int| 0 <= i < numbers.len() && numbers[i] == k;
        if i < numbers.len() - 1 {
            assert(numbers[i].lt(numbers[numbers.len() - 1]));
        }
    }
}

/// A list of blocks with one entry more, if there is a block to note.
pub open spec fn with_noted(
    blocks: Map<u32, (MainBlockHash, u32)>,
    hash: Option<MainBlockHash>,
    height: u32,
) -> Map<u32, (MainBlockHash, u32)> {
    match hash {
        Some(hash) => blocks.insert(next_number(blocks) as u32, (hash, height)),
        None => blocks,
    }
}

/// Connecting the events of mainchain blocks adds one entry to the list of blocks
/// that deposits came from if there was a deposit, and one to the list of blocks
/// that events of bundles came from if there was such an event: the last block
/// that carried one, and the height that this was done at. The entry gets the
/// number after the last, which no entry had; no other entry changes.
pub proof fn connecting_notes_where_events_came_from(
    s: StateView,
    blocks: Seq<(MainBlockHash, Seq<BlockEventView>)>,
    lookups: Map<SwapId, Seq<L1MatchView>>,
    built: Result<M6id, Rejection>,
)
    requires
        s.deposit_blocks.dom().finite(),
        s.withdrawal_bundle_event_blocks.dom().finite(),
        peg_connected(s, blocks, lookups, built).fault is None,
    ensures
        ({
            let done = peg_connected(s, blocks, lookups, built).state;
            let deposit = last_with_deposit(blocks, blocks.len());
            let event = last_with_bundle_event(blocks, blocks.len());
            let deposits = s.deposit_blocks;
            let events = s.withdrawal_bundle_event_blocks;
            &&& done.deposit_blocks == with_noted(deposits, deposit, s.height->0)
            &&& done.withdrawal_bundle_event_blocks == with_noted(events, event, s.height->0)
            &&& deposit is Some ==> next_number(deposits) <= u32::MAX
            &&& event is Some ==> next_number(events) <= u32::MAX
            &&& forall|k: u32| #[trigger] deposits.contains_key(k) ==> k < next_number(deposits)
            &&& forall|k: u32| #[trigger] events.contains_key(k) ==> k < next_number(events)
        }),
{
    let height = s.height->0;
    let run = events_run(s, blocks);
    let tip = run.state.tip->0;
    blocks_come_from(s, height, blocks, blocks.len());
    let swaps = all_swaps(run.state);
    looking_keeps(run.state, swaps, height, tip, lookups, swaps.len());
    numbers_come_before(s.deposit_blocks);
    numbers_come_before(s.withdrawal_bundle_event_blocks);
    assert(run_noted(run, height, tip, lookups).fault is None);
}

} // verus!
