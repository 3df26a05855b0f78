//! What holds of bundles that withdrawals are put together into.
use vstd::prelude::*;

use crate::bundle::{
    aggregates, comes_first, comes_first_is_strict, drafted, fee_of, fee_to, fees, is_selected,
    is_withdrawn_to, overflows_at, payouts, ranking, selection, spent_for, sums_of_none,
    total_fee_to, total_to, totals_overflow, value_to, withdraws_to, AggregatedWithdrawalView,
    BundleDraftView,
};
use crate::error::Fault;
use crate::mainchain::{addresses_ordered, MainAddressView, TxOutView};
use crate::order::{arranges, finite_is_arranged};
use crate::table::{finite_is_listed, increasing, lists, ordered, ordered_is, Key};
use crate::types::{OutPoint, OutputContentView, OutputView};

verus! {

/// What the first `n` outputs pay.
pub open spec fn paid(outputs: Seq<TxOutView>, n: nat) -> nat
    decreases n,
{
    if n == 0 {
        0
    } else {
        paid(outputs, (n - 1) as nat) + outputs[n - 1].value as nat
    }
}

/// The coins that the first `n` of these outputs hold.
pub open spec fn held(spend: Seq<(OutPoint, OutputView)>, n: nat) -> nat
    decreases n,
{
    if n == 0 {
        0
    } else {
        held(spend, (n - 1) as nat) + spend[n - 1].1.content.value() as nat
    }
}

/// The mainchain fees that the first `n` of these outputs offer.
pub open spec fn offered(spend: Seq<(OutPoint, OutputView)>, n: nat) -> nat
    decreases n,
{
    if n == 0 {
        0
    } else {
        offered(spend, (n - 1) as nat) + fee_of(spend[n - 1].1) as nat
    }
}

/// What is withdrawn to the address of an output is what there is to withdraw.
spec fn address_of(output: OutputView) -> MainAddressView {
    match output.content {
        OutputContentView::Withdrawal { main_address, .. } => main_address,
        _ => arbitrary(),
    }
}

/// There are finitely many withdrawals, and they can be put in order.
pub(crate) proof fn ranking_is(utxos: Map<OutPoint, OutputView>)
    requires
        utxos.dom().finite(),
    ensures
        arranges(
            ranking(utxos),
            aggregates(utxos),
            |a: AggregatedWithdrawalView, b: AggregatedWithdrawalView| comes_first(a, b),
        ),
{
    let all = aggregates(utxos);
    let of = |k: OutPoint|
        {
            let address = address_of(utxos[k]);
            AggregatedWithdrawalView {
                main_address: address,
                value: total_to(utxos, address) as u64,
                main_fee: total_fee_to(utxos, address) as u64,
            }
        };
    let image = utxos.dom().map(of);
    utxos.dom().lemma_map_finite(of);
    assert forall|a: AggregatedWithdrawalView| all.contains(a) implies image.contains(a) by {
        let k = choose|k: OutPoint| #[trigger]
            utxos.contains_key(k) && withdraws_to(utxos[k], a.main_address);
        assert(utxos.dom().contains(k));
        assert(of(k) == a);
    }
    assert(all.subset_of(image));
    vstd::set_lib::lemma_set_subset_finite(image, all);
    let before = |a: AggregatedWithdrawalView, b: AggregatedWithdrawalView| comes_first(a, b);
    comes_first_is_strict();
    assert forall|x: AggregatedWithdrawalView, y: AggregatedWithdrawalView| #[trigger]
        before(x, y) || x == y || before(y, x) by {
        addresses_ordered(x.main_address, y.main_address, y.main_address);
    }
    finite_is_arranged(all, before);
}

/// The withdrawals of a bundle are to different addresses, and each is all that
/// is withdrawn to its address.
proof fn selection_is(utxos: Map<OutPoint, OutputView>)
    requires
        utxos.dom().finite(),
    ensures
        ({
            let list = selection(utxos);
            &&& list.len() <= 3122
            &&& forall|i: int|
                0 <= i < list.len() ==> (#[trigger] list[i]).value == total_to(
                    utxos,
                    list[i].main_address,
                ) && list[i].main_fee == total_fee_to(utxos, list[i].main_address)
            &&& forall|i: int, j: int|
                #![trigger list[i], list[j]]
                0 <= i < j < list.len() ==> list[i].main_address != list[j].main_address
        }),
{
    let list = selection(utxos);
    let all = ranking(utxos);
    let before = |a: AggregatedWithdrawalView, b: AggregatedWithdrawalView| comes_first(a, b);
    ranking_is(utxos);
    comes_first_is_strict();
    assert forall|i: int| 0 <= i < list.len() implies (#[trigger] list[i]).value == total_to(
        utxos,
        list[i].main_address,
    ) && list[i].main_fee == total_fee_to(utxos, list[i].main_address) by {
        assert(all[i] == list[i]);
        assert(all.contains(all[i]));
        assert(aggregates(utxos).contains(all[i]));
    }
    assert forall|i: int, j: int|
        #![trigger list[i], list[j]]
        0 <= i < j < list.len() implies list[i].main_address != list[j].main_address by {
        assert(all[i] == list[i]);
        assert(all[j] == list[j]);
        assert(before(all[i], all[j]));
        if list[i].main_address == list[j].main_address {
            assert(list[i] == list[j]);
            assert(!before(all[i], all[i]));
        }
    }
}

/// What the outputs at the first `n` of `keys` withdraw to the first `m`
/// addresses of `list`, and the fees that they offer for it.
spec fn withdrawn(
    utxos: Map<OutPoint, OutputView>,
    keys: Seq<OutPoint>,
    list: Seq<AggregatedWithdrawalView>,
    n: nat,
    m: nat,
) -> (nat, nat)
    decreases m,
{
    if m == 0 {
        (0, 0)
    } else {
        let before = withdrawn(utxos, keys, list, n, (m - 1) as nat);
        (
            before.0 + value_to(utxos, keys, list[m - 1].main_address, n),
            before.1 + fee_to(utxos, keys, list[m - 1].main_address, n),
        )
    }
}

/// The output withdraws to one of the first `m` addresses of `list`.
spec fn to_first(output: OutputView, list: Seq<AggregatedWithdrawalView>, m: nat) -> bool {
    exists|i: int| 0 <= i < m && withdraws_to(output, (#[trigger] list[i]).main_address)
}

/// One more output adds what it withdraws, if it withdraws to one of the
/// addresses.
proof fn one_more_key(
    utxos: Map<OutPoint, OutputView>,
    keys: Seq<OutPoint>,
    list: Seq<AggregatedWithdrawalView>,
    n: nat,
    m: nat,
)
    requires
        0 < n,
        m <= list.len(),
        forall|i: int, j: int|
            #![trigger list[i], list[j]]
            0 <= i < j < list.len() ==> list[i].main_address != list[j].main_address,
    ensures
        ({
            let output = utxos[keys[n - 1]];
            let before = withdrawn(utxos, keys, list, (n - 1) as nat, m);
            withdrawn(utxos, keys, list, n, m) == if to_first(output, list, m) {
                (before.0 + output.content.value() as nat, before.1 + fee_of(output) as nat)
            } else {
                before
            }
        }),
    decreases m,
{
    if m > 0 {
        one_more_key(utxos, keys, list, n, (m - 1) as nat);
        let output = utxos[keys[n - 1]];
        let address = list[m - 1].main_address;
        if to_first(output, list, (m - 1) as nat) {
            let i = choose|i: int|
                0 <= i < m - 1 && withdraws_to(output, (#[trigger] list[i]).main_address);
            assert(list[i].main_address != list[m - 1].main_address);
            assert(withdraws_to(output, list[i].main_address));
        } else if withdraws_to(output, address) {
            assert(withdraws_to(output, list[m - 1].main_address));
        } else if to_first(output, list, m) {
            let i = choose|i: int|
                0 <= i < m && withdraws_to(output, (#[trigger] list[i]).main_address);
            assert(i < m - 1);
        }
    }
}

/// No outputs withdraw nothing.
proof fn no_keys(
    utxos: Map<OutPoint, OutputView>,
    keys: Seq<OutPoint>,
    list: Seq<AggregatedWithdrawalView>,
    m: nat,
)
    ensures
        withdrawn(utxos, keys, list, 0, m) == (0nat, 0nat),
    decreases m,
{
    if m > 0 {
        no_keys(utxos, keys, list, (m - 1) as nat);
    }
}

/// Sums over a list do not change where the list is made longer.
proof fn sums_of_prefix(a: Seq<(OutPoint, OutputView)>, x: (OutPoint, OutputView), n: nat)
    requires
        n <= a.len(),
    ensures
        held(a.push(x), n) == held(a, n),
        offered(a.push(x), n) == offered(a, n),
    decreases n,
{
    if n > 0 {
        sums_of_prefix(a, x, (n - 1) as nat);
    }
}

/// What is spent for withdrawals is what is withdrawn.
proof fn spent_is_withdrawn(
    utxos: Map<OutPoint, OutputView>,
    keys: Seq<OutPoint>,
    list: Seq<AggregatedWithdrawalView>,
    n: nat,
)
    requires
        forall|i: int, j: int|
            #![trigger list[i], list[j]]
            0 <= i < j < list.len() ==> list[i].main_address != list[j].main_address,
    ensures
        ({
            let spend = spent_for(utxos, keys, list, n);
            (held(spend, spend.len()), offered(spend, spend.len())) == withdrawn(
                utxos,
                keys,
                list,
                n,
                list.len(),
            )
        }),
    decreases n,
{
    if n == 0 {
        no_keys(utxos, keys, list, list.len());
    } else {
        spent_is_withdrawn(utxos, keys, list, (n - 1) as nat);
        one_more_key(utxos, keys, list, n, list.len());
        let output = utxos[keys[n - 1]];
        let before = spent_for(utxos, keys, list, (n - 1) as nat);
        assert(is_selected(output, list) == to_first(output, list, list.len()));
        sums_of_prefix(before, (keys[n - 1], output), before.len());
    }
}

/// What is paid out is what is withdrawn.
proof fn paid_is_withdrawn(
    utxos: Map<OutPoint, OutputView>,
    list: Seq<AggregatedWithdrawalView>,
    m: nat,
)
    requires
        m <= list.len(),
        forall|i: int|
            0 <= i < list.len() ==> (#[trigger] list[i]).value == total_to(
                utxos,
                list[i].main_address,
            ) && list[i].main_fee == total_fee_to(utxos, list[i].main_address),
    ensures
        ({
            let keys = ordered(utxos.dom());
            (paid(payouts(list), m), fees(list, m)) == withdrawn(
                utxos,
                keys,
                list,
                keys.len(),
                m,
            )
        }),
    decreases m,
{
    if m > 0 {
        paid_is_withdrawn(utxos, list, (m - 1) as nat);
        assert(list[m - 1].value == total_to(utxos, list[m - 1].main_address));
    }
}

/// A bundle pays out the coins of the outputs that it spends, no more and no
/// less, and its fee is the sum of the fees that they offer.
pub proof fn bundles_balance(utxos: Map<OutPoint, OutputView>, block_height: u32)
    requires
        utxos.dom().finite(),
    ensures
        drafted(utxos, block_height) matches Ok(Some(draft)) ==> {
            &&& paid(draft.outputs, draft.outputs.len()) == held(
                draft.spend_utxos,
                draft.spend_utxos.len(),
            )
            &&& draft.fee == offered(draft.spend_utxos, draft.spend_utxos.len())
        },
{
    let list = selection(utxos);
    let keys = ordered(utxos.dom());
    selection_is(utxos);
    spent_is_withdrawn(utxos, keys, list, keys.len());
    paid_is_withdrawn(utxos, list, list.len());
}

/// The fees of a bundle are those that the outputs that it spends offer.
pub(crate) proof fn fees_are_offered(utxos: Map<OutPoint, OutputView>)
    requires
        utxos.dom().finite(),
    ensures
        ({
            let list = selection(utxos);
            let keys = ordered(utxos.dom());
            let spend = spent_for(utxos, keys, list, keys.len());
            fees(list, list.len()) == offered(spend, spend.len())
        }),
{
    let list = selection(utxos);
    let keys = ordered(utxos.dom());
    selection_is(utxos);
    spent_is_withdrawn(utxos, keys, list, keys.len());
    paid_is_withdrawn(utxos, list, list.len());
}

/// The outputs that are spent for withdrawals are those that are there, in order.
proof fn spent_are_there(
    utxos: Map<OutPoint, OutputView>,
    keys: Seq<OutPoint>,
    list: Seq<AggregatedWithdrawalView>,
    n: nat,
)
    requires
        n <= keys.len(),
        lists(keys, utxos.dom()),
    ensures
        ({
            let spend = spent_for(utxos, keys, list, n);
            &&& forall|i: int|
                0 <= i < spend.len() ==> utxos.contains_key((#[trigger] spend[i]).0)
                    && utxos[spend[i].0] == spend[i].1 && spend[i].1.content is Withdrawal
                    && exists|j: int| 0 <= j < n && #[trigger] keys[j] == spend[i].0
            &&& forall|i: int, j: int|
                #![trigger spend[i], spend[j]]
                0 <= i < j < spend.len() ==> spend[i].0.lt(spend[j].0)
        }),
    decreases n,
{
    if n > 0 {
        spent_are_there(utxos, keys, list, (n - 1) as nat);
        let before = spent_for(utxos, keys, list, (n - 1) as nat);
        let spend = spent_for(utxos, keys, list, n);
        let key = keys[n - 1];
        assert(keys.contains(key));
        assert(utxos.contains_key(key));
        assert forall|i: int| 0 <= i < spend.len() implies utxos.contains_key(
            (#[trigger] spend[i]).0,
        ) && utxos[spend[i].0] == spend[i].1 && spend[i].1.content is Withdrawal && exists|j: int|
            0 <= j < n && #[trigger] keys[j] == spend[i].0 by {
            if i < before.len() {
                assert(spend[i] == before[i]);
                let j = choose|j: int| 0 <= j < n - 1 && #[trigger] keys[j] == before[i].0;
                assert(keys[j] == spend[i].0);
            } else {
                assert(keys[n - 1] == spend[i].0);
            }
        }
        assert forall|i: int, j: int|
            #![trigger spend[i], spend[j]]
            0 <= i < j < spend.len() implies spend[i].0.lt(spend[j].0) by {
            if j < before.len() {
                assert(before[i].0.lt(before[j].0));
            } else {
                assert(spend[i] == before[i]);
                let a = choose|a: int| 0 <= a < n - 1 && #[trigger] keys[a] == before[i].0;
                assert(keys[a].lt(keys[n - 1]));
            }
        }
    }
}

/// A bundle spends unspent withdrawals, each once and in the order of their
/// outpoints, and has at most one output more than there is room for.
pub proof fn bundles_spend_withdrawals(utxos: Map<OutPoint, OutputView>, block_height: u32)
    requires
        utxos.dom().finite(),
    ensures
        drafted(utxos, block_height) matches Ok(Some(draft)) ==> {
            &&& draft.block_height == block_height
            &&& draft.outputs.len() <= 3122
            &&& forall|i: int|
                0 <= i < draft.spend_utxos.len() ==> utxos.contains_key(
                    (#[trigger] draft.spend_utxos[i]).0,
                ) && utxos[draft.spend_utxos[i].0] == draft.spend_utxos[i].1
                    && draft.spend_utxos[i].1.content is Withdrawal
            &&& forall|i: int, j: int|
                #![trigger draft.spend_utxos[i], draft.spend_utxos[j]]
                0 <= i < j < draft.spend_utxos.len() ==> draft.spend_utxos[i].0.lt(
                    draft.spend_utxos[j].0,
                )
        },
{
    let keys = ordered(utxos.dom());
    finite_is_listed(utxos.dom());
    selection_is(utxos);
    spent_are_there(utxos, keys, selection(utxos), keys.len());
}

/// A withdrawal is kept under this outpoint.
pub open spec fn is_withdrawal(utxos: Map<OutPoint, OutputView>, k: OutPoint) -> bool {
    utxos.contains_key(k) && utxos[k].content is Withdrawal
}

/// The outputs that are withdrawals.
spec fn withdrawals(utxos: Map<OutPoint, OutputView>) -> Map<OutPoint, OutputView> {
    utxos.restrict(Set::new(|k: OutPoint| is_withdrawal(utxos, k)))
}

/// Those of the first `n` of `keys` under which withdrawals are kept.
spec fn kept(utxos: Map<OutPoint, OutputView>, keys: Seq<OutPoint>, n: nat) -> Seq<OutPoint>
    decreases n,
{
    if n == 0 {
        Seq::empty()
    } else {
        let before = kept(utxos, keys, (n - 1) as nat);
        if is_withdrawal(utxos, keys[n - 1]) {
            before.push(keys[n - 1])
        } else {
            before
        }
    }
}

/// The keys that are kept are those of withdrawals, in order.
proof fn kept_are(utxos: Map<OutPoint, OutputView>, keys: Seq<OutPoint>, n: nat)
    requires
        n <= keys.len(),
        increasing(keys),
    ensures
        ({
            let some = kept(utxos, keys, n);
            &&& increasing(some)
            &&& forall|k: OutPoint| #[trigger]
                some.contains(k) <==> is_withdrawal(utxos, k) && keys.take(n as int).contains(k)
        }),
    decreases n,
{
    if n > 0 {
        kept_are(utxos, keys, (n - 1) as nat);
        let before = kept(utxos, keys, (n - 1) as nat);
        let some = kept(utxos, keys, n);
        let key = keys[n - 1];
        let first = keys.take(n - 1);
        let more = keys.take(n as int);
        assert(more =~= first.push(key));
        assert forall|k: OutPoint| more.contains(k) <==> first.contains(k) || k == key by {
            if first.contains(k) {
                let i = choose|i: int| 0 <= i < first.len() && first[i] == k;
                assert(more[i] == k);
            }
            assert(more[n - 1] == key);
            if more.contains(k) && k != key {
                let i = choose|i: int| 0 <= i < more.len() && more[i] == k;
                assert(first[i] == k);
            }
        }
        assert forall|k: OutPoint| #[trigger]
            some.contains(k) <==> is_withdrawal(utxos, k) && more.contains(k) by {
            if before.contains(k) {
                let i = choose|i: int| 0 <= i < before.len() && before[i] == k;
                assert(some[i] == k);
            }
            if is_withdrawal(utxos, key) {
                assert(some[before.len() as int] == key);
            }
            if some.contains(k) && k != key {
                let i = choose|i: int| 0 <= i < some.len() && some[i] == k;
                assert(before[i] == k);
            }
            assert(before.contains(k) <==> is_withdrawal(utxos, k) && first.contains(k));
        }
        assert forall|i: int, j: int|
            #![trigger some[i], some[j]]
            0 <= i < j < some.len() implies some[i].lt(some[j]) by {
            if j < before.len() {
                assert(before[i].lt(before[j]));
            } else {
                assert(before.contains(before[i]));
                let a = choose|a: int| 0 <= a < first.len() && first[a] == before[i];
                assert(keys[a].lt(keys[n - 1]));
            }
        }
    } else {
        assert(keys.take(0) =~= Seq::empty());
    }
}

/// What there is under the first keys does not depend on the keys after them.
proof fn sums_of_first_keys(
    utxos: Map<OutPoint, OutputView>,
    keys: Seq<OutPoint>,
    key: OutPoint,
    address: MainAddressView,
    list: Seq<AggregatedWithdrawalView>,
    n: nat,
)
    requires
        n <= keys.len(),
    ensures
        value_to(utxos, keys.push(key), address, n) == value_to(utxos, keys, address, n),
        fee_to(utxos, keys.push(key), address, n) == fee_to(utxos, keys, address, n),
        spent_for(utxos, keys.push(key), list, n) == spent_for(utxos, keys, list, n),
    decreases n,
{
    if n > 0 {
        sums_of_first_keys(utxos, keys, key, address, list, (n - 1) as nat);
        assert(keys.push(key)[n - 1] == keys[n - 1]);
    }
}

/// Only withdrawals count in sums, and only they are spent.
proof fn sums_of_kept(
    utxos: Map<OutPoint, OutputView>,
    keys: Seq<OutPoint>,
    address: MainAddressView,
    list: Seq<AggregatedWithdrawalView>,
    n: nat,
)
    requires
        n <= keys.len(),
        forall|i: int| 0 <= i < keys.len() ==> utxos.contains_key(#[trigger] keys[i]),
    ensures
        ({
            let some = kept(utxos, keys, n);
            let those = withdrawals(utxos);
            &&& value_to(utxos, keys, address, n) == value_to(those, some, address, some.len())
            &&& fee_to(utxos, keys, address, n) == fee_to(those, some, address, some.len())
            &&& spent_for(utxos, keys, list, n) == spent_for(those, some, list, some.len())
        }),
    decreases n,
{
    if n > 0 {
        sums_of_kept(utxos, keys, address, list, (n - 1) as nat);
        let before = kept(utxos, keys, (n - 1) as nat);
        let key = keys[n - 1];
        assert(utxos.contains_key(keys[n - 1]));
        if is_withdrawal(utxos, key) {
            sums_of_first_keys(withdrawals(utxos), before, key, address, list, before.len());
            assert(withdrawals(utxos)[key] == utxos[key]);
            assert(before.push(key)[before.len() as int] == key);
        } else {
            assert(!withdraws_to(utxos[key], address));
            if is_selected(utxos[key], list) {
                let i = choose|i: int|
                    0 <= i < list.len() && withdraws_to(
                        utxos[key],
                        (#[trigger] list[i]).main_address,
                    );
                assert(false);
            }
        }
    }
}

/// What a bundle is built from depends on the withdrawals alone.
proof fn draft_of_withdrawals(utxos: Map<OutPoint, OutputView>, block_height: u32)
    requires
        utxos.dom().finite(),
    ensures
        drafted(utxos, block_height) == drafted(withdrawals(utxos), block_height),
{
    let those = withdrawals(utxos);
    let keys = ordered(utxos.dom());
    let some = kept(utxos, keys, keys.len());
    finite_is_listed(utxos.dom());
    assert forall|i: int| 0 <= i < keys.len() implies utxos.contains_key(#[trigger] keys[i]) by {
        assert(keys.contains(keys[i]));
        assert(utxos.dom().contains(keys[i]));
    }
    kept_are(utxos, keys, keys.len());
    assert(keys.take(keys.len() as int) =~= keys);
    assert forall|k: OutPoint| those.dom().contains(k) <==> #[trigger] some.contains(k) by {
        assert(utxos.dom().contains(k) <==> keys.contains(k));
    }
    ordered_is(some, those.dom());
    assert forall|address: MainAddressView|
        total_to(utxos, address) == total_to(those, address) && total_fee_to(utxos, address)
            == total_fee_to(those, address) && overflows_at(utxos, address) == overflows_at(
            those,
            address,
        ) && is_withdrawn_to(utxos, address) == is_withdrawn_to(those, address) by {
        sums_of_kept(utxos, keys, address, Seq::empty(), keys.len());
        if is_withdrawn_to(utxos, address) {
            let k = choose|k: OutPoint| #[trigger]
                utxos.contains_key(k) && withdraws_to(utxos[k], address);
            assert(is_withdrawal(utxos, k));
            assert(those.contains_key(k) && withdraws_to(those[k], address));
        }
        if is_withdrawn_to(those, address) {
            let k = choose|k: OutPoint| #[trigger]
                those.contains_key(k) && withdraws_to(those[k], address);
            assert(utxos.contains_key(k) && withdraws_to(utxos[k], address));
        }
    }
    assert(totals_overflow(utxos) == totals_overflow(those)) by {
        if totals_overflow(utxos) {
            let address = choose|address: MainAddressView| overflows_at(utxos, address);
            assert(overflows_at(those, address));
        }
        if totals_overflow(those) {
            let address = choose|address: MainAddressView| overflows_at(those, address);
            assert(overflows_at(utxos, address));
        }
    }
    assert(aggregates(utxos) =~= aggregates(those));
    sums_of_kept(utxos, keys, arbitrary(), selection(utxos), keys.len());
}

/// Nothing but the withdrawals decides what a bundle is built from: where the
/// same withdrawals are kept, so is the draft the same, whatever other outputs
/// there are.
pub proof fn only_withdrawals_count(
    utxos: Map<OutPoint, OutputView>,
    others: Map<OutPoint, OutputView>,
    block_height: u32,
)
    requires
        utxos.dom().finite(),
        others.dom().finite(),
        forall|k: OutPoint| #[trigger] is_withdrawal(utxos, k) <==> is_withdrawal(others, k),
        forall|k: OutPoint| #[trigger] is_withdrawal(utxos, k) ==> utxos[k] == others[k],
    ensures
        drafted(utxos, block_height) == drafted(others, block_height),
{
    draft_of_withdrawals(utxos, block_height);
    draft_of_withdrawals(others, block_height);
    assert forall|k: OutPoint| #[trigger]
        withdrawals(utxos).contains_key(k) <==> withdrawals(others).contains_key(k) by {
        assert(is_withdrawal(utxos, k) <==> is_withdrawal(others, k));
    }
    assert forall|k: OutPoint| #[trigger]
        withdrawals(utxos).contains_key(k) implies withdrawals(utxos)[k] == withdrawals(
        others,
    )[k] by {
        assert(is_withdrawal(utxos, k));
    }
    assert(withdrawals(utxos) =~= withdrawals(others));
}

/// What is withdrawn to the address of a withdrawal stands among what is put
/// together, where it can be counted.
proof fn withdrawal_is_put_together(utxos: Map<OutPoint, OutputView>, k: OutPoint)
    requires
        is_withdrawal(utxos, k),
        !totals_overflow(utxos),
    ensures
        ({
            let address = address_of(utxos[k]);
            &&& withdraws_to(utxos[k], address)
            &&& aggregates(utxos).contains(
                AggregatedWithdrawalView {
                    main_address: address,
                    value: total_to(utxos, address) as u64,
                    main_fee: total_fee_to(utxos, address) as u64,
                },
            )
        }),
{
    let address = address_of(utxos[k]);
    assert(!overflows_at(utxos, address));
    assert(utxos.contains_key(k) && withdraws_to(utxos[k], address));
}

/// There is nothing to build a bundle from exactly if nothing is withdrawn.
pub proof fn nothing_is_drafted_of_nothing(utxos: Map<OutPoint, OutputView>, block_height: u32)
    requires
        utxos.dom().finite(),
    ensures
        drafted(utxos, block_height) == Ok::<Option<BundleDraftView>, Fault>(None)
            <==> forall|k: OutPoint| !#[trigger] is_withdrawal(utxos, k),
{
    let all = ranking(utxos);
    let keys = ordered(utxos.dom());
    ranking_is(utxos);
    finite_is_listed(utxos.dom());
    if drafted(utxos, block_height) == Ok::<Option<BundleDraftView>, Fault>(None) {
        assert forall|k: OutPoint| !#[trigger] is_withdrawal(utxos, k) by {
            if is_withdrawal(utxos, k) {
                withdrawal_is_put_together(utxos, k);
                let address = address_of(utxos[k]);
                let item = AggregatedWithdrawalView {
                    main_address: address,
                    value: total_to(utxos, address) as u64,
                    main_fee: total_fee_to(utxos, address) as u64,
                };
                assert(all.contains(item));
            }
        }
    }
    if forall|k: OutPoint| !#[trigger] is_withdrawal(utxos, k) {
        assert forall|address: MainAddressView| !overflows_at(utxos, address) by {
            assert forall|j: int| 0 <= j < keys.len() implies !withdraws_to(
                utxos[#[trigger] keys[j]],
                address,
            ) by {
                assert(keys.contains(keys[j]));
                assert(utxos.contains_key(keys[j]));
                assert(!is_withdrawal(utxos, keys[j]));
            }
            sums_of_none(utxos, keys, address, keys.len());
        }
        if all.len() > 0 {
            assert(all.contains(all[0]));
            assert(aggregates(utxos).contains(all[0]));
            let k = choose|k: OutPoint| #[trigger]
                utxos.contains_key(k) && withdraws_to(utxos[k], all[0].main_address);
            assert(is_withdrawal(utxos, k));
        }
    }
}

/// What is spent for withdrawals is all that withdraws to one of their addresses.
proof fn all_are_spent(
    utxos: Map<OutPoint, OutputView>,
    keys: Seq<OutPoint>,
    list: Seq<AggregatedWithdrawalView>,
    n: nat,
    i: int,
)
    requires
        0 <= i < n <= keys.len(),
        is_selected(utxos[keys[i]], list),
    ensures
        spent_for(utxos, keys, list, n).contains((keys[i], utxos[keys[i]])),
    decreases n,
{
    let before = spent_for(utxos, keys, list, (n - 1) as nat);
    let spend = spent_for(utxos, keys, list, n);
    if i == n - 1 {
        assert(spend[before.len() as int] == (keys[i], utxos[keys[i]]));
    } else {
        all_are_spent(utxos, keys, list, (n - 1) as nat, i);
        let j = choose|j: int| 0 <= j < before.len() && before[j] == (keys[i], utxos[keys[i]]);
        assert(spend[j] == (keys[i], utxos[keys[i]]));
    }
}

/// What is spent for withdrawals withdraws to one of their addresses.
proof fn spent_are_selected(
    utxos: Map<OutPoint, OutputView>,
    keys: Seq<OutPoint>,
    list: Seq<AggregatedWithdrawalView>,
    n: nat,
)
    ensures
        forall|i: int|
            0 <= i < spent_for(utxos, keys, list, n).len() ==> is_selected(
                (#[trigger] spent_for(utxos, keys, list, n)[i]).1,
                list,
            ),
    decreases n,
{
    if n > 0 {
        spent_are_selected(utxos, keys, list, (n - 1) as nat);
        let before = spent_for(utxos, keys, list, (n - 1) as nat);
        let spend = spent_for(utxos, keys, list, n);
        assert forall|i: int| 0 <= i < spend.len() implies is_selected(
            (#[trigger] spend[i]).1,
            list,
        ) by {
            if i < before.len() {
                assert(spend[i] == before[i]);
            }
        }
    }
}

/// A bundle pays each address that it pays once, and all that is withdrawn to it;
/// it spends exactly the outputs that withdraw to these addresses, and takes all
/// the fees that are offered for them. Where it has room, it pays all addresses.
pub proof fn bundles_pay_in_full(utxos: Map<OutPoint, OutputView>, block_height: u32)
    requires
        utxos.dom().finite(),
    ensures
        drafted(utxos, block_height) matches Ok(Some(draft)) ==> {
            let list = selection(utxos);
            &&& draft.outputs.len() == list.len()
            &&& forall|i: int|
                0 <= i < list.len() ==> (#[trigger] draft.outputs[i]).value == total_to(
                    utxos,
                    list[i].main_address,
                ) && draft.outputs[i].script_pubkey == list[i].main_address.script_pubkey
            &&& forall|i: int|
                0 <= i < list.len() ==> (#[trigger] list[i]).main_fee == total_fee_to(
                    utxos,
                    list[i].main_address,
                )
            &&& draft.fee == fees(list, list.len())
            &&& forall|i: int, j: int|
                #![trigger list[i], list[j]]
                0 <= i < j < list.len() ==> list[i].main_address != list[j].main_address
            &&& forall|k: OutPoint|
                utxos.contains_key(k) && is_selected(utxos[k], list) <==> (
                #[trigger] draft.spend_utxos.contains((k, utxos[k])))
            &&& list.len() < 3122 ==> forall|k: OutPoint| #[trigger]
                is_withdrawal(utxos, k) ==> is_selected(utxos[k], list)
        },
{
    let list = selection(utxos);
    let all = ranking(utxos);
    let keys = ordered(utxos.dom());
    let spend = spent_for(utxos, keys, list, keys.len());
    finite_is_listed(utxos.dom());
    selection_is(utxos);
    ranking_is(utxos);
    spent_are_there(utxos, keys, list, keys.len());
    spent_are_selected(utxos, keys, list, keys.len());
    assert forall|k: OutPoint|
        utxos.contains_key(k) && is_selected(utxos[k], list) <==> (#[trigger] spend.contains(
            (k, utxos[k]),
        )) by {
        if utxos.contains_key(k) && is_selected(utxos[k], list) {
            assert(utxos.dom().contains(k));
            assert(keys.contains(k));
            let i = choose|i: int| 0 <= i < keys.len() && keys[i] == k;
            all_are_spent(utxos, keys, list, keys.len(), i);
        }
        if spend.contains((k, utxos[k])) {
            let i = choose|i: int| 0 <= i < spend.len() && spend[i] == (k, utxos[k]);
            assert(utxos.contains_key(spend[i].0));
            assert(is_selected(spend[i].1, list));
        }
    }
    if list.len() < 3122 && !totals_overflow(utxos) {
        assert forall|k: OutPoint| #[trigger] is_withdrawal(utxos, k) implies is_selected(
            utxos[k],
            list,
        ) by {
            withdrawal_is_put_together(utxos, k);
            let address = address_of(utxos[k]);
            let item = AggregatedWithdrawalView {
                main_address: address,
                value: total_to(utxos, address) as u64,
                main_fee: total_fee_to(utxos, address) as u64,
            };
            assert(all.contains(item));
            let i = choose|i: int| 0 <= i < all.len() && all[i] == item;
            assert(withdraws_to(utxos[k], list[i].main_address));
        }
    }
}

} // verus!
