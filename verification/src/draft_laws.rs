//! What a withdrawal bundle spends, what it pays out, and to whom.
use vstd::prelude::*;

use crate::bundle::{
    aggregates, bundled, comes_first, drafted, fee_to, overflows_at, ranking, selection, spent_for,
    total_fee_to, total_to, totals_overflow, value_to, withdraws_to, AggregatedWithdrawalView,
    BundleDraftView,
};
use crate::bundle_laws::{
    bundles_balance, bundles_pay_in_full, bundles_spend_withdrawals, is_withdrawal,
    nothing_is_drafted_of_nothing, offered, ranking_is,
};
use crate::error::{Error, Fault, Rejection};
use crate::event_laws::has_point;
use crate::ids::M6id;
use crate::mainchain::{address_before, MainAddressView};
use crate::peg_model::listed;
use crate::table::{ordered, Key};
use crate::types::{OutPoint, OutputContentView, OutputView};
use crate::withdrawal::WithdrawalBundleView;

verus! {

/// An output is withdrawn to this mainchain address.
pub open spec fn goes_to(output: OutputView, address: MainAddressView) -> bool {
    match output.content {
        OutputContentView::Withdrawal { main_address, .. } => main_address == address,
        OutputContentView::Value(_) => false,
        OutputContentView::SwapPending { .. } => false,
    }
}

/// The coins that a withdrawal pays out.
pub open spec fn pays(output: OutputView) -> nat {
    match output.content {
        OutputContentView::Withdrawal { value, .. } => value as nat,
        _ => 0,
    }
}

/// The mainchain fee that a withdrawal offers.
pub open spec fn offers(output: OutputView) -> nat {
    match output.content {
        OutputContentView::Withdrawal { main_fee, .. } => main_fee as nat,
        _ => 0,
    }
}

/// What the first `n` outputs pay out to an address.
pub open spec fn sum_to(
    list: Seq<(OutPoint, OutputView)>,
    address: MainAddressView,
    n: nat,
) -> nat
    decreases n,
{
    if n == 0 {
        0
    } else {
        sum_to(list, address, (n - 1) as nat) + if goes_to(list[n - 1].1, address) {
            pays(list[n - 1].1)
        } else {
            0
        }
    }
}

/// The fees that the first `n` outputs offer for withdrawing to an address.
pub open spec fn fee_sum_to(
    list: Seq<(OutPoint, OutputView)>,
    address: MainAddressView,
    n: nat,
) -> nat
    decreases n,
{
    if n == 0 {
        0
    } else {
        fee_sum_to(list, address, (n - 1) as nat) + if goes_to(list[n - 1].1, address) {
            offers(list[n - 1].1)
        } else {
            0
        }
    }
}

/// The fees that the first `n` outputs offer.
pub open spec fn fee_sum(list: Seq<(OutPoint, OutputView)>, n: nat) -> nat
    decreases n,
{
    if n == 0 {
        0
    } else {
        fee_sum(list, (n - 1) as nat) + offers(list[n - 1].1)
    }
}

/// What is withdrawn to an address in all.
pub open spec fn value_for(utxos: Map<OutPoint, OutputView>, address: MainAddressView) -> nat {
    sum_to(listed(utxos), address, listed(utxos).len())
}

/// The fees offered for withdrawing to an address in all.
pub open spec fn fee_for(utxos: Map<OutPoint, OutputView>, address: MainAddressView) -> nat {
    fee_sum_to(listed(utxos), address, listed(utxos).len())
}

/// Something is withdrawn to this address.
pub open spec fn is_paid_to(utxos: Map<OutPoint, OutputView>, address: MainAddressView) -> bool {
    exists|k: OutPoint| #[trigger] utxos.contains_key(k) && goes_to(utxos[k], address)
}

/// Withdrawals to one address are paid out before those to another: if they offer
/// more fees; with equal fees, if they are of more; and with equal amounts, if they
/// are to the later address.
pub open spec fn ranks_before(
    utxos: Map<OutPoint, OutputView>,
    a: MainAddressView,
    b: MainAddressView,
) -> bool {
    ||| fee_for(utxos, a) > fee_for(utxos, b)
    ||| fee_for(utxos, a) == fee_for(utxos, b) && value_for(utxos, a) > value_for(utxos, b)
    ||| fee_for(utxos, a) == fee_for(utxos, b) && value_for(utxos, a) == value_for(utxos, b)
        && address_before(b, a)
}

/// What is withdrawn to some address, or the fees for it, cannot be counted.
pub open spec fn cannot_be_counted(utxos: Map<OutPoint, OutputView>) -> bool {
    exists|address: MainAddressView|
        #[trigger] value_for(utxos, address) > u64::MAX || fee_for(utxos, address) > u64::MAX
}

/// A draft pays out to these addresses. There are some, no more than there is room
/// for and one; no address is there twice; and they rank in order, before all others
/// that something is withdrawn to. Each output pays to the script of its address all
/// that is withdrawn to it. Spent are exactly the outputs that are withdrawn to one of
/// the addresses, as they are, in the order of their outpoints. Where there is room for
/// more, nothing is withdrawn to any other address. The fee is what the spent outputs
/// offer.
pub open spec fn pays_to(
    utxos: Map<OutPoint, OutputView>,
    draft: BundleDraftView,
    addresses: Seq<MainAddressView>,
) -> bool {
    let spend = draft.spend_utxos;
    &&& 0 < addresses.len() <= 3122
    &&& draft.outputs.len() == addresses.len()
    &&& forall|i: int|
        0 <= i < addresses.len() ==> (#[trigger] draft.outputs[i]).value == value_for(
            utxos,
            addresses[i],
        ) && draft.outputs[i].script_pubkey == addresses[i].script_pubkey
    &&& forall|i: int| 0 <= i < addresses.len() ==> is_paid_to(utxos, #[trigger] addresses[i])
    &&& forall|i: int, j: int|
        #![trigger addresses[i], addresses[j]]
        0 <= i < j < addresses.len() ==> addresses[i] != addresses[j] && ranks_before(
            utxos,
            addresses[i],
            addresses[j],
        )
    &&& forall|other: MainAddressView, i: int|
        #![trigger is_paid_to(utxos, other), addresses[i]]
        is_paid_to(utxos, other) && !addresses.contains(other) && 0 <= i < addresses.len()
            ==> addresses.len() == 3122 && ranks_before(utxos, addresses[i], other)
    &&& forall|p: int|
        0 <= p < spend.len() ==> utxos.contains_key((#[trigger] spend[p]).0)
            && utxos[spend[p].0] == spend[p].1
    &&& forall|p: int, q: int|
        #![trigger spend[p], spend[q]]
        0 <= p < q < spend.len() ==> spend[p].0.lt(spend[q].0)
    &&& forall|k: OutPoint| #[trigger]
        has_point(spend, k) <==> utxos.contains_key(k) && exists|i: int|
            0 <= i < addresses.len() && goes_to(utxos[k], #[trigger] addresses[i])
    &&& draft.fee == fee_sum(spend, spend.len())
}

/// What is withdrawn, told in two ways.
proof fn sums_are(
    utxos: Map<OutPoint, OutputView>,
    keys: Seq<OutPoint>,
    address: MainAddressView,
    n: nat,
)
    requires
        keys == ordered(utxos.dom()),
        n <= keys.len(),
    ensures
        value_to(utxos, keys, address, n) == sum_to(listed(utxos), address, n),
        fee_to(utxos, keys, address, n) == fee_sum_to(listed(utxos), address, n),
    decreases n,
{
    if n > 0 {
        sums_are(utxos, keys, address, (n - 1) as nat);
        assert(listed(utxos)[n - 1] == (keys[n - 1], utxos[keys[n - 1]]));
    }
}

/// What is withdrawn to an address in all, told in two ways.
proof fn totals_are(utxos: Map<OutPoint, OutputView>, address: MainAddressView)
    ensures
        total_to(utxos, address) == value_for(utxos, address),
        total_fee_to(utxos, address) == fee_for(utxos, address),
{
    let keys = ordered(utxos.dom());
    sums_are(utxos, keys, address, keys.len());
}

/// The fees that outputs offer, told in two ways.
proof fn fees_are(spend: Seq<(OutPoint, OutputView)>, n: nat)
    ensures
        offered(spend, n) == fee_sum(spend, n),
    decreases n,
{
    if n > 0 {
        fees_are(spend, (n - 1) as nat);
    }
}

/// Withdrawals are too many to count exactly if what is withdrawn to some address, or
/// the fees for it, cannot be counted; this is reported.
pub proof fn withdrawals_must_be_countable(utxos: Map<OutPoint, OutputView>, height: u32)
    ensures
        cannot_be_counted(utxos) <==> drafted(utxos, height) == Err::<
            Option<BundleDraftView>,
            Fault,
        >(Fault::Error(Error::AmountOverflow)),
{
    if totals_overflow(utxos) {
        let address = choose|address: MainAddressView| overflows_at(utxos, address);
        totals_are(utxos, address);
        assert(value_for(utxos, address) > u64::MAX || fee_for(utxos, address) > u64::MAX);
    }
    if cannot_be_counted(utxos) {
        let address = choose|address: MainAddressView|
            #[trigger] value_for(utxos, address) > u64::MAX || fee_for(utxos, address) > u64::MAX;
        totals_are(utxos, address);
        assert(overflows_at(utxos, address));
    }
}

/// Where something is withdrawn, and it can be counted, with the fees, there is a
/// draft; where nothing is, there is none.
pub proof fn withdrawals_are_drafted(utxos: Map<OutPoint, OutputView>, height: u32)
    requires
        utxos.dom().finite(),
    ensures
        (forall|k: OutPoint| #[trigger]
            utxos.contains_key(k) ==> !(utxos[k].content is Withdrawal)) ==> drafted(utxos, height)
            == Ok::<Option<BundleDraftView>, Fault>(None),
        (exists|k: OutPoint| #[trigger] utxos.contains_key(k) && utxos[k].content is Withdrawal)
            && !cannot_be_counted(utxos) && fee_sum(listed(utxos), listed(utxos).len()) <= u64::MAX
            ==> drafted(utxos, height) matches Ok(Some(_)),
{
    nothing_is_drafted_of_nothing(utxos, height);
    withdrawals_must_be_countable(utxos, height);
    if forall|k: OutPoint| #[trigger]
        utxos.contains_key(k) ==> !(utxos[k].content is Withdrawal) {
        assert forall|k: OutPoint| !#[trigger] is_withdrawal(utxos, k) by {
            if is_withdrawal(utxos, k) {
                assert(utxos.contains_key(k));
            }
        }
    }
    if exists|k: OutPoint| #[trigger] utxos.contains_key(k) && utxos[k].content is Withdrawal {
        let k = choose|k: OutPoint| #[trigger]
            utxos.contains_key(k) && utxos[k].content is Withdrawal;
        assert(is_withdrawal(utxos, k));
    }
    let keys = ordered(utxos.dom());
    let list = selection(utxos);
    crate::bundle_laws::fees_are_offered(utxos);
    let spend = spent_for(utxos, keys, list, keys.len());
    spent_offer_less(utxos, keys, list, keys.len());
    fees_are(spend, spend.len());
}

/// What is spent offers no more fees than what is there.
proof fn spent_offer_less(
    utxos: Map<OutPoint, OutputView>,
    keys: Seq<OutPoint>,
    list: Seq<AggregatedWithdrawalView>,
    n: nat,
)
    requires
        keys == ordered(utxos.dom()),
        n <= keys.len(),
    ensures
        fee_sum(spent_for(utxos, keys, list, n), spent_for(utxos, keys, list, n).len()) <= fee_sum(
            listed(utxos),
            n,
        ),
    decreases n,
{
    if n > 0 {
        spent_offer_less(utxos, keys, list, (n - 1) as nat);
        let before = spent_for(utxos, keys, list, (n - 1) as nat);
        let after = spent_for(utxos, keys, list, n);
        assert(listed(utxos)[n - 1] == (keys[n - 1], utxos[keys[n - 1]]));
        if after.len() > before.len() {
            same_fees(before, after, before.len());
        }
    }
}

/// Lists that start alike offer the same fees there.
proof fn same_fees(a: Seq<(OutPoint, OutputView)>, b: Seq<(OutPoint, OutputView)>, n: nat)
    requires
        n <= a.len(),
        n <= b.len(),
        forall|i: int| 0 <= i < n ==> #[trigger] a[i] == b[i],
    ensures
        fee_sum(a, n) == fee_sum(b, n),
    decreases n,
{
    if n > 0 {
        same_fees(a, b, (n - 1) as nat);
    }
}

/// A draft of a bundle is for this height, and pays out to those addresses that rank
/// first of all that something is withdrawn to, all that is withdrawn to each.
pub proof fn drafts_pay_withdrawals_out(utxos: Map<OutPoint, OutputView>, height: u32)
    requires
        utxos.dom().finite(),
    ensures
        drafted(utxos, height) matches Ok(Some(draft)) ==> draft.block_height == height
            && exists|addresses: Seq<MainAddressView>| #[trigger]
            pays_to(utxos, draft, addresses),
{
    if let Ok(Some(draft)) = drafted(utxos, height) {
        let list = selection(utxos);
        let all = ranking(utxos);
        let addresses = Seq::new(list.len(), |i: int| list[i].main_address);
        let before = |a: AggregatedWithdrawalView, b: AggregatedWithdrawalView| comes_first(a, b);
        let spend = draft.spend_utxos;
        bundles_balance(utxos, height);
        bundles_pay_in_full(utxos, height);
        bundles_spend_withdrawals(utxos, height);
        ranking_is(utxos);
        fees_are(spend, spend.len());
        assert forall|i: int| 0 <= i < addresses.len() implies (#[trigger] draft.outputs[i]).value
            == value_for(utxos, addresses[i]) && draft.outputs[i].script_pubkey
            == addresses[i].script_pubkey by {
            totals_are(utxos, addresses[i]);
        }
        assert forall|i: int| 0 <= i < addresses.len() implies is_paid_to(
            utxos,
            #[trigger] addresses[i],
        ) by {
            assert(all[i] == list[i]);
            assert(all.contains(all[i]));
            assert(aggregates(utxos).contains(list[i]));
            let k = choose|k: OutPoint| #[trigger]
                utxos.contains_key(k) && withdraws_to(utxos[k], addresses[i]);
            assert(goes_to(utxos[k], addresses[i]));
        }
        assert forall|i: int, j: int|
            #![trigger addresses[i], addresses[j]]
            0 <= i < j < addresses.len() implies addresses[i] != addresses[j] && ranks_before(
            utxos,
            addresses[i],
            addresses[j],
        ) by {
            assert(all[i] == list[i] && all[j] == list[j]);
            assert(before(all[i], all[j]));
            assert(all.contains(all[i]) && all.contains(all[j]));
            assert(aggregates(utxos).contains(all[i]) && aggregates(utxos).contains(all[j]));
            ranked_as(utxos, all[i], all[j]);
        }
        assert forall|other: MainAddressView, i: int|
            #![trigger is_paid_to(utxos, other), addresses[i]]
            is_paid_to(utxos, other) && !addresses.contains(other) && 0 <= i
                < addresses.len() implies addresses.len() == 3122 && ranks_before(
            utxos,
            addresses[i],
            other,
        ) by {
            let k = choose|k: OutPoint| #[trigger]
                utxos.contains_key(k) && goes_to(utxos[k], other);
            assert(withdraws_to(utxos[k], other));
            assert(!overflows_at(utxos, other));
            let item = AggregatedWithdrawalView {
                main_address: other,
                value: total_to(utxos, other) as u64,
                main_fee: total_fee_to(utxos, other) as u64,
            };
            assert(aggregates(utxos).contains(item));
            assert(all.contains(item));
            let p = choose|p: int| 0 <= p < all.len() && all[p] == item;
            if p < list.len() {
                assert(list[p] == item);
                assert(addresses[p] == other);
            }
            assert(all[i] == list[i]);
            assert(before(all[i], all[p]));
            assert(all.contains(all[i]));
            assert(aggregates(utxos).contains(all[i]));
            ranked_as(utxos, all[i], item);
        }
        assert forall|k: OutPoint| #[trigger] has_point(spend, k) <==> utxos.contains_key(k)
            && exists|i: int|
            0 <= i < addresses.len() && goes_to(utxos[k], #[trigger] addresses[i]) by {
            if has_point(spend, k) {
                let p = choose|p: int| 0 <= p < spend.len() && (#[trigger] spend[p]).0 == k;
                assert(spend[p] == (k, utxos[k]));
                assert(spend.contains((k, utxos[k])));
                let i = choose|i: int|
                    0 <= i < list.len() && withdraws_to(utxos[k], (#[trigger] list[i]).main_address);
                assert(goes_to(utxos[k], addresses[i]));
            }
            if utxos.contains_key(k) && exists|i: int|
                0 <= i < addresses.len() && goes_to(utxos[k], #[trigger] addresses[i]) {
                let i = choose|i: int|
                    0 <= i < addresses.len() && goes_to(utxos[k], #[trigger] addresses[i]);
                assert(withdraws_to(utxos[k], list[i].main_address));
                assert(spend.contains((k, utxos[k])));
                let p = choose|p: int| 0 <= p < spend.len() && spend[p] == (k, utxos[k]);
                assert(spend[p].0 == k);
            }
        }
        assert(pays_to(utxos, draft, addresses));
    }
}

/// What comes first ranks before.
proof fn ranked_as(
    utxos: Map<OutPoint, OutputView>,
    a: AggregatedWithdrawalView,
    b: AggregatedWithdrawalView,
)
    requires
        comes_first(a, b),
        a.value == total_to(utxos, a.main_address),
        a.main_fee == total_fee_to(utxos, a.main_address),
        b.value == total_to(utxos, b.main_address),
        b.main_fee == total_fee_to(utxos, b.main_address),
    ensures
        ranks_before(utxos, a.main_address, b.main_address),
{
    totals_are(utxos, a.main_address);
    totals_are(utxos, b.main_address);
}

/// A bundle that was built has the name that it was built under, and is that of its
/// draft; one that could not be built is reported, with the reason.
pub proof fn bundles_are_those_of_their_drafts(draft: BundleDraftView, m6id: M6id, why: Rejection)
    ensures
        bundled(draft, Ok(m6id)) matches Ok(bundle) && {
            &&& bundle.m6id == m6id
            &&& bundle.fee == draft.fee
            &&& bundle.spend_utxos == draft.spend_utxos
            &&& bundle.outputs == draft.outputs
        },
        bundled(draft, Err(why)) == Err::<WithdrawalBundleView, Fault>(
            Fault::Error(Error::WithdrawalBundle(why)),
        ),
{
}

} // verus!
