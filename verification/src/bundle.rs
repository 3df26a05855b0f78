//! Putting withdrawals together into a bundle.
use vstd::prelude::*;

use crate::error::{Error, Fault, Halt, Rejection};
use crate::ids::M6id;
use crate::mainchain::{
    address_before, addresses_ordered, is_address_script, MainAddress, MainAddressView, TxOut,
    TxOutView,
};
use crate::order::{arrangement, arrangement_is, arranges, is_strict};
use crate::state::State;
use crate::table::{lists, ordered};
use crate::types::{OutPoint, Output, OutputContent, OutputContentView, OutputView};
use crate::withdrawal::{pointed, WithdrawalBundle, WithdrawalBundleView};

verus! {

/// The weight of a bundle without outputs.
pub const BUNDLE_0_WEIGHT: u64 = 504;

/// The weight of an output of a bundle.
pub const OUTPUT_WEIGHT: u64 = 128;

/// Reads `bitcoin`'s `policy::MAX_STANDARD_TX_WEIGHT`. The contract says what
/// the constant is.
#[verifier::external_body]
fn max_standard_tx_weight() -> (r: u32)
    ensures
        r == 400_000,
{
    bitcoin::policy::MAX_STANDARD_TX_WEIGHT
}

/// How many outputs of the usual weight a bundle has room for.
pub fn max_bundle_outputs() -> (r: usize)
    ensures
        r == (400_000 - BUNDLE_0_WEIGHT) / OUTPUT_WEIGHT as int,
        r == 3121,
{
    ((max_standard_tx_weight() as u64 - BUNDLE_0_WEIGHT) / OUTPUT_WEIGHT) as usize
}

/// The withdrawals to one mainchain address.
pub struct AggregatedWithdrawal {
    pub main_address: MainAddress,
    pub value: u64,
    pub main_fee: u64,
}

#[verifier::ext_equal]
pub struct AggregatedWithdrawalView {
    pub main_address: MainAddressView,
    pub value: u64,
    pub main_fee: u64,
}

impl DeepView for AggregatedWithdrawal {
    type V = AggregatedWithdrawalView;

    open spec fn deep_view(&self) -> AggregatedWithdrawalView {
        AggregatedWithdrawalView {
            main_address: self.main_address.deep_view(),
            value: self.value,
            main_fee: self.main_fee,
        }
    }
}

impl Clone for AggregatedWithdrawal {
    fn clone(&self) -> (r: AggregatedWithdrawal)
        ensures
            r.deep_view() == self.deep_view(),
    {
        AggregatedWithdrawal {
            main_address: self.main_address.clone(),
            value: self.value,
            main_fee: self.main_fee,
        }
    }
}

/// The output withdraws to `address`.
pub open spec fn withdraws_to(output: OutputView, address: MainAddressView) -> bool {
    match output.content {
        OutputContentView::Withdrawal { main_address, .. } => main_address == address,
        _ => false,
    }
}

/// The mainchain fee that the output offers.
pub open spec fn fee_of(output: OutputView) -> u64 {
    match output.content {
        OutputContentView::Withdrawal { main_fee, .. } => main_fee,
        _ => 0,
    }
}

/// What the outputs at the first `n` of `keys` withdraw to `address`.
pub open spec fn value_to(
    utxos: Map<OutPoint, OutputView>,
    keys: Seq<OutPoint>,
    address: MainAddressView,
    n: nat,
) -> nat
    decreases n,
{
    if n == 0 {
        0
    } else {
        let before = value_to(utxos, keys, address, (n - 1) as nat);
        let output = utxos[keys[n - 1]];
        if withdraws_to(output, address) {
            before + output.content.value() as nat
        } else {
            before
        }
    }
}

/// The fees that the outputs at the first `n` of `keys` offer for withdrawing
/// to `address`.
pub open spec fn fee_to(
    utxos: Map<OutPoint, OutputView>,
    keys: Seq<OutPoint>,
    address: MainAddressView,
    n: nat,
) -> nat
    decreases n,
{
    if n == 0 {
        0
    } else {
        let before = fee_to(utxos, keys, address, (n - 1) as nat);
        let output = utxos[keys[n - 1]];
        if withdraws_to(output, address) {
            before + fee_of(output) as nat
        } else {
            before
        }
    }
}

/// What is withdrawn to `address` in all.
pub open spec fn total_to(utxos: Map<OutPoint, OutputView>, address: MainAddressView) -> nat {
    value_to(utxos, ordered(utxos.dom()), address, ordered(utxos.dom()).len())
}

/// The fees offered for withdrawing to `address` in all.
pub open spec fn total_fee_to(utxos: Map<OutPoint, OutputView>, address: MainAddressView) -> nat {
    fee_to(utxos, ordered(utxos.dom()), address, ordered(utxos.dom()).len())
}

/// Some output withdraws to `address`.
pub open spec fn is_withdrawn_to(utxos: Map<OutPoint, OutputView>, address: MainAddressView) -> bool {
    exists|k: OutPoint| #[trigger] utxos.contains_key(k) && withdraws_to(utxos[k], address)
}

/// The totals to `address` cannot be counted.
pub open spec fn overflows_at(utxos: Map<OutPoint, OutputView>, address: MainAddressView) -> bool {
    total_to(utxos, address) > u64::MAX || total_fee_to(utxos, address) > u64::MAX
}

/// The totals to some address cannot be counted.
pub open spec fn totals_overflow(utxos: Map<OutPoint, OutputView>) -> bool {
    exists|address: MainAddressView| overflows_at(utxos, address)
}

/// The withdrawals, put together by address.
pub open spec fn aggregates(utxos: Map<OutPoint, OutputView>) -> Set<AggregatedWithdrawalView> {
    Set::new(
        |a: AggregatedWithdrawalView|
            is_withdrawn_to(utxos, a.main_address) && a.value == total_to(utxos, a.main_address)
                && a.main_fee == total_fee_to(utxos, a.main_address),
    )
}

/// Which withdrawals come first: those that offer more fees, then those that
/// withdraw more, then those to the later address.
pub open spec fn comes_first(a: AggregatedWithdrawalView, b: AggregatedWithdrawalView) -> bool {
    a.main_fee > b.main_fee || (a.main_fee == b.main_fee && (a.value > b.value || (a.value
        == b.value && address_before(b.main_address, a.main_address))))
}

/// The withdrawals by address, the first to be paid out first.
pub open spec fn ranking(utxos: Map<OutPoint, OutputView>) -> Seq<AggregatedWithdrawalView> {
    arrangement(
        aggregates(utxos),
        |a: AggregatedWithdrawalView, b: AggregatedWithdrawalView| comes_first(a, b),
    )
}

/// The withdrawals that go into a bundle: as many as there is room for, and one
/// more.
pub open spec fn selection(utxos: Map<OutPoint, OutputView>) -> Seq<AggregatedWithdrawalView> {
    let all = ranking(utxos);
    if all.len() > 3122 {
        all.take(3122)
    } else {
        all
    }
}

/// The fees of the first `n` withdrawals.
pub open spec fn fees(list: Seq<AggregatedWithdrawalView>, n: nat) -> nat
    decreases n,
{
    if n == 0 {
        0
    } else {
        fees(list, (n - 1) as nat) + list[n - 1].main_fee as nat
    }
}

/// The output withdraws to one of the addresses of `list`.
pub open spec fn is_selected(output: OutputView, list: Seq<AggregatedWithdrawalView>) -> bool {
    exists|i: int|
        0 <= i < list.len() && withdraws_to(output, (#[trigger] list[i]).main_address)
}

/// The outputs at the first `n` of `keys` that withdraw to an address of `list`.
pub open spec fn spent_for(
    utxos: Map<OutPoint, OutputView>,
    keys: Seq<OutPoint>,
    list: Seq<AggregatedWithdrawalView>,
    n: nat,
) -> Seq<(OutPoint, OutputView)>
    decreases n,
{
    if n == 0 {
        Seq::empty()
    } else {
        let before = spent_for(utxos, keys, list, (n - 1) as nat);
        if is_selected(utxos[keys[n - 1]], list) {
            before.push((keys[n - 1], utxos[keys[n - 1]]))
        } else {
            before
        }
    }
}

/// What pays withdrawals out.
pub open spec fn payouts(list: Seq<AggregatedWithdrawalView>) -> Seq<TxOutView> {
    Seq::new(
        list.len(),
        |i: int|
            TxOutView {
                value: list[i].value,
                script_pubkey: list[i].main_address.script_pubkey,
            },
    )
}

/// What a bundle is built from.
pub struct BundleDraft {
    pub block_height: u32,
    pub fee: u64,
    pub spend_utxos: Vec<(OutPoint, Output)>,
    pub outputs: Vec<TxOut>,
}

#[verifier::ext_equal]
pub struct BundleDraftView {
    pub block_height: u32,
    pub fee: u64,
    pub spend_utxos: Seq<(OutPoint, OutputView)>,
    pub outputs: Seq<TxOutView>,
}

impl DeepView for BundleDraft {
    type V = BundleDraftView;

    open spec fn deep_view(&self) -> BundleDraftView {
        BundleDraftView {
            block_height: self.block_height,
            fee: self.fee,
            spend_utxos: pointed(self.spend_utxos@),
            outputs: self.outputs.deep_view(),
        }
    }
}

impl BundleDraftView {
    /// The bundle, once its name is known.
    pub open spec fn named(self, m6id: M6id) -> WithdrawalBundleView {
        WithdrawalBundleView {
            m6id,
            fee: self.fee,
            spend_utxos: self.spend_utxos,
            outputs: self.outputs,
        }
    }
}

/// What a bundle is built from at this height; `None` where nothing is
/// withdrawn.
pub open spec fn drafted(utxos: Map<OutPoint, OutputView>, block_height: u32) -> Result<
    Option<BundleDraftView>,
    Fault,
> {
    let list = selection(utxos);
    let keys = ordered(utxos.dom());
    if totals_overflow(utxos) {
        Err(Fault::Error(Error::AmountOverflow))
    } else if list.len() == 0 {
        Ok(None)
    } else if fees(list, list.len()) > u64::MAX {
        Err(Fault::Halt(Halt::OutOfRange))
    } else {
        Ok(
            Some(
                BundleDraftView {
                    block_height,
                    fee: fees(list, list.len()) as u64,
                    spend_utxos: spent_for(utxos, keys, list, keys.len()),
                    outputs: payouts(list),
                },
            ),
        )
    }
}

/// The order of withdrawals is strict.
pub proof fn comes_first_is_strict()
    ensures
        is_strict(|a: AggregatedWithdrawalView, b: AggregatedWithdrawalView| comes_first(a, b)),
{
    let before = |a: AggregatedWithdrawalView, b: AggregatedWithdrawalView| comes_first(a, b);
    assert forall|x: AggregatedWithdrawalView| !#[trigger] before(x, x) by {
        addresses_ordered(x.main_address, x.main_address, x.main_address);
    }
    assert forall|
        x: AggregatedWithdrawalView,
        y: AggregatedWithdrawalView,
        z: AggregatedWithdrawalView,
    | #[trigger] before(x, y) && #[trigger] before(y, z) implies before(x, z) by {
        addresses_ordered(z.main_address, y.main_address, x.main_address);
    }
}

/// Sums over more outputs are no smaller.
proof fn sums_grow(
    utxos: Map<OutPoint, OutputView>,
    keys: Seq<OutPoint>,
    address: MainAddressView,
    i: nat,
    n: nat,
)
    requires
        i <= n,
    ensures
        value_to(utxos, keys, address, i) <= value_to(utxos, keys, address, n),
        fee_to(utxos, keys, address, i) <= fee_to(utxos, keys, address, n),
    decreases n - i,
{
    if i < n {
        sums_grow(utxos, keys, address, i, (n - 1) as nat);
    }
}

/// Where nothing is withdrawn to an address, the sums are 0.
pub(crate) proof fn sums_of_none(
    utxos: Map<OutPoint, OutputView>,
    keys: Seq<OutPoint>,
    address: MainAddressView,
    n: nat,
)
    requires
        n <= keys.len(),
        forall|j: int| 0 <= j < n ==> !withdraws_to(utxos[#[trigger] keys[j]], address),
    ensures
        value_to(utxos, keys, address, n) == 0,
        fee_to(utxos, keys, address, n) == 0,
    decreases n,
{
    if n > 0 {
        assert(!withdraws_to(utxos[keys[n - 1]], address));
        sums_of_none(utxos, keys, address, (n - 1) as nat);
    }
}

/// `list` puts the withdrawals at the first `n` of `keys` together by address.
spec fn puts_together(
    list: Seq<AggregatedWithdrawalView>,
    utxos: Map<OutPoint, OutputView>,
    keys: Seq<OutPoint>,
    n: nat,
) -> bool {
    &&& forall|i: int, j: int|
        #![trigger list[i], list[j]]
        0 <= i < j < list.len() ==> list[i].main_address != list[j].main_address
    &&& forall|i: int|
        0 <= i < list.len() ==> (#[trigger] list[i]).value == value_to(
            utxos,
            keys,
            list[i].main_address,
            n,
        ) && list[i].main_fee == fee_to(utxos, keys, list[i].main_address, n)
    &&& forall|i: int|
        0 <= i < list.len() ==> exists|j: int|
            0 <= j < n && withdraws_to(
                utxos[#[trigger] keys[j]],
                (#[trigger] list[i]).main_address,
            )
    &&& forall|j: int, address: MainAddressView|
        0 <= j < n && #[trigger] withdraws_to(utxos[keys[j]], address) ==> exists|i: int|
            0 <= i < list.len() && (#[trigger] list[i]).main_address == address
}

/// The place of an address in a list.
fn find_address(list: &Vec<AggregatedWithdrawal>, address: &MainAddress) -> (r: Option<usize>)
    ensures
        match r {
            Some(i) => i < list@.len() && list@[i as int].main_address.deep_view()
                == address.deep_view(),
            None => forall|i: int|
                0 <= i < list@.len() ==> (#[trigger] list@[i]).main_address.deep_view()
                    != address.deep_view(),
        },
{
    let n: usize = list.len();
    for i in 0..n
        invariant
            n == list@.len(),
            forall|j: int|
                0 <= j < i ==> (#[trigger] list@[j]).main_address.deep_view()
                    != address.deep_view(),
    {
        if list[i].main_address.same(address) {
            return Some(i);
        }
    }
    None
}

/// An output that withdraws nothing changes nothing.
proof fn puts_none_more(
    list: Seq<AggregatedWithdrawalView>,
    utxos: Map<OutPoint, OutputView>,
    keys: Seq<OutPoint>,
    n: nat,
)
    requires
        n < keys.len(),
        puts_together(list, utxos, keys, n),
        !(utxos[keys[n as int]].content is Withdrawal),
    ensures
        puts_together(list, utxos, keys, n + 1),
{
    assert forall|i: int| 0 <= i < list.len() implies exists|j: int|
        0 <= j < n + 1 && withdraws_to(
            utxos[#[trigger] keys[j]],
            (#[trigger] list[i]).main_address,
        ) by {
        let j = choose|j: int|
            0 <= j < n && withdraws_to(utxos[#[trigger] keys[j]], list[i].main_address);
        assert(withdraws_to(utxos[keys[j]], list[i].main_address));
    }
}

/// A withdrawal to an address that is not listed yet is added to the list.
proof fn puts_new(
    list: Seq<AggregatedWithdrawalView>,
    utxos: Map<OutPoint, OutputView>,
    keys: Seq<OutPoint>,
    n: nat,
    item: AggregatedWithdrawalView,
)
    requires
        n < keys.len(),
        puts_together(list, utxos, keys, n),
        withdraws_to(utxos[keys[n as int]], item.main_address),
        item.value == utxos[keys[n as int]].content.value(),
        item.main_fee == fee_of(utxos[keys[n as int]]),
        forall|i: int| 0 <= i < list.len() ==> (#[trigger] list[i]).main_address
            != item.main_address,
    ensures
        puts_together(list.push(item), utxos, keys, n + 1),
{
    let after = list.push(item);
    let address = item.main_address;
    assert forall|j: int| 0 <= j < n implies !withdraws_to(
        utxos[#[trigger] keys[j]],
        address,
    ) by {
        if withdraws_to(utxos[keys[j]], address) {
            let i = choose|i: int|
                0 <= i < list.len() && (#[trigger] list[i]).main_address == address;
            assert(list[i].main_address != address);
        }
    }
    sums_of_none(utxos, keys, address, n);
    assert forall|i: int| 0 <= i < after.len() implies exists|j: int|
        0 <= j < n + 1 && withdraws_to(
            utxos[#[trigger] keys[j]],
            (#[trigger] after[i]).main_address,
        ) by {
        if i < list.len() {
            assert(after[i] == list[i]);
            let j = choose|j: int|
                0 <= j < n && withdraws_to(utxos[#[trigger] keys[j]], list[i].main_address);
            assert(withdraws_to(utxos[keys[j]], after[i].main_address));
        } else {
            assert(withdraws_to(utxos[keys[n as int]], after[i].main_address));
        }
    }
    assert forall|j: int, a: MainAddressView|
        0 <= j < n + 1 && #[trigger] withdraws_to(utxos[keys[j]], a) implies exists|i: int|
        0 <= i < after.len() && (#[trigger] after[i]).main_address == a by {
        if j < n {
            let i = choose|i: int| 0 <= i < list.len() && (#[trigger] list[i]).main_address == a;
            assert(after[i].main_address == a);
        } else {
            assert(after[list.len() as int].main_address == a);
        }
    }
}

/// A withdrawal to an address that is listed is added to what is there.
proof fn puts_more(
    list: Seq<AggregatedWithdrawalView>,
    utxos: Map<OutPoint, OutputView>,
    keys: Seq<OutPoint>,
    n: nat,
    p: int,
    item: AggregatedWithdrawalView,
)
    requires
        n < keys.len(),
        puts_together(list, utxos, keys, n),
        0 <= p < list.len(),
        withdraws_to(utxos[keys[n as int]], item.main_address),
        list[p].main_address == item.main_address,
        item.value == list[p].value + utxos[keys[n as int]].content.value(),
        item.main_fee == list[p].main_fee + fee_of(utxos[keys[n as int]]),
    ensures
        puts_together(list.update(p, item), utxos, keys, n + 1),
{
    let after = list.update(p, item);
    assert(forall|i: int|
        0 <= i < list.len() ==> (#[trigger] after[i]).main_address == list[i].main_address);
    assert forall|i: int| 0 <= i < after.len() implies (#[trigger] after[i]).value == value_to(
        utxos,
        keys,
        after[i].main_address,
        n + 1,
    ) && after[i].main_fee == fee_to(utxos, keys, after[i].main_address, n + 1) by {
        assert(list[i].value == value_to(utxos, keys, list[i].main_address, n));
        if i != p {
            assert(list[i].main_address != list[p].main_address);
        }
    }
    assert forall|i: int| 0 <= i < after.len() implies exists|j: int|
        0 <= j < n + 1 && withdraws_to(
            utxos[#[trigger] keys[j]],
            (#[trigger] after[i]).main_address,
        ) by {
        assert(list[i].main_address == after[i].main_address);
        let j = choose|j: int|
            0 <= j < n && withdraws_to(utxos[#[trigger] keys[j]], list[i].main_address);
        assert(withdraws_to(utxos[keys[j]], after[i].main_address));
    }
    assert forall|j: int, a: MainAddressView|
        0 <= j < n + 1 && #[trigger] withdraws_to(utxos[keys[j]], a) implies exists|i: int|
        0 <= i < after.len() && (#[trigger] after[i]).main_address == a by {
        if j < n {
            let i = choose|i: int| 0 <= i < list.len() && (#[trigger] list[i]).main_address == a;
            assert(after[i].main_address == a);
        } else {
            assert(after[p].main_address == a);
        }
    }
}

/// Puts withdrawals together by address.
fn aggregate(state: &State) -> (r: Result<Vec<AggregatedWithdrawal>, Error>)
    ensures
        match r {
            Ok(list) => {
                let keys = ordered(state@.utxos.dom());
                &&& !totals_overflow(state@.utxos)
                &&& lists(keys, state@.utxos.dom())
                &&& puts_together(list.deep_view(), state@.utxos, keys, keys.len())
            },
            Err(e) => totals_overflow(state@.utxos) && e == Error::AmountOverflow,
        },
{
    let keys = state.utxos.keys();
    let ghost utxos = state@.utxos;
    let mut list: Vec<AggregatedWithdrawal> = Vec::new();
    let n: usize = keys.len();
    assert(puts_together(list.deep_view(), utxos, keys@, 0));
    for i in 0..n
        invariant
            n == keys@.len(),
            utxos == state@.utxos,
            keys@ == ordered(utxos.dom()),
            lists(keys@, utxos.dom()),
            puts_together(list.deep_view(), utxos, keys@, i as nat),
    {
        assert(keys@.contains(keys@[i as int]));
        let ghost before = list.deep_view();
        let output = state.utxos.try_get(&keys[i]).unwrap();
        match &output.content {
            OutputContent::Withdrawal { value, main_fee, main_address } => {
                let ghost address = main_address.deep_view();
                proof {
                    sums_grow(utxos, keys@, address, (i + 1) as nat, n as nat);
                }
                match find_address(&list, main_address) {
                    Some(p) => {
                        assert(before[p as int] == list@[p as int].deep_view());
                        assert(before[p as int].value == value_to(
                            utxos,
                            keys@,
                            address,
                            i as nat,
                        ));
                        let (sum, fee) = match (
                            list[p].value.checked_add(*value),
                            list[p].main_fee.checked_add(*main_fee),
                        ) {
                            (Some(sum), Some(fee)) => (sum, fee),
                            _ => {
                                assert(overflows_at(utxos, address));
                                return Err(Error::AmountOverflow);
                            },
                        };
                        let item = AggregatedWithdrawal {
                            main_address: main_address.clone(),
                            value: sum,
                            main_fee: fee,
                        };
                        list.set(p, item);
                        proof {
                            puts_more(
                                before,
                                utxos,
                                keys@,
                                i as nat,
                                p as int,
                                item.deep_view(),
                            );
                            assert(list.deep_view() =~= before.update(
                                p as int,
                                item.deep_view(),
                            ));
                        }
                    },
                    None => {
                        assert forall|j: int| 0 <= j < before.len() implies (
                        #[trigger] before[j]).main_address != address by {
                            assert(before[j] == list@[j].deep_view());
                        }
                        let item = AggregatedWithdrawal {
                            main_address: main_address.clone(),
                            value: *value,
                            main_fee: *main_fee,
                        };
                        list.push(item);
                        proof {
                            puts_new(before, utxos, keys@, i as nat, item.deep_view());
                            assert(list.deep_view() =~= before.push(item.deep_view()));
                        }
                    },
                }
            },
            _ => {
                proof {
                    puts_none_more(before, utxos, keys@, i as nat);
                }
            },
        }
    }
    proof {
        let all = list.deep_view();
        assert forall|address: MainAddressView| !overflows_at(utxos, address) by {
            if exists|j: int| 0 <= j < n && withdraws_to(utxos[#[trigger] keys@[j]], address) {
                let j = choose|j: int|
                    0 <= j < n && withdraws_to(utxos[#[trigger] keys@[j]], address);
                let i = choose|i: int|
                    0 <= i < all.len() && (#[trigger] all[i]).main_address == address;
                assert(all[i].value == value_to(utxos, keys@, all[i].main_address, n as nat));
            } else {
                sums_of_none(utxos, keys@, address, n as nat);
            }
        }
    }
    Ok(list)
}

/// Withdrawals that were put together are those that there are.
proof fn puts_all_together(list: Seq<AggregatedWithdrawalView>, utxos: Map<OutPoint, OutputView>)
    requires
        lists(ordered(utxos.dom()), utxos.dom()),
        puts_together(list, utxos, ordered(utxos.dom()), ordered(utxos.dom()).len()),
    ensures
        forall|x: AggregatedWithdrawalView|
            aggregates(utxos).contains(x) <==> #[trigger] list.contains(x),
{
    let keys = ordered(utxos.dom());
    assert forall|x: AggregatedWithdrawalView|
        aggregates(utxos).contains(x) <==> #[trigger] list.contains(x) by {
        let address = x.main_address;
        if aggregates(utxos).contains(x) {
            let k = choose|k: OutPoint| #[trigger]
                utxos.contains_key(k) && withdraws_to(utxos[k], address);
            assert(utxos.dom().contains(k));
            assert(keys.contains(k));
            let j = choose|j: int| 0 <= j < keys.len() && keys[j] == k;
            assert(withdraws_to(utxos[keys[j]], address));
            let i = choose|i: int|
                0 <= i < list.len() && (#[trigger] list[i]).main_address == address;
            assert(list[i].value == value_to(utxos, keys, list[i].main_address, keys.len()));
            assert(list[i] == x);
        }
        if list.contains(x) {
            let i = choose|i: int| 0 <= i < list.len() && list[i] == x;
            assert(list[i].value == value_to(utxos, keys, list[i].main_address, keys.len()));
            let j = choose|j: int|
                0 <= j < keys.len() && withdraws_to(
                    utxos[#[trigger] keys[j]],
                    list[i].main_address,
                );
            assert(keys.contains(keys[j]));
            assert(utxos.contains_key(keys[j]));
            assert(withdraws_to(utxos[keys[j]], address));
        }
    }
}

/// Tells which of two withdrawals comes first.
fn precedes(a: &AggregatedWithdrawal, b: &AggregatedWithdrawal) -> (r: bool)
    ensures
        r == comes_first(a.deep_view(), b.deep_view()),
{
    a.main_fee > b.main_fee || (a.main_fee == b.main_fee && (a.value > b.value || (a.value
        == b.value && b.main_address.precedes(&a.main_address))))
}

/// In order.
spec fn is_ranked(s: Seq<AggregatedWithdrawalView>) -> bool {
    forall|i: int, j: int|
        #![trigger s[i], s[j]]
        0 <= i < j < s.len() ==> comes_first(s[i], s[j])
}

/// An item that is put between those that come before it and those that come
/// after it keeps a list in order.
proof fn insert_keeps_rank(s: Seq<AggregatedWithdrawalView>, p: int, x: AggregatedWithdrawalView)
    requires
        is_ranked(s),
        0 <= p <= s.len(),
        forall|i: int| 0 <= i < p ==> comes_first(#[trigger] s[i], x),
        p < s.len() ==> comes_first(x, s[p]),
    ensures
        is_ranked(s.insert(p, x)),
        forall|y: AggregatedWithdrawalView| #[trigger]
            s.insert(p, x).contains(y) <==> s.contains(y) || y == x,
{
    let t = s.insert(p, x);
    comes_first_is_strict();
    let before = |a: AggregatedWithdrawalView, b: AggregatedWithdrawalView| comes_first(a, b);
    assert forall|i: int, j: int|
        #![trigger t[i], t[j]]
        0 <= i < j < t.len() implies comes_first(t[i], t[j]) by {
        if i == p && j > p + 1 {
            assert(comes_first(s[p], s[j - 1]));
            assert(before(x, s[p]) && before(s[p], s[j - 1]));
            assert(before(x, s[j - 1]));
        } else if i > p {
            assert(comes_first(s[i - 1], s[j - 1]));
        } else if i < p && j > p {
            assert(comes_first(s[i], s[j - 1]));
        } else if i < p && j < p {
            assert(comes_first(s[i], s[j]));
        }
    }
    assert forall|y: AggregatedWithdrawalView| #[trigger]
        t.contains(y) <==> s.contains(y) || y == x by {
        if t.contains(y) {
            let i = choose|i: int| 0 <= i < t.len() && t[i] == y;
            if i < p {
                assert(s[i] == y);
            } else if i > p {
                assert(s[i - 1] == y);
            }
        }
        if s.contains(y) {
            let i = choose|i: int| 0 <= i < s.len() && s[i] == y;
            if i < p {
                assert(t[i] == y);
            } else {
                assert(t[i + 1] == y);
            }
        }
        if y == x {
            assert(t[p] == y);
        }
    }
}

/// Puts withdrawals in order.
fn rank(list: &Vec<AggregatedWithdrawal>) -> (r: Vec<AggregatedWithdrawal>)
    requires
        forall|i: int, j: int|
            #![trigger list.deep_view()[i], list.deep_view()[j]]
            0 <= i < j < list@.len() ==> list.deep_view()[i].main_address
                != list.deep_view()[j].main_address,
    ensures
        is_ranked(r.deep_view()),
        forall|x: AggregatedWithdrawalView| #[trigger]
            r.deep_view().contains(x) <==> list.deep_view().contains(x),
        r@.len() == list@.len(),
{
    let ghost all = list.deep_view();
    let mut r: Vec<AggregatedWithdrawal> = Vec::new();
    let n: usize = list.len();
    assert(is_ranked(r.deep_view()));
    for i in 0..n
        invariant
            n == list@.len(),
            all == list.deep_view(),
            r@.len() == i,
            is_ranked(r.deep_view()),
            forall|x: AggregatedWithdrawalView| #[trigger]
                r.deep_view().contains(x) <==> all.take(i as int).contains(x),
            forall|i: int, j: int|
                #![trigger all[i], all[j]]
                0 <= i < j < n ==> all[i].main_address != all[j].main_address,
    {
        let item = list[i].clone();
        let ghost x = item.deep_view();
        assert(all[i as int] == x);
        let ghost s = r.deep_view();
        let mut p: usize = 0;
        while p < r.len() && precedes(&r[p], &item)
            invariant
                p <= r@.len(),
                s == r.deep_view(),
                x == item.deep_view(),
                forall|j: int| 0 <= j < p ==> comes_first(#[trigger] s[j], x),
            decreases r@.len() - p,
        {
            p = p + 1;
        }
        proof {
            if p < s.len() {
                assert(s[p as int] == r@[p as int].deep_view());
                assert(s.contains(s[p as int]));
                let k = choose|k: int|
                    0 <= k < all.take(i as int).len() && all.take(i as int)[k] == s[p as int];
                assert(all[k].main_address != all[i as int].main_address);
                addresses_ordered(
                    x.main_address,
                    s[p as int].main_address,
                    s[p as int].main_address,
                );
                assert(comes_first(x, s[p as int]));
            }
            insert_keeps_rank(s, p as int, x);
        }
        r.insert(p, item);
        proof {
            assert(r.deep_view() =~= s.insert(p as int, x));
            let some = all.take(i as int);
            let more = all.take(i + 1);
            assert(more =~= some.push(x));
            assert forall|y: AggregatedWithdrawalView| #[trigger]
                r.deep_view().contains(y) <==> more.contains(y) by {
                if more.contains(y) {
                    let k = choose|k: int| 0 <= k < more.len() && more[k] == y;
                    if k < i {
                        assert(some[k] == y);
                    }
                }
                if some.contains(y) {
                    let k = choose|k: int| 0 <= k < some.len() && some[k] == y;
                    assert(more[k] == y);
                }
                assert(more[i as int] == x);
            }
        }
    }
    assert(all.take(n as int) =~= all);
    r
}

/// Puts the withdrawals in order that there are.
fn find_ranking(state: &State) -> (r: Result<Vec<AggregatedWithdrawal>, Error>)
    ensures
        match r {
            Ok(list) => !totals_overflow(state@.utxos) && list.deep_view() == ranking(
                state@.utxos,
            ),
            Err(e) => totals_overflow(state@.utxos) && e == Error::AmountOverflow,
        },
{
    let list = match aggregate(state) {
        Ok(list) => list,
        Err(e) => {
            return Err(e);
        },
    };
    let ghost utxos = state@.utxos;
    assert(list.deep_view().len() == list@.len());
    let ranked = rank(&list);
    proof {
        puts_all_together(list.deep_view(), utxos);
        comes_first_is_strict();
        let before = |a: AggregatedWithdrawalView, b: AggregatedWithdrawalView| comes_first(a, b);
        let s = ranked.deep_view();
        assert forall|x: AggregatedWithdrawalView|
            aggregates(utxos).contains(x) <==> #[trigger] s.contains(x) by {
            assert(list.deep_view().contains(x) <==> s.contains(x));
        }
        assert(arranges(s, aggregates(utxos), before));
        arrangement_is(s, aggregates(utxos), before);
    }
    Ok(ranked)
}

/// More withdrawals offer no fewer fees.
proof fn fees_grow(list: Seq<AggregatedWithdrawalView>, i: nat, n: nat)
    requires
        i <= n,
    ensures
        fees(list, i) <= fees(list, n),
    decreases n - i,
{
    if i < n {
        fees_grow(list, i, (n - 1) as nat);
    }
}

/// Finds the outputs that withdraw to an address of a list.
fn find_spent(state: &State, list: &Vec<AggregatedWithdrawal>) -> (r: Vec<(OutPoint, Output)>)
    ensures
        pointed(r@) == spent_for(
            state@.utxos,
            ordered(state@.utxos.dom()),
            list.deep_view(),
            ordered(state@.utxos.dom()).len(),
        ),
{
    let ghost utxos = state@.utxos;
    let ghost all = list.deep_view();
    let keys = state.utxos.keys();
    let mut r: Vec<(OutPoint, Output)> = Vec::new();
    assert(pointed(r@) =~= Seq::empty());
    let n: usize = keys.len();
    for i in 0..n
        invariant
            n == keys@.len(),
            utxos == state@.utxos,
            all == list.deep_view(),
            keys@ == ordered(utxos.dom()),
            lists(keys@, utxos.dom()),
            pointed(r@) == spent_for(utxos, keys@, all, i as nat),
    {
        assert(keys@.contains(keys@[i as int]));
        let output = state.utxos.try_get(&keys[i]).unwrap();
        let selected = match &output.content {
            OutputContent::Withdrawal { main_address, .. } => {
                match find_address(list, main_address) {
                    Some(p) => {
                        assert(withdraws_to(output.deep_view(), all[p as int].main_address));
                        true
                    },
                    None => {
                        assert(forall|j: int|
                            0 <= j < all.len() ==> (#[trigger] all[j])
                                == list@[j].deep_view());
                        false
                    },
                }
            },
            _ => false,
        };
        assert(selected == is_selected(output.deep_view(), all));
        if selected {
            let ghost before = pointed(r@);
            r.push((keys[i], output.clone()));
            assert(pointed(r@) =~= before.push((keys@[i as int], output.deep_view())));
        }
    }
    r
}

/// Finds what a bundle is built from at this height. Its outputs pay to mainchain
/// addresses.
pub fn draft_withdrawal_bundle(state: &State, block_height: u32) -> (r: Result<
    Option<BundleDraft>,
    Fault,
>)
    ensures
        match r {
            Ok(draft) => drafted(state@.utxos, block_height) == Ok::<
                Option<BundleDraftView>,
                Fault,
            >(draft.deep_view()),
            Err(fault) => drafted(state@.utxos, block_height) == Err::<
                Option<BundleDraftView>,
                Fault,
            >(fault),
        },
        r matches Ok(Some(draft)) ==> forall|i: int|
            0 <= i < draft.outputs@.len() ==> is_address_script(
                (#[trigger] draft.outputs@[i]).script_pubkey@,
            ),
{
    let ghost utxos = state@.utxos;
    let mut list = match find_ranking(state) {
        Ok(list) => list,
        Err(e) => {
            return Err(Fault::Error(e));
        },
    };
    let most: usize = max_bundle_outputs() + 1;
    if list.len() > most {
        list.truncate(most);
        assert(list.deep_view() =~= ranking(utxos).take(3122));
    }
    assert(list.deep_view() == selection(utxos));
    if list.len() == 0 {
        return Ok(None);
    }
    let ghost all = list.deep_view();
    let mut fee: u64 = 0;
    let mut outputs: Vec<TxOut> = Vec::new();
    assert(outputs.deep_view() =~= payouts(all).take(0));
    let n: usize = list.len();
    for i in 0..n
        invariant
            n == list@.len(),
            n > 0,
            utxos == state@.utxos,
            !totals_overflow(utxos),
            all == list.deep_view(),
            all == selection(utxos),
            fee == fees(all, i as nat),
            outputs.deep_view() == payouts(all).take(i as int),
            forall|j: int|
                0 <= j < outputs@.len() ==> is_address_script(
                    (#[trigger] outputs@[j]).script_pubkey@,
                ),
    {
        assert(all[i as int] == list@[i as int].deep_view());
        let ghost before = outputs.deep_view();
        let script_pubkey = list[i].main_address.script_pubkey().clone();
        assert(script_pubkey@ =~= all[i as int].main_address.script_pubkey);
        let output = TxOut { value: list[i].value, script_pubkey };
        outputs.push(output);
        assert(outputs.deep_view() =~= before.push(output.deep_view()));
        assert(outputs.deep_view() =~= payouts(all).take(i + 1));
        match fee.checked_add(list[i].main_fee) {
            Some(sum) => {
                fee = sum;
            },
            None => {
                proof {
                    fees_grow(all, (i + 1) as nat, n as nat);
                }
                return Err(Fault::Halt(Halt::OutOfRange));
            },
        }
    }
    assert(payouts(all).take(n as int) =~= payouts(all));
    let spend_utxos = find_spent(state, &list);
    Ok(Some(BundleDraft { block_height, fee, spend_utxos, outputs }))
}

/// What comes of a draft once the bundle is built, or could not be built.
pub open spec fn bundled(draft: BundleDraftView, built: Result<M6id, Rejection>) -> Result<
    WithdrawalBundleView,
    Fault,
> {
    match built {
        Ok(m6id) => Ok(draft.named(m6id)),
        Err(why) => Err(Fault::Error(Error::WithdrawalBundle(why))),
    }
}

/// Makes a bundle of a draft, given the name that it got when it was built.
pub fn name_bundle(draft: BundleDraft, built: Result<M6id, Rejection>) -> (r: Result<
    WithdrawalBundle,
    Fault,
>)
    ensures
        match r {
            Ok(bundle) => bundled(draft.deep_view(), built) == Ok::<WithdrawalBundleView, Fault>(
                bundle.deep_view(),
            ),
            Err(fault) => bundled(draft.deep_view(), built) == Err::<WithdrawalBundleView, Fault>(
                fault,
            ),
        },
{
    match built {
        Ok(m6id) => Ok(
            WithdrawalBundle {
                m6id,
                fee: draft.fee,
                spend_utxos: draft.spend_utxos,
                outputs: draft.outputs,
            },
        ),
        Err(why) => Err(Fault::Error(Error::WithdrawalBundle(why))),
    }
}

/// Building the draft may have this outcome.
pub open spec fn may_build<F: Fn(&BundleDraft) -> Result<M6id, Rejection>>(
    build: F,
    draft: BundleDraftView,
    built: Result<M6id, Rejection>,
) -> bool {
    exists|d: BundleDraft| d.deep_view() == draft && #[trigger] call_ensures(build, (&d,), built)
}

/// What is handed out is what comes of the draft.
pub open spec fn is_collected(
    r: Result<Option<WithdrawalBundle>, Fault>,
    draft: BundleDraftView,
    built: Result<M6id, Rejection>,
) -> bool {
    match bundled(draft, built) {
        Ok(expected) => r is Ok && r->Ok_0 is Some && r->Ok_0->0.deep_view() == expected,
        Err(fault) => r is Err && r->Err_0 == fault,
    }
}

/// What is handed out is what comes of the draft, however building it went.
pub open spec fn is_built<F: Fn(&BundleDraft) -> Result<M6id, Rejection>>(
    build: F,
    draft: BundleDraftView,
    r: Result<Option<WithdrawalBundle>, Fault>,
) -> bool {
    exists|built: Result<M6id, Rejection>|
        may_build(build, draft, built) && #[trigger] is_collected(r, draft, built)
}

/// What is handed out is what comes of what was drafted.
pub open spec fn is_collection<F: Fn(&BundleDraft) -> Result<M6id, Rejection>>(
    build: F,
    drafted: Result<Option<BundleDraftView>, Fault>,
    r: Result<Option<WithdrawalBundle>, Fault>,
) -> bool {
    match drafted {
        Err(fault) => r is Err && r->Err_0 == fault,
        Ok(None) => r is Ok && r->Ok_0 is None,
        Ok(Some(draft)) => is_built(build, draft, r),
    }
}

/// Puts withdrawals together into a bundle; `None` where nothing is withdrawn.
/// `build` builds the mainchain transaction, and says what it is called or why
/// it cannot be.
pub fn collect_withdrawal_bundle<F: Fn(&BundleDraft) -> Result<M6id, Rejection>>(
    state: &State,
    block_height: u32,
    build: &F,
) -> (r: Result<Option<WithdrawalBundle>, Fault>)
    requires
        forall|d: BundleDraft| call_requires(*build, (&d,)),
    ensures
        is_collection(*build, drafted(state@.utxos, block_height), r),
{
    match draft_withdrawal_bundle(state, block_height) {
        Err(fault) => Err(fault),
        Ok(None) => Ok(None),
        Ok(Some(draft)) => {
            let ghost view = draft.deep_view();
            let built = build(&draft);
            assert(may_build(*build, view, built));
            let r = match name_bundle(draft, built) {
                Ok(bundle) => Ok(Some(bundle)),
                Err(fault) => Err(fault),
            };
            assert(is_collected(r, view, built));
            assert(is_built(*build, view, r));
            r
        },
    }
}

} // verus!
