//! Following the payments of swaps on their parent chains.
use vstd::prelude::*;

use crate::error::Error;
use crate::ids::{BlockHash, SwapId};
use crate::state::{State, StateView};
use crate::swap::{unset, ParentChainType, Swap, SwapState, SwapTxId, SwapView};
use crate::table::{lists, ordered, Key, Table};
use crate::types::OutPoint;

verus! {

/// A payment that a parent chain reports: one to the address and of the amount
/// that were asked for.
pub struct L1Match {
    /// The payment's name; `None` where what was reported names none.
    pub txid: Option<SwapTxId>,
    pub confirmations: u32,
    /// Whether the payment stands in a block.
    pub in_block: bool,
}

#[verifier::ext_equal]
pub struct L1MatchView {
    pub txid: Option<Seq<u8>>,
    pub confirmations: u32,
    pub in_block: bool,
}

impl DeepView for L1Match {
    type V = L1MatchView;

    open spec fn deep_view(&self) -> L1MatchView {
        L1MatchView {
            txid: self.txid.deep_view(),
            confirmations: self.confirmations,
            in_block: self.in_block,
        }
    }
}

/// A payment counts once it stands in a block, until it is too old.
pub open spec fn acceptable(m: L1MatchView, max_age: u32) -> bool {
    m.confirmations != 0 && m.in_block && m.confirmations <= max_age
}

/// The first payment that counts.
pub open spec fn first_acceptable(matches: Seq<L1MatchView>, max_age: u32) -> Option<L1MatchView>
    decreases matches.len(),
{
    if matches.len() == 0 {
        None
    } else if acceptable(matches[0], max_age) {
        Some(matches[0])
    } else {
        first_acceptable(matches.drop_first(), max_age)
    }
}

/// Where a swap stands whose payment has so many confirmations.
pub open spec fn paid_state(confirmations: u32, required: u32) -> SwapState {
    if confirmations >= required {
        SwapState::ReadyToClaim
    } else {
        SwapState::WaitingConfirmations(confirmations, required)
    }
}

/// How many confirmations a swap is known to have.
pub open spec fn known_confirmations(state: SwapState) -> u32 {
    match state {
        SwapState::WaitingConfirmations(current, _) => current,
        _ => 0,
    }
}

/// The swap once the payments reported for it are looked at; `None` where it
/// stays as it is. A payment that another swap was paid with does not count.
pub open spec fn swap_updated(
    s: StateView,
    swap: SwapView,
    matches: Seq<L1MatchView>,
    block_hash: BlockHash,
    block_height: u32,
) -> Result<Option<SwapView>, Error> {
    match first_acceptable(matches, swap.parent_chain.max_l1_tx_age_blocks) {
        None => Ok(None),
        Some(m) => match m.txid {
            None => Err(Error::InvalidResponse),
            Some(txid) => if unset(swap.l1_txid) {
                let existing = s.swap_by_l1_txid(swap.parent_chain, txid);
                if existing is Some && existing->0.id != swap.id {
                    Ok(None)
                } else {
                    Ok(
                        Some(
                            SwapView {
                                l1_txid: txid,
                                l1_txid_validated_at: Some((block_hash, block_height)),
                                state: paid_state(m.confirmations, swap.required_confirmations),
                                ..swap
                            },
                        ),
                    )
                }
            } else if m.confirmations > known_confirmations(swap.state) {
                Ok(Some(swap.in_state(paid_state(m.confirmations, swap.required_confirmations))))
            } else {
                Ok(None)
            },
        },
    }
}

/// A swap that waits for its payment.
pub open spec fn is_waiting(swap: SwapView) -> bool {
    swap.state is Pending || swap.state is WaitingConfirmations
}

/// A swap that ran out.
pub open spec fn has_expired(swap: SwapView, block_height: u32) -> bool {
    swap.expires_at_height is Some && block_height >= swap.expires_at_height->0
}

/// The parent chain is asked for the payment of a swap.
pub open spec fn is_asked_for(swap: SwapView, block_height: u32) -> bool {
    is_waiting(swap) && !has_expired(swap, block_height) && swap.l1_recipient_address is Some
        && swap.l1_amount is Some
}

/// The outputs that were locked to a swap are released.
pub open spec fn all_unlocked(locks: Map<OutPoint, SwapId>, swap_id: SwapId) -> Map<
    OutPoint,
    SwapId,
> {
    locks.restrict(Set::new(|k: OutPoint| !(locks.contains_key(k) && locks[k] == swap_id)))
}

/// A swap is looked at. `lookups` holds the payments reported for those swaps
/// that a parent chain was asked for, and answered.
pub open spec fn swap_processed(
    s: StateView,
    swap: SwapView,
    block_height: u32,
    block_hash: BlockHash,
    lookups: Map<SwapId, Seq<L1MatchView>>,
) -> StateView {
    if !is_waiting(swap) {
        s
    } else if has_expired(swap, block_height) {
        StateView {
            locked_swap_outputs: all_unlocked(s.locked_swap_outputs, swap.id),
            swaps: s.swaps.insert(swap.id, swap.in_state(SwapState::Cancelled)),
            ..s
        }
    } else if is_asked_for(swap, block_height) && lookups.contains_key(swap.id) {
        match swap_updated(s, swap, lookups[swap.id], block_hash, block_height) {
            Ok(Some(updated)) => StateView {
                swaps: s.swaps.insert(swap.id, updated),
                ..s
            },
            _ => s,
        }
    } else {
        s
    }
}

/// The first `n` of the swaps in a list are looked at.
pub open spec fn swaps_processed(
    s: StateView,
    swaps: Seq<SwapView>,
    block_height: u32,
    block_hash: BlockHash,
    lookups: Map<SwapId, Seq<L1MatchView>>,
    n: nat,
) -> StateView
    decreases n,
{
    if n == 0 {
        s
    } else {
        swap_processed(
            swaps_processed(s, swaps, block_height, block_hash, lookups, (n - 1) as nat),
            swaps[n - 1],
            block_height,
            block_hash,
            lookups,
        )
    }
}

/// All swaps, in the order of their ids.
pub open spec fn all_swaps(s: StateView) -> Seq<SwapView> {
    let ids = ordered(s.swaps.dom());
    Seq::new(ids.len(), |i: int| s.swaps[ids[i]])
}

/// All swaps are looked at.
pub open spec fn coinshift_processed(
    s: StateView,
    block_height: u32,
    block_hash: BlockHash,
    lookups: Map<SwapId, Seq<L1MatchView>>,
) -> StateView {
    let swaps = all_swaps(s);
    swaps_processed(s, swaps, block_height, block_hash, lookups, swaps.len())
}

impl State {
    /// All swaps, in the order of their ids.
    pub fn load_all_swaps(&self) -> (r: Vec<Swap>)
        ensures
            r.deep_view() == all_swaps(self@),
    {
        let ids = self.swaps.keys();
        let mut r: Vec<Swap> = Vec::new();
        assert(r.deep_view() =~= all_swaps(self@).take(0));
        let n: usize = ids.len();
        for i in 0..n
            invariant
                n == ids@.len(),
                ids@ == ordered(self@.swaps.dom()),
                lists(ids@, self@.swaps.dom()),
                r.deep_view() == all_swaps(self@).take(i as int),
        {
            assert(ids@.contains(ids@[i as int]));
            let ghost before = r.deep_view();
            if let Some(swap) = self.swaps.try_get(&ids[i]) {
                r.push(swap.clone());
                assert(r.deep_view() =~= before.push(swap.deep_view()));
            }
            assert(all_swaps(self@).take(i + 1) =~= all_swaps(self@).take(i as int).push(
                all_swaps(self@)[i as int],
            ));
        }
        assert(all_swaps(self@).take(n as int) =~= all_swaps(self@));
        r
    }
}

/// What a parent chain is asked: payments to an address, of an amount.
pub struct L1Query {
    pub swap_id: SwapId,
    pub parent_chain: ParentChainType,
    pub l1_recipient_address: String,
    pub l1_amount: u64,
}

#[verifier::ext_equal]
pub struct L1QueryView {
    pub swap_id: SwapId,
    pub parent_chain: ParentChainType,
    pub l1_recipient_address: Seq<char>,
    pub l1_amount: u64,
}

impl DeepView for L1Query {
    type V = L1QueryView;

    open spec fn deep_view(&self) -> L1QueryView {
        L1QueryView {
            swap_id: self.swap_id,
            parent_chain: self.parent_chain,
            l1_recipient_address: self.l1_recipient_address@,
            l1_amount: self.l1_amount,
        }
    }
}

/// What the parent chain of a swap is asked.
pub open spec fn query_of(swap: SwapView) -> L1QueryView {
    L1QueryView {
        swap_id: swap.id,
        parent_chain: swap.parent_chain,
        l1_recipient_address: swap.l1_recipient_address->0,
        l1_amount: swap.l1_amount->0,
    }
}

/// What parent chains are asked about the first `n` of the swaps in a list.
pub open spec fn queries(swaps: Seq<SwapView>, block_height: u32, n: nat) -> Seq<L1QueryView>
    decreases n,
{
    if n == 0 {
        Seq::empty()
    } else {
        let before = queries(swaps, block_height, (n - 1) as nat);
        if is_asked_for(swaps[n - 1], block_height) {
            before.push(query_of(swaps[n - 1]))
        } else {
            before
        }
    }
}

/// Finds what parent chains are asked when a block of this height is looked at.
pub fn l1_queries(state: &State, block_height: u32) -> (r: Vec<L1Query>)
    ensures
        r.deep_view() == queries(all_swaps(state@), block_height, all_swaps(state@).len()),
{
    let swaps = state.load_all_swaps();
    let ghost all = swaps.deep_view();
    let mut r: Vec<L1Query> = Vec::new();
    assert(r.deep_view() =~= Seq::<L1QueryView>::empty());
    let n: usize = swaps.len();
    for i in 0..n
        invariant
            n == swaps@.len(),
            all == swaps.deep_view(),
            r.deep_view() == queries(all, block_height, i as nat),
    {
        let swap = &swaps[i];
        assert(all[i as int] == swap.deep_view());
        if waits(swap) && !ran_out(swap, block_height) {
            if let (Some(address), Some(amount)) = (&swap.l1_recipient_address, swap.l1_amount) {
                let ghost before = r.deep_view();
                let query = L1Query {
                    swap_id: swap.id,
                    parent_chain: swap.parent_chain,
                    l1_recipient_address: address.clone(),
                    l1_amount: amount,
                };
                r.push(query);
                assert(r.deep_view() =~= before.push(query.deep_view()));
            }
        }
    }
    r
}

fn waits(swap: &Swap) -> (r: bool)
    ensures
        r == is_waiting(swap.deep_view()),
{
    match swap.state {
        SwapState::Pending | SwapState::WaitingConfirmations(_, _) => true,
        _ => false,
    }
}

fn ran_out(swap: &Swap, block_height: u32) -> (r: bool)
    ensures
        r == has_expired(swap.deep_view(), block_height),
{
    match swap.expires_at_height {
        Some(expires_at) => block_height >= expires_at,
        None => false,
    }
}

/// Finds the first payment that counts.
fn find_acceptable(matches: &Vec<L1Match>, max_age: u32) -> (r: Option<usize>)
    ensures
        match r {
            Some(i) => i < matches@.len() && first_acceptable(matches.deep_view(), max_age)
                == Some(matches@[i as int].deep_view()),
            None => first_acceptable(matches.deep_view(), max_age) is None,
        },
{
    let ghost all = matches.deep_view();
    let n: usize = matches.len();
    assert(all.skip(0) =~= all);
    for i in 0..n
        invariant
            n == matches@.len(),
            all == matches.deep_view(),
            first_acceptable(all, max_age) == first_acceptable(all.skip(i as int), max_age),
    {
        let m = &matches[i];
        assert(all.skip(i as int)[0] == m.deep_view());
        assert(all.skip(i as int).drop_first() =~= all.skip(i + 1));
        if m.confirmations != 0 && m.in_block && m.confirmations <= max_age {
            return Some(i);
        }
    }
    None
}

/// Looks at the payments that were reported for a swap, and tells whether the
/// swap changed.
pub fn query_and_update_swap(
    state: &State,
    swap: &mut Swap,
    matches: &Vec<L1Match>,
    block_hash: BlockHash,
    block_height: u32,
) -> (r: Result<bool, Error>)
    ensures
        match swap_updated(
            state@,
            old(swap).deep_view(),
            matches.deep_view(),
            block_hash,
            block_height,
        ) {
            Ok(Some(updated)) => r == Ok::<bool, Error>(true) && final(swap).deep_view()
                == updated,
            Ok(None) => r == Ok::<bool, Error>(false) && final(swap).deep_view()
                == old(swap).deep_view(),
            Err(e) => r == Err::<bool, Error>(e) && final(swap).deep_view()
                == old(swap).deep_view(),
        },
{
    let i: usize = match find_acceptable(matches, swap.parent_chain.max_l1_tx_age_blocks) {
        Some(i) => i,
        None => {
            return Ok(false);
        },
    };
    let confirmations: u32 = matches[i].confirmations;
    let l1_txid = match &matches[i].txid {
        Some(txid) => txid.clone(),
        None => {
            return Err(Error::InvalidResponse);
        },
    };
    if swap.l1_txid.is_unset() {
        if let Some(existing) = state.get_swap_by_l1_txid(&swap.parent_chain, &l1_txid) {
            if existing.id != swap.id {
                return Ok(false);
            }
        }
        swap.l1_txid = l1_txid;
        swap.l1_txid_validated_at = Some((block_hash, block_height));
    } else {
        let current: u32 = match swap.state {
            SwapState::WaitingConfirmations(current, _) => current,
            _ => 0,
        };
        if confirmations <= current {
            return Ok(false);
        }
    }
    swap.state = if confirmations >= swap.required_confirmations {
        SwapState::ReadyToClaim
    } else {
        SwapState::WaitingConfirmations(confirmations, swap.required_confirmations)
    };
    Ok(true)
}

/// Releases the outputs that were locked to a swap.
fn unlock_all(state: &mut State, swap_id: SwapId)
    ensures
        final(state)@ == (StateView {
            locked_swap_outputs: all_unlocked(old(state)@.locked_swap_outputs, swap_id),
            ..old(state)@
        }),
{
    let ghost locks = state@.locked_swap_outputs;
    let keys = state.locked_swap_outputs.keys();
    let n: usize = keys.len();
    assert forall|j: int| 0 <= j < n implies #[trigger] locks.contains_key(keys@[j]) by {
        assert(keys@.contains(keys@[j]));
    }
    for i in 0..n
        invariant
            n == keys@.len(),
            locks == old(state)@.locked_swap_outputs,
            lists(keys@, locks.dom()),
            state@ == (StateView {
                locked_swap_outputs: state@.locked_swap_outputs,
                ..old(state)@
            }),
            forall|k: OutPoint| #[trigger]
                state@.locked_swap_outputs.contains_key(k) ==> locks.contains_key(k)
                    && state@.locked_swap_outputs[k] == locks[k],
            forall|k: OutPoint|
                locks.contains_key(k) && locks[k] != swap_id
                    ==> #[trigger] state@.locked_swap_outputs.contains_key(k),
            forall|j: int|
                0 <= j < i && locks[#[trigger] keys@[j]] == swap_id
                    ==> !state@.locked_swap_outputs.contains_key(keys@[j]),
            forall|j: int|
                i <= j < n ==> #[trigger] state@.locked_swap_outputs.contains_key(keys@[j]),
    {
        let outpoint = keys[i];
        assert(state@.locked_swap_outputs.contains_key(keys@[i as int]));
        if state.is_output_locked_to_swap(&outpoint) == Some(swap_id) {
            state.unlock_output_from_swap(&outpoint);
            assert forall|j: int| i + 1 <= j < n implies #[trigger]
                state@.locked_swap_outputs.contains_key(keys@[j]) by {
                assert(keys@[i as int].lt(keys@[j]));
                OutPoint::lt_irreflexive(outpoint);
            }
        }
    }
    assert forall|k: OutPoint| #[trigger]
        state@.locked_swap_outputs.contains_key(k) implies locks[k] != swap_id by {
        assert(locks.dom().contains(k));
        assert(keys@.contains(k));
        let j = choose|j: int| 0 <= j < keys@.len() && keys@[j] == k;
        assert(keys@[j] == k);
    }
    assert(state@.locked_swap_outputs =~= all_unlocked(locks, swap_id));
}

/// Looks at a swap.
fn process_swap(
    state: &mut State,
    loaded: Swap,
    block_height: u32,
    block_hash: BlockHash,
    lookups: &Table<SwapId, Vec<L1Match>>,
)
    ensures
        final(state)@ == swap_processed(
            old(state)@,
            loaded.deep_view(),
            block_height,
            block_hash,
            lookups@,
        ),
{
    let mut swap = loaded;
    if !waits(&swap) {
        return;
    }
    if ran_out(&swap, block_height) {
        unlock_all(state, swap.id);
        swap.state = SwapState::Cancelled;
        state.save_swap(swap);
        return;
    }
    if swap.l1_recipient_address.is_some() && swap.l1_amount.is_some() {
        if let Some(matches) = lookups.try_get(&swap.id) {
            match query_and_update_swap(state, &mut swap, matches, block_hash, block_height) {
                Ok(true) => {
                    state.save_swap(swap);
                },
                _ => {},
            }
        }
    }
}

/// Looks at all swaps: those that ran out are cancelled, and those whose payment
/// was seen move on. `lookups` holds what parent chains answered when they were
/// asked for the payments of swaps.
pub fn process_coinshift_transactions(
    state: &mut State,
    block_height: u32,
    block_hash: BlockHash,
    lookups: &Table<SwapId, Vec<L1Match>>,
)
    ensures
        final(state)@ == coinshift_processed(old(state)@, block_height, block_hash, lookups@),
{
    let swaps = state.load_all_swaps();
    let ghost all = swaps.deep_view();
    let n: usize = swaps.len();
    for i in 0..n
        invariant
            n == swaps@.len(),
            all == swaps.deep_view(),
            state@ == swaps_processed(
                old(state)@,
                all,
                block_height,
                block_hash,
                lookups@,
                i as nat,
            ),
    {
        assert(all[i as int] == swaps@[i as int].deep_view());
        process_swap(state, swaps[i].clone(), block_height, block_hash, lookups);
    }
}

} // verus!
