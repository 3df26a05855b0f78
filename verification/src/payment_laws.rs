//! What becomes of a swap when the payments that its parent chain reports are
//! looked at.
use vstd::prelude::*;

use crate::coinshift::{
    all_swaps, coinshift_processed, first_acceptable, queries, swap_processed, swap_updated,
    swaps_processed, L1MatchView, L1QueryView,
};
use crate::coinshift_laws::{paid_by_finds, processing_keeps, swaps_by_id};
use crate::error::Error;
use crate::ids::{BlockHash, SwapId};
use crate::state::StateView;
use crate::swap::{SwapState, SwapView};
use crate::table::{finite_is_listed, lists, ordered, Key};

verus! {

/// A payment counts: it stands in a block, it has confirmations, and no more than
/// a payment may have.
pub open spec fn counts(m: L1MatchView, max_age: u32) -> bool {
    m.in_block && 0 < m.confirmations && m.confirmations <= max_age
}

/// The payment at place `i` is the first that counts.
pub open spec fn is_first_counted(matches: Seq<L1MatchView>, max_age: u32, i: int) -> bool {
    &&& 0 <= i < matches.len()
    &&& counts(matches[i], max_age)
    &&& forall|j: int| 0 <= j < i ==> !counts(#[trigger] matches[j], max_age)
}

/// None of the payments counts.
pub open spec fn none_counts(matches: Seq<L1MatchView>, max_age: u32) -> bool {
    forall|j: int| 0 <= j < matches.len() ==> !counts(#[trigger] matches[j], max_age)
}

/// A swap waits for its payment, or for more confirmations of it.
pub open spec fn waits_for_payment(swap: SwapView) -> bool {
    match swap.state {
        SwapState::Pending => true,
        SwapState::WaitingConfirmations(_, _) => true,
        SwapState::ReadyToClaim => false,
        SwapState::Completed => false,
        SwapState::Cancelled => false,
    }
}

/// A swap is past the height that it is open to.
pub open spec fn is_over(swap: SwapView, height: u32) -> bool {
    match swap.expires_at_height {
        Some(end) => height >= end,
        None => false,
    }
}

/// A name of a payment that names none.
pub open spec fn is_blank(txid: Seq<u8>) -> bool {
    forall|i: int| 0 <= i < txid.len() ==> txid[i] == 0
}

/// The confirmations that were seen before.
pub open spec fn seen_before(swap: SwapView) -> u32 {
    match swap.state {
        SwapState::WaitingConfirmations(seen, _) => seen,
        _ => 0,
    }
}

/// A swap is paid once its payment has as many confirmations as it requires, and
/// waits for more until then.
pub open spec fn stands_paid(swap: SwapView, confirmations: u32) -> bool {
    &&& confirmations >= swap.required_confirmations ==> swap.state == SwapState::ReadyToClaim
    &&& confirmations < swap.required_confirmations ==> swap.state
        == SwapState::WaitingConfirmations(confirmations, swap.required_confirmations)
}

/// Two swaps are the same but for where they stand.
pub open spec fn same_but_state(a: SwapView, b: SwapView) -> bool {
    a == (SwapView { state: a.state, ..b })
}

/// Another swap was paid by this payment.
pub open spec fn pays_another(s: StateView, swap: SwapView, txid: Seq<u8>) -> bool {
    exists|id: SwapId| #[trigger]
        s.swaps.contains_key(id) && id != swap.id && s.swaps[id].parent_chain == swap.parent_chain
            && s.swaps[id].l1_txid == txid
}

/// The payment that is found first is the first that counts.
proof fn first_is(matches: Seq<L1MatchView>, max_age: u32)
    ensures
        match first_acceptable(matches, max_age) {
            None => none_counts(matches, max_age),
            Some(m) => exists|i: int| #[trigger]
                is_first_counted(matches, max_age, i) && matches[i] == m,
        },
    decreases matches.len(),
{
    if matches.len() > 0 {
        let rest = matches.drop_first();
        first_is(rest, max_age);
        if counts(matches[0], max_age) {
            assert(is_first_counted(matches, max_age, 0));
        } else if first_acceptable(rest, max_age) is Some {
            let m = first_acceptable(rest, max_age)->0;
            let i = choose|i: int| #[trigger]
                is_first_counted(rest, max_age, i) && rest[i] == m;
            assert forall|j: int| 0 <= j < i + 1 implies !counts(#[trigger] matches[j], max_age) by {
                if j > 0 {
                    assert(rest[j - 1] == matches[j]);
                }
            }
            assert(is_first_counted(matches, max_age, i + 1));
        } else {
            assert forall|j: int| 0 <= j < matches.len() implies !counts(
                #[trigger] matches[j],
                max_age,
            ) by {
                if j > 0 {
                    assert(rest[j - 1] == matches[j]);
                }
            }
        }
    }
}

/// There is one first payment that counts.
proof fn first_is_one(matches: Seq<L1MatchView>, max_age: u32, i: int, j: int)
    requires
        is_first_counted(matches, max_age, i),
        is_first_counted(matches, max_age, j),
    ensures
        i == j,
{
    if i < j {
        assert(!counts(matches[i], max_age));
    } else if j < i {
        assert(!counts(matches[j], max_age));
    }
}

/// A search for the swap that a payment paid finds another one if there is one,
/// unless it finds the swap itself.
proof fn search_is(s: StateView, swap: SwapView, txid: Seq<u8>)
    requires
        swaps_by_id(s),
    ensures
        ({
            let found = s.swap_by_l1_txid(swap.parent_chain, txid);
            &&& !pays_another(s, swap, txid) ==> !(found is Some && found->0.id != swap.id)
            &&& pays_another(s, swap, txid) && !(s.swaps.contains_key(swap.id)
                && s.swaps[swap.id].l1_txid == txid) ==> found is Some && found->0.id != swap.id
        }),
{
    let ids = ordered(s.swaps.dom());
    let found = s.swap_by_l1_txid(swap.parent_chain, txid);
    finite_is_listed(s.swaps.dom());
    paid_by_finds(s, swap.parent_chain, txid, ids);
    if found is Some {
        let i = choose|i: int|
            0 <= i < ids.len() && found->0 == s.swaps[#[trigger] ids[i]] && found->0.parent_chain
                == swap.parent_chain && found->0.l1_txid == txid;
        assert(ids.contains(ids[i]));
        assert(s.swaps.contains_key(ids[i]));
    }
    if pays_another(s, swap, txid) && found is None {
        let id = choose|id: SwapId| #[trigger]
            s.swaps.contains_key(id) && id != swap.id && s.swaps[id].parent_chain
                == swap.parent_chain && s.swaps[id].l1_txid == txid;
        assert(s.swaps.dom().contains(id));
        assert(ids.contains(id));
        let i = choose|i: int| 0 <= i < ids.len() && ids[i] == id;
        assert(s.swaps[ids[i]].l1_txid == txid);
    }
}

/// Where no reported payment counts, a swap stays as it is.
pub proof fn swaps_stay_without_a_payment(
    s: StateView,
    swap: SwapView,
    matches: Seq<L1MatchView>,
    block_hash: BlockHash,
    block_height: u32,
)
    requires
        none_counts(matches, swap.parent_chain.max_l1_tx_age_blocks),
    ensures
        swap_updated(s, swap, matches, block_hash, block_height) == Ok::<Option<SwapView>, Error>(
            None,
        ),
{
    let max_age = swap.parent_chain.max_l1_tx_age_blocks;
    first_is(matches, max_age);
    if first_acceptable(matches, max_age) is Some {
        let m = first_acceptable(matches, max_age)->0;
        let i = choose|i: int| #[trigger] is_first_counted(matches, max_age, i) && matches[i] == m;
        assert(counts(matches[i], max_age));
    }
}

/// What becomes of a swap when the first payment that counts is at place `i`. One
/// that names none is turned down. A swap whose payment is known moves on if there
/// are more confirmations than were seen before, and stays as it is otherwise. A
/// swap whose payment is not known takes the payment for its own, with the block
/// and the height that it was seen at, unless another swap was paid by it. A swap
/// that moves on is ready to be claimed if there are as many confirmations as it
/// requires, and else waits with exactly so many.
pub proof fn swaps_follow_their_first_payment(
    s: StateView,
    swap: SwapView,
    matches: Seq<L1MatchView>,
    block_hash: BlockHash,
    block_height: u32,
    i: int,
)
    requires
        is_first_counted(matches, swap.parent_chain.max_l1_tx_age_blocks, i),
    ensures
        ({
            let m = matches[i];
            let r = swap_updated(s, swap, matches, block_hash, block_height);
            let stays = Ok::<Option<SwapView>, Error>(None);
            &&& m.txid is None ==> r == Err::<Option<SwapView>, Error>(Error::InvalidResponse)
            &&& m.txid is Some && !is_blank(swap.l1_txid) ==> if m.confirmations > seen_before(
                swap,
            ) {
                r matches Ok(Some(now)) && same_but_state(now, swap) && stands_paid(
                    now,
                    m.confirmations,
                )
            } else {
                r == stays
            }
            &&& m.txid is Some && is_blank(swap.l1_txid) ==> r == stays || (r matches Ok(Some(now))
                && same_but_state(
                now,
                SwapView {
                    l1_txid: m.txid->0,
                    l1_txid_validated_at: Some((block_hash, block_height)),
                    ..swap
                },
            ) && stands_paid(now, m.confirmations))
            &&& m.txid is Some && is_blank(swap.l1_txid) && swaps_by_id(s) ==> {
                let txid = m.txid->0;
                &&& pays_another(s, swap, txid) && !(s.swaps.contains_key(swap.id)
                    && s.swaps[swap.id].l1_txid == txid) ==> r == stays
                &&& !pays_another(s, swap, txid) ==> (r matches Ok(Some(now)) && same_but_state(
                    now,
                    SwapView {
                        l1_txid: txid,
                        l1_txid_validated_at: Some((block_hash, block_height)),
                        ..swap
                    },
                ) && stands_paid(now, m.confirmations))
            }
        }),
{
    let max_age = swap.parent_chain.max_l1_tx_age_blocks;
    let m = matches[i];
    first_is(matches, max_age);
    if first_acceptable(matches, max_age) is None {
        assert(!counts(matches[i], max_age));
    } else {
        let first = first_acceptable(matches, max_age)->0;
        let j = choose|j: int| #[trigger]
            is_first_counted(matches, max_age, j) && matches[j] == first;
        first_is_one(matches, max_age, i, j);
    }
    if m.txid is Some && swaps_by_id(s) {
        search_is(s, swap, m.txid->0);
    }
}

/// A swap becomes ready to be claimed by looking at payments only if a payment that
/// counts has as many confirmations as the swap requires.
pub proof fn swaps_are_ready_once_confirmed(
    s: StateView,
    swap: SwapView,
    matches: Seq<L1MatchView>,
    block_hash: BlockHash,
    block_height: u32,
)
    requires
        swap_updated(s, swap, matches, block_hash, block_height) matches Ok(Some(now))
            && now.state == SwapState::ReadyToClaim,
    ensures
        exists|i: int| #[trigger]
            is_first_counted(matches, swap.parent_chain.max_l1_tx_age_blocks, i)
                && matches[i].confirmations >= swap.required_confirmations,
{
    first_is(matches, swap.parent_chain.max_l1_tx_age_blocks);
}

// All swaps.
/// The payment that is taken for that of a swap whose payment is not known, if it
/// comes to that.
pub open spec fn is_reported(
    s: StateView,
    lookups: Map<SwapId, Seq<L1MatchView>>,
    id: SwapId,
    txid: Seq<u8>,
) -> bool {
    &&& s.swaps.contains_key(id)
    &&& lookups.contains_key(id)
    &&& exists|i: int| #[trigger]
        is_first_counted(lookups[id], s.swaps[id].parent_chain.max_l1_tx_age_blocks, i)
            && lookups[id][i].txid == Some(txid)
}

/// Other swaps have their own payment or took one that was reported for them.
spec fn took_their_own(
    s: StateView,
    x: StateView,
    lookups: Map<SwapId, Seq<L1MatchView>>,
) -> bool {
    &&& swaps_by_id(x)
    &&& x.swaps.dom() == s.swaps.dom()
    &&& forall|id: SwapId| #[trigger]
        s.swaps.contains_key(id) ==> x.swaps[id].parent_chain == s.swaps[id].parent_chain && (
        x.swaps[id].l1_txid == s.swaps[id].l1_txid || (is_blank(s.swaps[id].l1_txid)
            && is_reported(s, lookups, id, x.swaps[id].l1_txid)))
}

/// A swap that is looked at keeps its chain, and its payment or takes the one that
/// is reported.
proof fn takes_its_own(
    x: StateView,
    swap: SwapView,
    height: u32,
    hash: BlockHash,
    lookups: Map<SwapId, Seq<L1MatchView>>,
)
    requires
        swaps_by_id(x),
        x.swaps.contains_key(swap.id),
        x.swaps[swap.id] == swap,
    ensures
        ({
            let now = swap_processed(x, swap, height, hash, lookups).swaps[swap.id];
            &&& now.parent_chain == swap.parent_chain
            &&& now.l1_txid == swap.l1_txid || (is_blank(swap.l1_txid) && is_reported(
                x,
                lookups,
                swap.id,
                now.l1_txid,
            ))
        }),
{
    if lookups.contains_key(swap.id) {
        first_is(lookups[swap.id], swap.parent_chain.max_l1_tx_age_blocks);
    }
}

/// The swaps that were looked at before the `n`-th, and those that were not.
proof fn before_turn(
    s: StateView,
    height: u32,
    hash: BlockHash,
    lookups: Map<SwapId, Seq<L1MatchView>>,
    n: nat,
)
    requires
        swaps_by_id(s),
        n <= ordered(s.swaps.dom()).len(),
    ensures
        ({
            let ids = ordered(s.swaps.dom());
            let x = swaps_processed(s, all_swaps(s), height, hash, lookups, n);
            &&& lists(ids, s.swaps.dom())
            &&& took_their_own(s, x, lookups)
            &&& forall|j: int| n <= j < ids.len() ==> x.swaps[#[trigger] ids[j]] == s.swaps[ids[j]]
        }),
    decreases n,
{
    let ids = ordered(s.swaps.dom());
    finite_is_listed(s.swaps.dom());
    if n > 0 {
        before_turn(s, height, hash, lookups, (n - 1) as nat);
        let x = swaps_processed(s, all_swaps(s), height, hash, lookups, (n - 1) as nat);
        let id = ids[n - 1];
        assert(ids.contains(id));
        assert(s.swaps.contains_key(id));
        assert(x.swaps.dom().contains(id));
        let swap = s.swaps[id];
        assert(all_swaps(s)[n - 1] == swap);
        assert(x.swaps[ids[n - 1]] == swap);
        processing_keeps(x, swap, height, hash, lookups);
        takes_its_own(x, swap, height, hash, lookups);
        let y = swap_processed(x, swap, height, hash, lookups);
        assert forall|j: int| n <= j < ids.len() implies y.swaps[#[trigger] ids[j]]
            == s.swaps[ids[j]] by {
            assert(ids[n - 1].lt(ids[j]));
            SwapId::lt_irreflexive(id);
            assert(ids.contains(ids[j]));
            assert(s.swaps.dom().contains(ids[j]));
            assert(x.swaps.contains_key(ids[j]));
        }
        assert forall|other: SwapId| #[trigger] s.swaps.contains_key(other) implies (
        y.swaps[other].parent_chain == s.swaps[other].parent_chain && (y.swaps[other].l1_txid
            == s.swaps[other].l1_txid || (is_blank(s.swaps[other].l1_txid) && is_reported(
            s,
            lookups,
            other,
            y.swaps[other].l1_txid,
        )))) by {
            assert(x.swaps.dom().contains(other));
            assert(x.swaps.contains_key(other));
        }
    }
}

/// After its turn a swap stays as it is.
proof fn after_turn(
    s: StateView,
    height: u32,
    hash: BlockHash,
    lookups: Map<SwapId, Seq<L1MatchView>>,
    j: int,
    n: nat,
)
    requires
        swaps_by_id(s),
        0 <= j < n <= ordered(s.swaps.dom()).len(),
    ensures
        ({
            let ids = ordered(s.swaps.dom());
            let x = swaps_processed(s, all_swaps(s), height, hash, lookups, j as nat);
            let y = swaps_processed(s, all_swaps(s), height, hash, lookups, n);
            y.swaps[ids[j]] == swap_processed(
                x,
                s.swaps[ids[j]],
                height,
                hash,
                lookups,
            ).swaps[ids[j]]
        }),
    decreases n,
{
    let ids = ordered(s.swaps.dom());
    before_turn(s, height, hash, lookups, (n - 1) as nat);
    assert(ids.contains(ids[n - 1]));
    assert(ids.contains(ids[j]));
    assert(s.swaps.dom().contains(ids[n - 1]) && s.swaps.dom().contains(ids[j]));
    assert(s.swaps.contains_key(ids[n - 1]) && s.swaps.contains_key(ids[j]));
    let before = swaps_processed(s, all_swaps(s), height, hash, lookups, (n - 1) as nat);
    assert(all_swaps(s)[n - 1] == s.swaps[ids[n - 1]]);
    if j < n - 1 {
        after_turn(s, height, hash, lookups, j, (n - 1) as nat);
        assert(before.swaps.dom().contains(ids[n - 1]) && before.swaps.dom().contains(ids[j]));
        processing_keeps(before, s.swaps[ids[n - 1]], height, hash, lookups);
        assert(ids[j].lt(ids[n - 1]));
        SwapId::lt_irreflexive(ids[j]);
        assert(before.swaps.contains_key(ids[j]));
    }
}

/// Another swap could be paid by a payment: it was before, or it takes it now.
pub open spec fn may_pay_another(
    s: StateView,
    lookups: Map<SwapId, Seq<L1MatchView>>,
    swap: SwapView,
    txid: Seq<u8>,
) -> bool {
    exists|id: SwapId| #[trigger]
        s.swaps.contains_key(id) && id != swap.id && s.swaps[id].parent_chain == swap.parent_chain
            && (s.swaps[id].l1_txid == txid || (is_blank(s.swaps[id].l1_txid) && is_reported(
            s,
            lookups,
            id,
            txid,
        )))
}

/// What became of a swap that was looked at at this height.
pub open spec fn was_looked_at(
    s: StateView,
    height: u32,
    hash: BlockHash,
    lookups: Map<SwapId, Seq<L1MatchView>>,
    swap: SwapView,
    now: SwapView,
) -> bool {
    let matches = lookups[swap.id];
    let max_age = swap.parent_chain.max_l1_tx_age_blocks;
    let asked = lookups.contains_key(swap.id) && swap.l1_recipient_address is Some
        && swap.l1_amount is Some;
    if !waits_for_payment(swap) {
        now == swap
    } else if is_over(swap, height) {
        same_but_state(now, swap) && now.state == SwapState::Cancelled
    } else {
        &&& !asked || none_counts(matches, max_age) ==> now == swap
        &&& forall|i: int|
            asked && #[trigger] is_first_counted(matches, max_age, i) ==> {
                let m = matches[i];
                let paid = SwapView {
                    l1_txid: m.txid->0,
                    l1_txid_validated_at: Some((hash, height)),
                    ..swap
                };
                &&& m.txid is None ==> now == swap
                &&& m.txid is Some && !is_blank(swap.l1_txid) ==> if m.confirmations
                    > seen_before(swap) {
                    same_but_state(now, swap) && stands_paid(now, m.confirmations)
                } else {
                    now == swap
                }
                &&& m.txid is Some && is_blank(swap.l1_txid) ==> {
                    &&& now == swap || (same_but_state(now, paid) && stands_paid(
                        now,
                        m.confirmations,
                    ))
                    &&& !may_pay_another(s, lookups, swap, m.txid->0) ==> same_but_state(now, paid)
                        && stands_paid(now, m.confirmations)
                    &&& pays_another(s, swap, m.txid->0) && !is_blank(m.txid->0) ==> now == swap
                }
            }
    }
}

/// What becomes of each swap when all are looked at. One that does not wait for its
/// payment stays as it is. One that is past its end is cancelled. Otherwise a swap
/// whose parent chain answered follows the first payment that counts: one whose
/// payment is known moves on with more confirmations; one whose payment is not
/// known takes the payment for its own, unless it is, or becomes, that of another.
/// A swap that moves on is ready to be claimed exactly if there are as many
/// confirmations as it requires.
pub proof fn all_swaps_follow_their_payments(
    s: StateView,
    height: u32,
    hash: BlockHash,
    lookups: Map<SwapId, Seq<L1MatchView>>,
    id: SwapId,
)
    requires
        swaps_by_id(s),
        s.swaps.contains_key(id),
    ensures
        was_looked_at(
            s,
            height,
            hash,
            lookups,
            s.swaps[id],
            coinshift_processed(s, height, hash, lookups).swaps[id],
        ),
{
    let ids = ordered(s.swaps.dom());
    let swap = s.swaps[id];
    let max_age = swap.parent_chain.max_l1_tx_age_blocks;
    let matches = lookups[id];
    finite_is_listed(s.swaps.dom());
    assert(s.swaps.dom().contains(id));
    assert(ids.contains(id));
    let j = choose|j: int| 0 <= j < ids.len() && ids[j] == id;
    let x = swaps_processed(s, all_swaps(s), height, hash, lookups, j as nat);
    before_turn(s, height, hash, lookups, j as nat);
    after_turn(s, height, hash, lookups, j, ids.len());
    assert(x.swaps[ids[j]] == swap);
    assert(x.swaps.dom().contains(id));
    let after = swap_processed(x, swap, height, hash, lookups);
    assert(coinshift_processed(s, height, hash, lookups).swaps[id] == after.swaps[id]);
    if waits_for_payment(swap) && !is_over(swap, height) {
        if lookups.contains_key(id) && none_counts(matches, max_age) {
            swaps_stay_without_a_payment(x, swap, matches, hash, height);
        }
        assert forall|i: int|
            lookups.contains_key(swap.id) && swap.l1_recipient_address is Some
                && swap.l1_amount is Some && #[trigger] is_first_counted(
                matches,
                max_age,
                i,
            ) implies ({
            let m = matches[i];
            let now = after.swaps[id];
            let paid = SwapView {
                l1_txid: m.txid->0,
                l1_txid_validated_at: Some((hash, height)),
                ..swap
            };
            &&& m.txid is None ==> now == swap
            &&& m.txid is Some && !is_blank(swap.l1_txid) ==> if m.confirmations > seen_before(
                swap,
            ) {
                same_but_state(now, swap) && stands_paid(now, m.confirmations)
            } else {
                now == swap
            }
            &&& m.txid is Some && is_blank(swap.l1_txid) ==> {
                &&& now == swap || (same_but_state(now, paid) && stands_paid(
                    now,
                    m.confirmations,
                ))
                &&& !may_pay_another(s, lookups, swap, m.txid->0) ==> same_but_state(now, paid)
                    && stands_paid(now, m.confirmations)
                &&& pays_another(s, swap, m.txid->0) && !is_blank(m.txid->0) ==> now == swap
            }
        }) by {
            let m = matches[i];
            let r = swap_updated(x, swap, matches, hash, height);
            swaps_follow_their_first_payment(x, swap, matches, hash, height, i);
            assert(swap.id == id);
            assert(r matches Ok(Some(now)) ==> after.swaps[id] == now);
            assert(!(r matches Ok(Some(_))) ==> after.swaps[id] == swap);
            if m.txid is Some && is_blank(swap.l1_txid) {
                let txid = m.txid->0;
                if pays_another(x, swap, txid) {
                    let other = choose|other: SwapId| #[trigger]
                        x.swaps.contains_key(other) && other != swap.id
                            && x.swaps[other].parent_chain == swap.parent_chain
                            && x.swaps[other].l1_txid == txid;
                    assert(x.swaps.dom().contains(other));
                    assert(s.swaps.contains_key(other));
                    assert(may_pay_another(s, lookups, swap, txid));
                }
                if pays_another(s, swap, txid) && !is_blank(txid) {
                    let other = choose|other: SwapId| #[trigger]
                        s.swaps.contains_key(other) && other != swap.id
                            && s.swaps[other].parent_chain == swap.parent_chain
                            && s.swaps[other].l1_txid == txid;
                    assert(s.swaps.dom().contains(other));
                    assert(x.swaps.contains_key(other));
                    assert(x.swaps[other].l1_txid == txid);
                    assert(pays_another(x, swap, txid));
                    assert(swap.l1_txid != txid);
                }
            }
        }
    }
}

// What parent chains are asked.
/// A parent chain is asked for the payment of a swap at this height.
pub open spec fn is_asked(swap: SwapView, height: u32) -> bool {
    waits_for_payment(swap) && !is_over(swap, height) && swap.l1_recipient_address is Some
        && swap.l1_amount is Some
}

/// A query is that for a swap: to its recipient, of its amount, on its chain.
pub open spec fn asks_for(query: L1QueryView, swap: SwapView) -> bool {
    &&& query.swap_id == swap.id
    &&& query.parent_chain == swap.parent_chain
    &&& swap.l1_recipient_address == Some(query.l1_recipient_address)
    &&& swap.l1_amount == Some(query.l1_amount)
}

/// Each query for the first `n` swaps of a list is for one of them.
proof fn query_is_for(swaps: Seq<SwapView>, height: u32, n: nat, q: int) -> (i: int)
    requires
        n <= swaps.len(),
        0 <= q < queries(swaps, height, n).len(),
    ensures
        0 <= i < n,
        is_asked(swaps[i], height),
        asks_for(queries(swaps, height, n)[q], swaps[i]),
    decreases n,
{
    let before = queries(swaps, height, (n - 1) as nat);
    if q < before.len() {
        query_is_for(swaps, height, (n - 1) as nat, q)
    } else {
        n - 1
    }
}

/// There is a query for each of the first `n` swaps of a list that is asked for.
proof fn query_is_there(swaps: Seq<SwapView>, height: u32, n: nat, i: int) -> (q: int)
    requires
        0 <= i < n <= swaps.len(),
        is_asked(swaps[i], height),
    ensures
        0 <= q < queries(swaps, height, n).len(),
        asks_for(queries(swaps, height, n)[q], swaps[i]),
    decreases n,
{
    if i < n - 1 {
        query_is_there(swaps, height, (n - 1) as nat, i)
    } else {
        queries(swaps, height, (n - 1) as nat).len() as int
    }
}

/// Parent chains are asked for the payments of exactly those swaps that wait for
/// one, are not past their end, and have a recipient and an amount: payments to that
/// recipient, of that amount, on the chain of the swap.
pub proof fn parent_chains_are_asked(s: StateView, height: u32)
    requires
        swaps_by_id(s),
    ensures
        ({
            let all = queries(all_swaps(s), height, all_swaps(s).len());
            &&& forall|q: int|
                0 <= q < all.len() ==> s.swaps.contains_key((#[trigger] all[q]).swap_id)
                    && is_asked(s.swaps[all[q].swap_id], height) && asks_for(
                    all[q],
                    s.swaps[all[q].swap_id],
                )
            &&& forall|id: SwapId| #[trigger]
                s.swaps.contains_key(id) && is_asked(s.swaps[id], height) ==> exists|q: int|
                    0 <= q < all.len() && asks_for(#[trigger] all[q], s.swaps[id])
        }),
{
    let swaps = all_swaps(s);
    let ids = ordered(s.swaps.dom());
    let all = queries(swaps, height, swaps.len());
    finite_is_listed(s.swaps.dom());
    assert forall|q: int| 0 <= q < all.len() implies s.swaps.contains_key(
        (#[trigger] all[q]).swap_id,
    ) && is_asked(s.swaps[all[q].swap_id], height) && asks_for(
        all[q],
        s.swaps[all[q].swap_id],
    ) by {
        let i = query_is_for(swaps, height, swaps.len(), q);
        assert(ids.contains(ids[i]));
        assert(s.swaps.contains_key(ids[i]));
        assert(s.swaps[ids[i]].id == ids[i]);
    }
    assert forall|id: SwapId| #[trigger]
        s.swaps.contains_key(id) && is_asked(s.swaps[id], height) implies exists|q: int|
        0 <= q < all.len() && asks_for(#[trigger] all[q], s.swaps[id]) by {
        assert(s.swaps.dom().contains(id));
        assert(ids.contains(id));
        let i = choose|i: int| 0 <= i < ids.len() && ids[i] == id;
        let q = query_is_there(swaps, height, swaps.len(), i);
        assert(asks_for(all[q], s.swaps[id]));
    }
}

} // verus!
