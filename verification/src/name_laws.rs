//! The order of names, and finding swaps by what they are named.
use vstd::prelude::*;

use crate::coinshift::all_swaps;
use crate::ids::{Hash256, M6id, MainTxid, MerkleRoot, SwapId, Txid};
use crate::mainchain::{address_before, bytes_before, MainAddressView};
use crate::state::StateView;
use crate::swap::{ParentChainType, SwapView};
use crate::table::{finite_is_listed, ordered, Key};
use crate::types::OutPoint;

verus! {

/// The number that the bytes of a hash spell.
pub open spec fn hash_number(hash: Hash256) -> int {
    hash.hi * 0x1_0000_0000_0000_0000_0000_0000_0000_0000 + hash.lo
}

/// Hashes, and what is named by one, come in the order of the numbers that they spell.
pub proof fn hashes_come_by_number(a: Hash256, b: Hash256)
    ensures
        a.lt(b) <==> hash_number(a) < hash_number(b),
        SwapId(a).lt(SwapId(b)) <==> hash_number(a) < hash_number(b),
        M6id(a).lt(M6id(b)) <==> hash_number(a) < hash_number(b),
{
}

/// Outpoints of transactions come first, then those of coinbases, then those of deposits.
/// Those of one kind come in the order of the hashes that name them, and those of one hash
/// in the order of their outputs.
pub proof fn outpoints_come_by_kind(a: Hash256, b: Hash256, i: u32, j: u32)
    ensures
        ({
            let first = hash_number(a) < hash_number(b) || (a == b && i < j);
            let regular = |h: Hash256, vout: u32| OutPoint::Regular { txid: Txid(h), vout };
            let coinbase = |h: Hash256, vout: u32| OutPoint::Coinbase {
                merkle_root: MerkleRoot(h),
                vout,
            };
            let deposit = |h: Hash256, vout: u32| OutPoint::Deposit {
                main_txid: MainTxid(h),
                vout,
            };
            &&& regular(a, i).lt(regular(b, j)) <==> first
            &&& coinbase(a, i).lt(coinbase(b, j)) <==> first
            &&& deposit(a, i).lt(deposit(b, j)) <==> first
            &&& regular(a, i).lt(coinbase(b, j))
            &&& coinbase(a, i).lt(deposit(b, j))
            &&& regular(a, i).lt(deposit(b, j))
            &&& !coinbase(a, i).lt(regular(b, j))
            &&& !deposit(a, i).lt(coinbase(b, j))
            &&& !deposit(a, i).lt(regular(b, j))
        }),
{
}

/// Of two texts that begin alike, the one with the lower byte at the first difference comes
/// first; one that ends where the other goes on comes first.
pub proof fn texts_come_by_first_difference(start: Seq<u8>, a: Seq<u8>, b: Seq<u8>)
    requires
        a.len() > 0 && b.len() > 0 ==> a[0] != b[0],
    ensures
        bytes_before(start + a, start + b) <==> b.len() > 0 && (a.len() == 0 || a[0] < b[0]),
    decreases start.len(),
{
    if start.len() == 0 {
        assert(start + a =~= a);
        assert(start + b =~= b);
    } else {
        let rest = start.drop_first();
        assert((start + a).drop_first() =~= rest + a);
        assert((start + b).drop_first() =~= rest + b);
        texts_come_by_first_difference(rest, a, b);
    }
}

/// Addresses come in the order of their texts; those of one text in that of their scripts.
pub proof fn addresses_come_by_text(a: MainAddressView, b: MainAddressView)
    ensures
        a.text != b.text ==> (address_before(a, b) <==> bytes_before(a.text, b.text)),
        a.text == b.text ==> (address_before(a, b) <==> bytes_before(
            a.script_pubkey,
            b.script_pubkey,
        )),
{
    let same = Seq::<u8>::empty();
    texts_come_by_first_difference(a.text, same, same);
    assert(a.text + same =~= a.text);
}

/// A swap was paid with a payment on a chain.
pub open spec fn is_paid_with(swap: SwapView, chain: ParentChainType, txid: Seq<u8>) -> bool {
    swap.parent_chain == chain && swap.l1_txid == txid
}

/// The first of the ids whose swap was paid with a payment is found.
proof fn first_paid(s: StateView, chain: ParentChainType, txid: Seq<u8>, ids: Seq<SwapId>, i: int)
    requires
        0 <= i < ids.len(),
        is_paid_with(s.swaps[ids[i]], chain, txid),
        forall|j: int| 0 <= j < i ==> !is_paid_with(s.swaps[#[trigger] ids[j]], chain, txid),
    ensures
        s.paid_by(chain, txid, ids) == Some(s.swaps[ids[i]]),
    decreases ids.len(),
{
    if i > 0 {
        let rest = ids.drop_first();
        assert(!is_paid_with(s.swaps[ids[0]], chain, txid));
        assert forall|j: int| 0 <= j < i - 1 implies !is_paid_with(
            s.swaps[#[trigger] rest[j]],
            chain,
            txid,
        ) by {
            assert(rest[j] == ids[j + 1]);
        }
        first_paid(s, chain, txid, rest, i - 1);
    }
}

/// The swap that was paid with a payment is found. If there are more, it is that of the lowest
/// id; if there is none, none is found.
pub proof fn payments_find_their_swap(
    s: StateView,
    chain: ParentChainType,
    txid: Seq<u8>,
    id: SwapId,
)
    requires
        s.swaps.dom().finite(),
    ensures
        s.swaps.contains_key(id) && is_paid_with(s.swaps[id], chain, txid) && (forall|
            other: SwapId,
        | #[trigger]
            s.swaps.contains_key(other) && is_paid_with(s.swaps[other], chain, txid)
                ==> hash_number(id.0) <= hash_number(other.0)) ==> s.swap_by_l1_txid(chain, txid)
            == Some(s.swaps[id]),
        (forall|other: SwapId| #[trigger]
            s.swaps.contains_key(other) ==> !is_paid_with(s.swaps[other], chain, txid))
            ==> s.swap_by_l1_txid(chain, txid) is None,
{
    let ids = ordered(s.swaps.dom());
    finite_is_listed(s.swaps.dom());
    assert forall|j: int| 0 <= j < ids.len() implies s.swaps.contains_key(#[trigger] ids[j]) by {
        assert(ids.contains(ids[j]));
    }
    if s.swaps.contains_key(id) && is_paid_with(s.swaps[id], chain, txid) && (forall|
        other: SwapId,
    | #[trigger]
        s.swaps.contains_key(other) && is_paid_with(s.swaps[other], chain, txid) ==> hash_number(
            id.0,
        ) <= hash_number(other.0)) {
        assert(s.swaps.dom().contains(id));
        assert(ids.contains(id));
        let i = choose|i: int| 0 <= i < ids.len() && ids[i] == id;
        assert forall|j: int| 0 <= j < i implies !is_paid_with(
            s.swaps[#[trigger] ids[j]],
            chain,
            txid,
        ) by {
            assert(ids[j].lt(ids[i]));
            assert(s.swaps.contains_key(ids[j]));
            hashes_come_by_number(ids[j].0, ids[i].0);
        }
        first_paid(s, chain, txid, ids, i);
    }
    crate::coinshift_laws::paid_by_finds(s, chain, txid, ids);
}

/// The list of all swaps holds each once, in the order of the numbers that their ids spell.
pub proof fn swaps_are_listed_by_id(s: StateView)
    requires
        s.swaps.dom().finite(),
        forall|id: SwapId| #[trigger] s.swaps.contains_key(id) ==> s.swaps[id].id == id,
    ensures
        forall|i: int, j: int|
            #![trigger all_swaps(s)[i], all_swaps(s)[j]]
            0 <= i < j < all_swaps(s).len() ==> hash_number(all_swaps(s)[i].id.0) < hash_number(
                all_swaps(s)[j].id.0,
            ),
        forall|i: int|
            0 <= i < all_swaps(s).len() ==> s.swaps.contains_key((#[trigger] all_swaps(s)[i]).id)
                && s.swaps[all_swaps(s)[i].id] == all_swaps(s)[i],
        forall|id: SwapId| #[trigger]
            s.swaps.contains_key(id) ==> all_swaps(s).contains(s.swaps[id]),
{
    let ids = ordered(s.swaps.dom());
    let all = all_swaps(s);
    finite_is_listed(s.swaps.dom());
    assert forall|i: int| 0 <= i < ids.len() implies s.swaps.contains_key(#[trigger] ids[i])
        && all[i].id == ids[i] by {
        assert(ids.contains(ids[i]));
    }
    assert forall|i: int, j: int|
        #![trigger all[i], all[j]]
        0 <= i < j < all.len() implies hash_number(all[i].id.0) < hash_number(all[j].id.0) by {
        assert(ids[i].lt(ids[j]));
        hashes_come_by_number(ids[i].0, ids[j].0);
    }
    assert forall|id: SwapId| #[trigger] s.swaps.contains_key(id) implies all.contains(
        s.swaps[id],
    ) by {
        assert(s.swaps.dom().contains(id));
        assert(ids.contains(id));
        let i = choose|i: int| 0 <= i < ids.len() && ids[i] == id;
        assert(all[i] == s.swaps[id]);
    }
}

} // verus!
