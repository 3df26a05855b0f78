//! The state of the sidechain.
use vstd::prelude::*;

use crate::accumulator::Accumulator;
use crate::ids::{BlockHash, M6id, MainBlockHash, SwapId};
use crate::rollback::{HeightStamped, RollBack};
use crate::swap::{ParentChainType, Swap, SwapTxId, SwapView};
use crate::table::{ordered, Table};
use crate::types::{OutPoint, Output, OutputView, SpentOutput, SpentOutputView};
use crate::withdrawal::{
    WithdrawalBundle, WithdrawalBundleInfo, WithdrawalBundleInfoView, WithdrawalBundleStatus,
    WithdrawalBundleView,
};

verus! {

/// All that the sidechain knows.
pub struct State {
    /// The block that was connected last.
    pub tip: Option<BlockHash>,
    /// Its height.
    pub height: Option<u32>,
    /// Unspent outputs.
    pub utxos: Table<OutPoint, Output>,
    /// Spent outputs.
    pub stxos: Table<OutPoint, SpentOutput>,
    /// The accumulator of unspent outputs.
    pub accumulator: Accumulator,
    pub swaps: Table<SwapId, Swap>,
    /// Outputs that are set aside for a swap.
    pub locked_swap_outputs: Table<OutPoint, SwapId>,
    /// The bundle that waits to be submitted, and the height that it was made
    /// at.
    pub pending_withdrawal_bundle: Option<(WithdrawalBundle, u32)>,
    /// The bundles that the mainchain spoke of.
    pub withdrawal_bundles: Table<
        M6id,
        (WithdrawalBundleInfo, RollBack<WithdrawalBundleStatus>),
    >,
    /// The bundle that failed last.
    pub latest_failed_withdrawal_bundle: Option<RollBack<M6id>>,
    /// Mainchain blocks with deposits, numbered, with the height that they
    /// were seen at.
    pub deposit_blocks: Table<u32, (MainBlockHash, u32)>,
    /// Mainchain blocks with events of bundles, numbered, with the height that
    /// they were seen at.
    pub withdrawal_bundle_event_blocks: Table<u32, (MainBlockHash, u32)>,
    /// How many blocks go by after a bundle fails before another is made.
    pub withdrawal_bundle_failure_gap: u32,
}

#[verifier::ext_equal]
pub struct StateView {
    pub tip: Option<BlockHash>,
    pub height: Option<u32>,
    pub utxos: Map<OutPoint, OutputView>,
    pub stxos: Map<OutPoint, SpentOutputView>,
    pub accumulator: Seq<u8>,
    pub swaps: Map<SwapId, SwapView>,
    pub locked_swap_outputs: Map<OutPoint, SwapId>,
    pub pending_withdrawal_bundle: Option<(WithdrawalBundleView, u32)>,
    pub withdrawal_bundles: Map<
        M6id,
        (WithdrawalBundleInfoView, Seq<HeightStamped<WithdrawalBundleStatus>>),
    >,
    pub latest_failed_withdrawal_bundle: Option<Seq<HeightStamped<M6id>>>,
    pub deposit_blocks: Map<u32, (MainBlockHash, u32)>,
    pub withdrawal_bundle_event_blocks: Map<u32, (MainBlockHash, u32)>,
    pub withdrawal_bundle_failure_gap: u32,
}

impl View for State {
    type V = StateView;

    open spec fn view(&self) -> StateView {
        StateView {
            tip: self.tip,
            height: self.height,
            utxos: self.utxos@,
            stxos: self.stxos@,
            accumulator: self.accumulator@,
            swaps: self.swaps@,
            locked_swap_outputs: self.locked_swap_outputs@,
            pending_withdrawal_bundle: self.pending_withdrawal_bundle.deep_view(),
            withdrawal_bundles: self.withdrawal_bundles@,
            latest_failed_withdrawal_bundle: self.latest_failed_withdrawal_bundle.deep_view(),
            deposit_blocks: self.deposit_blocks@,
            withdrawal_bundle_event_blocks: self.withdrawal_bundle_event_blocks@,
            withdrawal_bundle_failure_gap: self.withdrawal_bundle_failure_gap,
        }
    }
}

impl StateView {
    /// The height of the block that is connected next.
    pub open spec fn next_height(self) -> int {
        match self.height {
            Some(height) => height + 1,
            None => 0,
        }
    }

    /// The swap, of those in `ids`, whose payment on `chain` is `txid`; the
    /// first of them if there are more.
    pub open spec fn paid_by(
        self,
        chain: ParentChainType,
        txid: Seq<u8>,
        ids: Seq<SwapId>,
    ) -> Option<SwapView>
        decreases ids.len(),
    {
        if ids.len() == 0 {
            None
        } else {
            let swap = self.swaps[ids[0]];
            if swap.parent_chain == chain && swap.l1_txid == txid {
                Some(swap)
            } else {
                self.paid_by(chain, txid, ids.drop_first())
            }
        }
    }

    /// The swap whose payment on `chain` is `txid`; that of the lowest id if
    /// there are more.
    pub open spec fn swap_by_l1_txid(self, chain: ParentChainType, txid: Seq<u8>) -> Option<
        SwapView,
    > {
        self.paid_by(chain, txid, ordered(self.swaps.dom()))
    }
}

impl State {
    /// A state that knows nothing.
    pub fn new(withdrawal_bundle_failure_gap: u32) -> (r: State)
        ensures
            r@ == (StateView {
                tip: None,
                height: None,
                utxos: Map::empty(),
                stxos: Map::empty(),
                accumulator: Seq::new(16, |i: int| 0u8),
                swaps: Map::empty(),
                locked_swap_outputs: Map::empty(),
                pending_withdrawal_bundle: None,
                withdrawal_bundles: Map::empty(),
                latest_failed_withdrawal_bundle: None,
                deposit_blocks: Map::empty(),
                withdrawal_bundle_event_blocks: Map::empty(),
                withdrawal_bundle_failure_gap,
            }),
    {
        State {
            tip: None,
            height: None,
            utxos: Table::new(),
            stxos: Table::new(),
            accumulator: Accumulator::new(),
            swaps: Table::new(),
            locked_swap_outputs: Table::new(),
            pending_withdrawal_bundle: None,
            withdrawal_bundles: Table::new(),
            latest_failed_withdrawal_bundle: None,
            deposit_blocks: Table::new(),
            withdrawal_bundle_event_blocks: Table::new(),
            withdrawal_bundle_failure_gap,
        }
    }

    /// The height of the block that is connected next.
    pub fn next_height(&self) -> (r: u32)
        requires
            self@.height != Some(u32::MAX),
        ensures
            r == self@.next_height(),
    {
        match self.height {
            Some(height) => height + 1,
            None => 0,
        }
    }

    /// The swap of this id.
    pub fn get_swap(&self, swap_id: &SwapId) -> (r: Option<Swap>)
        ensures
            match r {
                Some(swap) => self@.swaps.contains_key(*swap_id) && swap.deep_view()
                    == self@.swaps[*swap_id],
                None => !self@.swaps.contains_key(*swap_id),
            },
    {
        match self.swaps.try_get(swap_id) {
            Some(swap) => Some(swap.clone()),
            None => None,
        }
    }

    /// Keeps a swap, in place of the one that had its id.
    pub fn save_swap(&mut self, swap: Swap)
        ensures
            final(self)@ == (StateView {
                swaps: old(self)@.swaps.insert(swap.id, swap.deep_view()),
                ..old(self)@
            }),
    {
        self.swaps.put(swap.id, swap);
    }

    /// Forgets a swap.
    pub fn delete_swap_unchecked(&mut self, swap_id: &SwapId)
        ensures
            final(self)@ == (StateView {
                swaps: old(self)@.swaps.remove(*swap_id),
                ..old(self)@
            }),
    {
        let _ = self.swaps.delete(swap_id);
    }

    /// Sets an output aside for a swap.
    pub fn lock_output_to_swap(&mut self, outpoint: &OutPoint, swap_id: &SwapId)
        ensures
            final(self)@ == (StateView {
                locked_swap_outputs: old(self)@.locked_swap_outputs.insert(*outpoint, *swap_id),
                ..old(self)@
            }),
    {
        self.locked_swap_outputs.put(*outpoint, *swap_id);
    }

    /// Releases an output that was set aside.
    pub fn unlock_output_from_swap(&mut self, outpoint: &OutPoint)
        ensures
            final(self)@ == (StateView {
                locked_swap_outputs: old(self)@.locked_swap_outputs.remove(*outpoint),
                ..old(self)@
            }),
    {
        let _ = self.locked_swap_outputs.delete(outpoint);
    }

    /// The swap that an output is set aside for.
    pub fn is_output_locked_to_swap(&self, outpoint: &OutPoint) -> (r: Option<SwapId>)
        ensures
            r == if self@.locked_swap_outputs.contains_key(*outpoint) {
                Some(self@.locked_swap_outputs[*outpoint])
            } else {
                None
            },
    {
        match self.locked_swap_outputs.try_get(outpoint) {
            Some(swap_id) => Some(*swap_id),
            None => None,
        }
    }

    /// The swap whose payment on `chain` is `txid`.
    pub fn get_swap_by_l1_txid(&self, chain: &ParentChainType, txid: &SwapTxId) -> (r: Option<Swap>)
        ensures
            r.deep_view() == self@.swap_by_l1_txid(*chain, txid.deep_view()),
    {
        let ids = self.swaps.keys();
        let n: usize = ids.len();
        assert(ids@.skip(0) =~= ids@);
        for i in 0..n
            invariant
                n == ids@.len(),
                ids@ == ordered(self@.swaps.dom()),
                crate::table::lists(ids@, self@.swaps.dom()),
                self@.swap_by_l1_txid(*chain, txid.deep_view()) == self@.paid_by(
                    *chain,
                    txid.deep_view(),
                    ids@.skip(i as int),
                ),
        {
            assert(ids@.contains(ids@[i as int]));
            assert(ids@.skip(i as int).drop_first() =~= ids@.skip(i + 1));
            if let Some(swap) = self.swaps.try_get(&ids[i]) {
                if swap.parent_chain == *chain && swap.l1_txid.same(txid) {
                    return Some(swap.clone());
                }
            }
        }
        None
    }
}

} // verus!
