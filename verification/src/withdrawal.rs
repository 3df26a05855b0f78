//! Withdrawal bundles: what pays coins of the sidechain out on the mainchain.
use vstd::prelude::*;

use crate::ids::M6id;
use crate::mainchain::{TxOut, TxOutView};
use crate::types::{OutPoint, Output, OutputView};

verus! {

/// What happened to a bundle on the mainchain.
#[derive(Clone, Copy, PartialEq, Eq, Structural, Debug)]
pub enum WithdrawalBundleStatus {
    Submitted,
    Confirmed,
    Failed,
}

/// A withdrawal bundle. `spend_utxos` are the sidechain outputs that it spends,
/// in the order of their outpoints; `outputs` pay them out.
pub struct WithdrawalBundle {
    pub m6id: M6id,
    pub fee: u64,
    pub spend_utxos: Vec<(OutPoint, Output)>,
    pub outputs: Vec<TxOut>,
}

#[verifier::ext_equal]
pub struct WithdrawalBundleView {
    pub m6id: M6id,
    pub fee: u64,
    pub spend_utxos: Seq<(OutPoint, OutputView)>,
    pub outputs: Seq<TxOutView>,
}

/// Outputs with their outpoints.
pub open spec fn pointed(v: Seq<(OutPoint, Output)>) -> Seq<(OutPoint, OutputView)> {
    Seq::new(v.len(), |i: int| (v[i].0, v[i].1.deep_view()))
}

impl DeepView for WithdrawalBundle {
    type V = WithdrawalBundleView;

    open spec fn deep_view(&self) -> WithdrawalBundleView {
        WithdrawalBundleView {
            m6id: self.m6id,
            fee: self.fee,
            spend_utxos: pointed(self.spend_utxos@),
            outputs: self.outputs.deep_view(),
        }
    }
}

/// What is known of a bundle that the mainchain speaks of.
pub enum WithdrawalBundleInfo {
    Known(WithdrawalBundle),
    /// The bundle was never made here.
    Unknown,
    /// The bundle was never made here and was confirmed: it took these outputs.
    UnknownConfirmed { spend_utxos: Vec<(OutPoint, Output)> },
}

#[verifier::ext_equal]
pub enum WithdrawalBundleInfoView {
    Known(WithdrawalBundleView),
    Unknown,
    UnknownConfirmed { spend_utxos: Seq<(OutPoint, OutputView)> },
}

impl DeepView for WithdrawalBundleInfo {
    type V = WithdrawalBundleInfoView;

    open spec fn deep_view(&self) -> WithdrawalBundleInfoView {
        match self {
            WithdrawalBundleInfo::Known(bundle) => WithdrawalBundleInfoView::Known(
                bundle.deep_view(),
            ),
            WithdrawalBundleInfo::Unknown => WithdrawalBundleInfoView::Unknown,
            WithdrawalBundleInfo::UnknownConfirmed { spend_utxos } =>
                WithdrawalBundleInfoView::UnknownConfirmed { spend_utxos: pointed(spend_utxos@) },
        }
    }
}

impl WithdrawalBundleInfo {
    /// Tells whether the bundle was made here.
    pub fn is_known(&self) -> (r: bool)
        ensures
            r == (self.deep_view() is Known),
    {
        match self {
            WithdrawalBundleInfo::Known(_) => true,
            _ => false,
        }
    }
}

} // verus!
