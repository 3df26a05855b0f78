//! The parts that checking a block is made of.
use rayon::slice::ParallelSliceMut;
use vstd::prelude::*;
use vstd::seq_lib::*;

use crate::accumulator::{Accumulator, AccumulatorDiff, UtreexoError};
use crate::block_model::{
    change_taken, claimed, coins, ending_fault, filled, frame_fault, looked_up, owners, owners_of,
    owners_signed, proof_fault, root_fault, roots_after, roots_fault, spent_outpoints, verdict,
    verdicts, BodyFacts, Owner,
};
use crate::error::{Error, Fault, Halt, InvalidHeader};
use crate::ids::{Hash256, NodeHash, Txid};
use crate::state::State;
use crate::types::{
    numbers_before, Authorization, Body, FilledTransaction, FilledTransactionView, Header, OutPoint,
    Output, OutputView, Transaction,
};

verus! {

/// Calls `rayon`'s `par_sort_unstable`. The contract says that the list holds
/// the same items as before, smallest first, as tuples of integers are ordered.
#[verifier::external_body]
fn sort(items: &mut Vec<(u8, u128, u128, u32)>)
    ensures
        final(items)@.to_multiset() == old(items)@.to_multiset(),
        forall|i: int, j: int|
            #![trigger final(items)@[i], final(items)@[j]]
            0 <= i < j < final(items)@.len() ==> !numbers_before(
                final(items)@[j],
                final(items)@[i],
            ),
{
    items.par_sort_unstable();
}

/// In a sorted list, equal items stand side by side.
proof fn repeats_are_neighbours(items: Seq<(u8, u128, u128, u32)>, i: int, j: int)
    requires
        forall|i: int, j: int|
            #![trigger items[i], items[j]]
            0 <= i < j < items.len() ==> !numbers_before(items[j], items[i]),
        0 <= i < j < items.len(),
        items[i] == items[j],
    ensures
        items[i] == items[i + 1],
{
    if i + 1 < j {
        assert(!numbers_before(items[i + 1], items[i]));
        assert(!numbers_before(items[j], items[i + 1]));
    }
}

/// Tells whether some item occurs twice.
fn has_repeats(list: Vec<(u8, u128, u128, u32)>) -> (r: bool)
    ensures
        r == !list@.no_duplicates(),
{
    let ghost before = list@;
    let mut items = list;
    sort(&mut items);
    let ghost sorted = items@;
    proof {
        if before.no_duplicates() {
            before.lemma_multiset_has_no_duplicates();
            sorted.lemma_multiset_has_no_duplicates_conv();
        }
        if sorted.no_duplicates() {
            sorted.lemma_multiset_has_no_duplicates();
            before.lemma_multiset_has_no_duplicates_conv();
        }
    }
    let n: usize = items.len();
    let mut i: usize = 1;
    while i < n
        invariant
            1 <= i,
            n == items@.len(),
            n >= 1 ==> i <= n,
            items@ == sorted,
            sorted.no_duplicates() == list@.no_duplicates(),
            forall|k: int| 1 <= k < i ==> #[trigger] sorted[k] != sorted[k - 1],
        decreases n - i,
    {
        let a = items[i - 1];
        let b = items[i];
        if a.0 == b.0 && a.1 == b.1 && a.2 == b.2 && a.3 == b.3 {
            assert(sorted[i as int] == sorted[i - 1]);
            return true;
        }
        i = i + 1;
    }
    proof {
        if !sorted.no_duplicates() {
            let (a, b) = choose|a: int, b: int|
                0 <= a < sorted.len() && 0 <= b < sorted.len() && a != b && sorted[a] == sorted[b];
            let low = if a < b {
                a
            } else {
                b
            };
            let high = if a < b {
                b
            } else {
                a
            };
            repeats_are_neighbours(sorted, low, high);
            assert(sorted[low + 1] != sorted[low + 1 - 1]);
        }
    }
    false
}

/// Tells whether no output is spent twice.
pub fn spends_once(txs: &Vec<Transaction>) -> (r: bool)
    ensures
        r == spent_outpoints(txs.deep_view(), txs.deep_view().len()).no_duplicates(),
{
    let ghost all = txs.deep_view();
    let mut items: Vec<(u8, u128, u128, u32)> = Vec::new();
    let n: usize = txs.len();
    for i in 0..n
        invariant
            n == txs@.len(),
            all == txs.deep_view(),
            items@ =~= spent_outpoints(all, i as nat).map_values(|p: OutPoint| p.numbers()),
    {
        let inputs = &txs[i].inputs;
        assert(all[i as int].inputs == inputs@);
        let ghost start = items@;
        let m: usize = inputs.len();
        for j in 0..m
            invariant
                m == inputs@.len(),
                items@ =~= start + Seq::new(j as nat, |k: int| inputs@[k].0.numbers()),
        {
            items.push(inputs[j].0.to_numbers());
        }
    }
    let ghost points = spent_outpoints(all, all.len());
    proof {
        assert(items@ =~= points.map_values(|p: OutPoint| p.numbers()));
        if points.no_duplicates() {
            assert forall|i: int, j: int|
                0 <= i < items@.len() && 0 <= j < items@.len() && i != j implies items@[i]
                != items@[j] by {
                if items@[i] == items@[j] {
                    OutPoint::numbers_injective(points[i], points[j]);
                }
            }
        }
        if items@.no_duplicates() {
            assert forall|i: int, j: int|
                0 <= i < points.len() && 0 <= j < points.len() && i != j implies points[i]
                != points[j] by {
                assert(items@[i] != items@[j]);
            }
        }
    }
    !has_repeats(items)
}

/// A lookup that failed stays failed.
proof fn lookup_stays(
    utxos: Map<OutPoint, OutputView>,
    inputs: Seq<(OutPoint, Hash256)>,
    i: nat,
    n: nat,
)
    requires
        i <= n,
        looked_up(utxos, inputs, i) is Err,
    ensures
        looked_up(utxos, inputs, n) == looked_up(utxos, inputs, i),
    decreases n - i,
{
    if i < n {
        lookup_stays(utxos, inputs, i, (n - 1) as nat);
    }
}

impl State {
    /// Finds the outputs that a transaction spends.
    pub fn fill_transaction(&self, tx: &Transaction) -> (r: Result<FilledTransaction, Error>)
        ensures
            match r {
                Ok(f) => filled(self@.utxos, tx.deep_view()) == Ok::<
                    FilledTransactionView,
                    Error,
                >(f.deep_view()),
                Err(e) => filled(self@.utxos, tx.deep_view()) == Err::<
                    FilledTransactionView,
                    Error,
                >(e),
            },
    {
        let mut spent_utxos: Vec<Output> = Vec::new();
        let n: usize = tx.inputs.len();
        assert(spent_utxos.deep_view() =~= Seq::empty());
        for i in 0..n
            invariant
                n == tx.inputs@.len(),
                looked_up(self@.utxos, tx.inputs@, i as nat) == Ok::<
                    Seq<OutputView>,
                    Error,
                >(spent_utxos.deep_view()),
        {
            let outpoint = tx.inputs[i].0;
            match self.utxos.try_get(&outpoint) {
                Some(output) => {
                    let ghost before = spent_utxos.deep_view();
                    spent_utxos.push(output.clone());
                    assert(spent_utxos.deep_view() =~= before.push(output.deep_view()));
                },
                None => {
                    proof {
                        lookup_stays(self@.utxos, tx.inputs@, (i + 1) as nat, n as nat);
                    }
                    return Err(Error::NoUtxo { outpoint });
                },
            }
        }
        Ok(FilledTransaction { transaction: tx.clone(), spent_utxos })
    }

    /// Finds whether the proof of a transaction holds.
    pub fn judge_proof(&self, tx: &Transaction) -> (r: Option<bool>)
        ensures
            r == verdict(self@.accumulator, tx.deep_view()),
    {
        let mut leaves: Vec<Hash256> = Vec::new();
        let n: usize = tx.inputs.len();
        for i in 0..n
            invariant
                n == tx.inputs@.len(),
                leaves@ =~= claimed(tx.inputs@).take(i as int),
        {
            leaves.push(tx.inputs[i].1);
        }
        assert(leaves@ =~= claimed(tx.inputs@));
        match self.accumulator.verify(&tx.proof, &leaves) {
            Ok(holds) => Some(holds),
            Err(_) => None,
        }
    }

    /// Finds whether the proofs of transactions hold.
    pub fn judge_proofs(&self, txs: &Vec<Transaction>) -> (r: Vec<Option<bool>>)
        ensures
            r@ == verdicts(self@.accumulator, txs.deep_view()),
    {
        let ghost all = verdicts(self@.accumulator, txs.deep_view());
        let mut r: Vec<Option<bool>> = Vec::new();
        let n: usize = txs.len();
        for i in 0..n
            invariant
                n == txs@.len(),
                all == verdicts(self@.accumulator, txs.deep_view()),
                r@ =~= all.take(i as int),
        {
            assert(txs.deep_view()[i as int] == txs@[i as int].deep_view());
            r.push(self.judge_proof(&txs[i]));
        }
        assert(r@ =~= all);
        r
    }

    /// Finds the roots that the accumulator has once a change is made.
    pub fn find_roots_after(&self, diff: &AccumulatorDiff) -> (r: Result<Vec<NodeHash>, Fault>)
        ensures
            match r {
                Ok(roots) => roots_after(self@.accumulator, diff@) == Ok::<
                    Seq<NodeHash>,
                    Fault,
                >(roots@),
                Err(fault) => roots_after(self@.accumulator, diff@) == Err::<
                    Seq<NodeHash>,
                    Fault,
                >(fault),
            },
    {
        match self.accumulator.with_diff(diff) {
            Ok(after) => Ok(after.get_roots()),
            Err(fault) => Err(fault),
        }
    }

    /// Takes over what the accumulator became, or reports why it did not change.
    pub fn take_change(&mut self, changed: Result<Accumulator, Fault>) -> (r: Result<(), Fault>)
        ensures
            ({
                let step = change_taken(
                    old(self)@,
                    match changed {
                        Ok(accumulator) => Ok(accumulator@),
                        Err(fault) => Err(fault),
                    },
                );
                &&& final(self)@ == step.state
                &&& r == step.reports(())
            }),
    {
        match changed {
            Ok(accumulator) => {
                self.accumulator = accumulator;
                Ok(())
            },
            Err(fault) => Err(fault),
        }
    }

    /// Finds what is wrong with where a block stands, or with its size.
    pub fn check_frame(&self, header: &Header, body: &Body, facts: &BodyFacts) -> (r: Result<
        (),
        Fault,
    >)
        ensures
            r == match frame_fault(self@, header.deep_view(), body.deep_view(), facts@) {
                Some(fault) => Err::<(), Fault>(fault),
                None => Ok(()),
            },
    {
        if header.prev_side_hash != self.tip {
            return Err(
                Fault::Error(
                    Error::InvalidHeader(
                        InvalidHeader::PrevSideHash {
                            expected: self.tip,
                            received: header.prev_side_hash,
                        },
                    ),
                ),
            );
        }
        if self.height == Some(u32::MAX) {
            return Err(Fault::Halt(Halt::OutOfRange));
        }
        if body.authorizations.len() > facts.sigops_limit {
            return Err(Fault::Error(Error::TooManySigops));
        }
        match facts.size {
            None => Err(Fault::Error(Error::BorshSerialize)),
            Some(size) => if size > facts.size_limit {
                Err(Fault::Error(Error::BodyTooLarge))
            } else {
                Ok(())
            },
        }
    }
}

/// Finds what is wrong with the proof of a transaction.
pub fn check_verdict(verdict: Option<bool>, txid: Txid) -> (r: Result<(), Error>)
    ensures
        r == match proof_fault(verdict, txid) {
            Some(e) => Err::<(), Error>(e),
            None => Ok(()),
        },
{
    match verdict {
        Some(true) => Ok(()),
        Some(false) => Err(Error::UtreexoProofFailed { txid }),
        None => Err(Error::Utreexo(UtreexoError)),
    }
}

/// Finds what is wrong with the roots that a header commits to.
pub fn check_roots(header: &Header, roots: &Result<Vec<NodeHash>, Fault>) -> (r: Result<(), Fault>)
    ensures
        r == match roots_fault(
            header.deep_view(),
            match roots {
                Ok(roots) => Ok(roots@),
                Err(fault) => Err(*fault),
            },
        ) {
            Some(fault) => Err::<(), Fault>(fault),
            None => Ok(()),
        },
{
    match roots {
        Err(fault) => Err(*fault),
        Ok(roots) => if !same_roots(roots, &header.roots) {
            Err(Fault::Error(Error::UtreexoRootsMismatch))
        } else {
            Ok(())
        },
    }
}

/// Finds what is wrong with a block whose transactions pay `fees` and spend each
/// output once. `value` is what its coinbase pays.
pub fn check_ending(
    body: &Body,
    facts: &BodyFacts,
    txs: &Vec<FilledTransaction>,
    fees: u64,
    value: u64,
) -> (r: Result<(), Error>)
    requires
        value == coins(body.deep_view().coinbase, body.deep_view().coinbase.len()),
    ensures
        r == match ending_fault(body.deep_view(), facts@, txs.deep_view(), fees) {
            Some(e) => Err::<(), Error>(e),
            None => Ok(()),
        },
{
    if value > fees {
        return Err(Error::NotEnoughFees);
    }
    if !check_owners(txs, &body.authorizations) {
        return Err(Error::WrongPubKeyForAddress);
    }
    if !facts.authorized {
        return Err(Error::Authorization);
    }
    Ok(())
}

/// Finds what is wrong with the merkle root.
pub fn check_root(header: &Header, facts: &BodyFacts) -> (r: Result<(), Error>)
    ensures
        r == match root_fault(header.deep_view(), facts@) {
            Some(e) => Err::<(), Error>(e),
            None => Ok(()),
        },
{
    match facts.merkle_root {
        Err(why) => Err(Error::MerkleRoot(why)),
        Ok(computed) => if computed != header.merkle_root {
            Err(Error::InvalidBody { expected: header.merkle_root, computed })
        } else {
            Ok(())
        },
    }
}

/// More outputs hold no fewer coins.
proof fn coins_grow(outputs: Seq<OutputView>, i: nat, n: nat)
    requires
        i <= n,
    ensures
        coins(outputs, i) <= coins(outputs, n),
    decreases n - i,
{
    if i < n {
        coins_grow(outputs, i, (n - 1) as nat);
    }
}

/// The coins that outputs hold, where they can be counted.
pub fn sum_coins(outputs: &Vec<Output>) -> (r: Option<u64>)
    ensures
        ({
            let sum = coins(outputs.deep_view(), outputs.deep_view().len());
            match r {
                Some(value) => value == sum,
                None => sum > u64::MAX,
            }
        }),
{
    let ghost all = outputs.deep_view();
    let mut sum: u64 = 0;
    let n: usize = outputs.len();
    for i in 0..n
        invariant
            n == outputs@.len(),
            all == outputs.deep_view(),
            sum == coins(all, i as nat),
    {
        assert(all[i as int] == outputs@[i as int].deep_view());
        let value: u64 = outputs[i].content.get_value();
        match sum.checked_add(value) {
            Some(more) => {
                sum = more;
            },
            None => {
                proof {
                    coins_grow(all, (i + 1) as nat, n as nat);
                }
                return None;
            },
        }
    }
    Some(sum)
}

/// Whose signatures the outputs that a transaction spends take.
fn find_owners(list: &mut Vec<Owner>, tx: &FilledTransaction)
    ensures
        final(list)@ == old(list)@ + owners_of(tx.deep_view()),
{
    let ghost before = list@;
    let claim = tx.transaction.data.is_swap_claim();
    let n: usize = tx.spent_utxos.len();
    for i in 0..n
        invariant
            n == tx.spent_utxos@.len(),
            claim == (tx.deep_view().transaction.data is SwapClaim),
            list@ =~= before + owners_of(tx.deep_view()).take(i as int),
    {
        let output = &tx.spent_utxos[i];
        assert(tx.deep_view().spent_utxos[i as int] == output.deep_view());
        list.push(
            Owner { address: output.address, exempt: claim && output.content.is_swap_pending() },
        );
    }
    assert(owners_of(tx.deep_view()).take(n as int) =~= owners_of(tx.deep_view()));
}

/// Tells whether the signatures are those of the owners of what is spent.
pub fn check_owners(txs: &Vec<FilledTransaction>, authorizations: &Vec<Authorization>) -> (r: bool)
    ensures
        r == owners_signed(owners(txs.deep_view(), txs.deep_view().len()), authorizations@),
{
    let ghost all = txs.deep_view();
    let mut list: Vec<Owner> = Vec::new();
    let n: usize = txs.len();
    for i in 0..n
        invariant
            n == txs@.len(),
            all == txs.deep_view(),
            list@ == owners(all, i as nat),
    {
        assert(all[i as int] == txs@[i as int].deep_view());
        find_owners(&mut list, &txs[i]);
    }
    let mut i: usize = 0;
    while i < list.len() && i < authorizations.len()
        invariant
            list@ == owners(all, all.len()),
            all == txs.deep_view(),
            i <= list@.len(),
            i <= authorizations@.len(),
            forall|j: int|
                0 <= j < i ==> (#[trigger] list@[j]).exempt || authorizations@[j].address
                    == list@[j].address,
        decreases list@.len() - i,
    {
        if !list[i].exempt && authorizations[i].address != list[i].address {
            assert(!list@[i as int].exempt);
            return false;
        }
        i = i + 1;
    }
    true
}

/// Tells whether two lists of roots are the same.
fn same_roots(a: &Vec<NodeHash>, b: &Vec<NodeHash>) -> (r: bool)
    ensures
        r == (a@ == b@),
{
    if a.len() != b.len() {
        return false;
    }
    let n: usize = a.len();
    for i in 0..n
        invariant
            n == a@.len(),
            n == b@.len(),
            forall|j: int| 0 <= j < i ==> a@[j] == b@[j],
    {
        if a[i] != b[i] {
            return false;
        }
    }
    assert(a@ =~= b@);
    true
}

} // verus!
