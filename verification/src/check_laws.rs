//! The rules that a block is accepted by, and what is reported where one is
//! broken.
use vstd::prelude::*;

use crate::accumulator::{forest_roots, forest_verified, UtreexoError};
use crate::block_model::{
    all_filled, all_proof_first, all_proof_last, body_diff, coins, filled, looked_up, owners,
    owners_signed, prevalidated, spent_outpoints, validated, verdicts, BodyFactsView,
    PrevalidatedBlockView, TransactionFacts,
};
use crate::error::{Error, Fault, Halt, InvalidHeader};
use crate::ids::{Hash256, MerkleRoot};
use crate::state::StateView;
use crate::types::{
    Authorization, BodyView, FilledTransactionView, HeaderView, OutPoint, OutputContentView,
    OutputView, TransactionView,
};

verus! {

// The rules.
/// How many inputs the first `n` transactions have.
pub open spec fn inputs_before(txs: Seq<TransactionView>, n: nat) -> nat
    decreases n,
{
    if n == 0 {
        0
    } else {
        inputs_before(txs, (n - 1) as nat) + txs[n - 1].inputs.len()
    }
}

/// What the first `n` transactions pay in fees, as far as they are known.
pub open spec fn fees_paid(facts: Seq<TransactionFacts>, n: nat) -> nat
    decreases n,
{
    if n == 0 {
        0
    } else {
        fees_paid(facts, (n - 1) as nat) + match facts[n - 1].fee {
            Ok(fee) => fee as nat,
            Err(_) => 0,
        }
    }
}

/// The coins that the first `n` outputs hold.
pub open spec fn amounts(outputs: Seq<OutputView>, n: nat) -> nat
    decreases n,
{
    if n == 0 {
        0
    } else {
        amounts(outputs, (n - 1) as nat) + match outputs[n - 1].content {
            OutputContentView::Value(value) => value as nat,
            OutputContentView::Withdrawal { value, .. } => value as nat,
            OutputContentView::SwapPending { value, .. } => value as nat,
        }
    }
}

/// Each input of a transaction names an unspent output.
pub open spec fn spends_unspent(utxos: Map<OutPoint, OutputView>, tx: TransactionView) -> bool {
    forall|j: int| 0 <= j < tx.inputs.len() ==> utxos.contains_key((#[trigger] tx.inputs[j]).0)
}

/// What the accumulator says to the proof that a transaction brings for the leaves
/// that its inputs claim.
pub open spec fn judged(accumulator: Seq<u8>, tx: TransactionView) -> Option<bool> {
    forest_verified(
        accumulator,
        tx.proof.targets,
        tx.proof.hashes,
        tx.inputs.map_values(|input: (OutPoint, Hash256)| input.1),
    )
}

/// A transaction keeps the rules that it is checked by on its own.
pub open spec fn is_in_order(s: StateView, tx: TransactionView, facts: TransactionFacts) -> bool {
    &&& spends_unspent(s.utxos, tx)
    &&& judged(s.accumulator, tx) == Some(true)
    &&& facts.swap is Ok
    &&& facts.fee is Ok
}

/// No two inputs of a block name the same output.
pub open spec fn spends_each_once(txs: Seq<TransactionView>) -> bool {
    forall|i: int, j: int, p: int, q: int|
        #![trigger txs[i].inputs[j], txs[p].inputs[q]]
        0 <= i < txs.len() && 0 <= j < txs[i].inputs.len() && 0 <= p < txs.len() && 0 <= q
            < txs[p].inputs.len() && (i != p || j != q) ==> txs[i].inputs[j].0
            != txs[p].inputs[q].0
}

/// The signature at the place of an input in the run of all inputs, if there is
/// one, is that of the owner of the output that the input names. None is asked for
/// where a claim of a swap spends what is set aside for a swap.
pub open spec fn is_signed_at(s: StateView, body: BodyView, i: int, j: int) -> bool {
    let tx = body.transactions[i];
    let place = inputs_before(body.transactions, i as nat) + j;
    let output = s.utxos[tx.inputs[j].0];
    place < body.authorizations.len() ==> body.authorizations[place].address == output.address || (
    tx.data is SwapClaim && output.content is SwapPending)
}

/// All that is spent was signed for by its owner.
pub open spec fn is_signed(s: StateView, body: BodyView) -> bool {
    forall|i: int, j: int|
        #![trigger body.transactions[i].inputs[j]]
        0 <= i < body.transactions.len() && 0 <= j < body.transactions[i].inputs.len()
            ==> is_signed_at(s, body, i, j)
}

/// A block follows the tip and keeps within its limits.
pub open spec fn fits(
    s: StateView,
    header: HeaderView,
    body: BodyView,
    facts: BodyFactsView,
) -> bool {
    &&& header.prev_side_hash == s.tip
    &&& s.height != Some(u32::MAX)
    &&& body.authorizations.len() <= facts.sigops_limit
    &&& facts.size matches Some(size) && size <= facts.size_limit
}

/// All transactions of a block keep the rules that each is checked by on its own.
pub open spec fn all_in_order(s: StateView, body: BodyView, facts: BodyFactsView) -> bool {
    forall|i: int|
        0 <= i < body.transactions.len() ==> is_in_order(
            s,
            #[trigger] body.transactions[i],
            facts.transactions[i],
        )
}

/// A block is paid for, spends nothing twice and is signed.
pub open spec fn is_covered(s: StateView, body: BodyView, facts: BodyFactsView) -> bool {
    let fees = fees_paid(facts.transactions, body.transactions.len());
    &&& fees <= u64::MAX
    &&& amounts(body.coinbase, body.coinbase.len()) <= fees
    &&& spends_each_once(body.transactions)
    &&& is_signed(s, body)
    &&& facts.authorized
}

/// The accumulator has the roots that a header names once the change of the body
/// is made.
pub open spec fn names_roots(s: StateView, header: HeaderView, body: BodyView) -> bool {
    body_diff(body).applied(s.accumulator) matches Ok(after) && forest_roots(after)
        == header.roots
}

/// A block keeps all rules.
pub open spec fn keeps_rules(
    s: StateView,
    header: HeaderView,
    body: BodyView,
    facts: BodyFactsView,
) -> bool {
    &&& fits(s, header, body, facts)
    &&& all_in_order(s, body, facts)
    &&& facts.merkle_root matches Ok(root) && root == header.merkle_root
    &&& is_covered(s, body, facts)
    &&& names_roots(s, header, body)
}

// Looking up inputs.
/// Inputs that all name unspent outputs are looked up.
proof fn inputs_found(utxos: Map<OutPoint, OutputView>, inputs: Seq<(OutPoint, Hash256)>, n: nat)
    requires
        n <= inputs.len(),
        forall|j: int| 0 <= j < n ==> utxos.contains_key((#[trigger] inputs[j]).0),
    ensures
        looked_up(utxos, inputs, n) is Ok,
        looked_up(utxos, inputs, n)->Ok_0.len() == n,
        forall|j: int|
            0 <= j < n ==> #[trigger] looked_up(utxos, inputs, n)->Ok_0[j] == utxos[inputs[j].0],
    decreases n,
{
    if n > 0 {
        inputs_found(utxos, inputs, (n - 1) as nat);
    }
}

/// The first input that names no unspent output is reported.
proof fn input_missed(
    utxos: Map<OutPoint, OutputView>,
    inputs: Seq<(OutPoint, Hash256)>,
    m: int,
    n: nat,
)
    requires
        0 <= m < n <= inputs.len(),
        forall|j: int| 0 <= j < m ==> utxos.contains_key((#[trigger] inputs[j]).0),
        !utxos.contains_key(inputs[m].0),
    ensures
        looked_up(utxos, inputs, n) == Err::<Seq<OutputView>, Error>(
            Error::NoUtxo { outpoint: inputs[m].0 },
        ),
    decreases n,
{
    if m < n - 1 {
        input_missed(utxos, inputs, m, (n - 1) as nat);
    } else {
        inputs_found(utxos, inputs, m as nat);
    }
}

/// What does not hold of all inputs first fails of one of them.
proof fn first_missing(utxos: Map<OutPoint, OutputView>, tx: TransactionView, n: nat) -> (m: int)
    requires
        n <= tx.inputs.len(),
        exists|j: int| 0 <= j < n && !utxos.contains_key((#[trigger] tx.inputs[j]).0),
    ensures
        0 <= m < n,
        forall|j: int| 0 <= j < m ==> utxos.contains_key((#[trigger] tx.inputs[j]).0),
        !utxos.contains_key(tx.inputs[m].0),
    decreases n,
{
    if exists|j: int| 0 <= j < n - 1 && !utxos.contains_key((#[trigger] tx.inputs[j]).0) {
        first_missing(utxos, tx, (n - 1) as nat)
    } else {
        n - 1
    }
}

/// Transactions that spend what is unspent are filled, and the others are not.
proof fn filled_is(utxos: Map<OutPoint, OutputView>, tx: TransactionView)
    ensures
        filled(utxos, tx) is Ok <==> spends_unspent(utxos, tx),
        filled(utxos, tx) matches Ok(f) ==> f.transaction == tx && f.spent_utxos.len()
            == tx.inputs.len() && forall|j: int|
            0 <= j < tx.inputs.len() ==> #[trigger] f.spent_utxos[j] == utxos[tx.inputs[j].0],
        forall|m: int|
            0 <= m < tx.inputs.len() && !utxos.contains_key((#[trigger] tx.inputs[m]).0) && (forall|
                j: int,
            |
                0 <= j < m ==> utxos.contains_key((#[trigger] tx.inputs[j]).0)) ==> filled(utxos, tx)
                == Err::<FilledTransactionView, Error>(
                Error::NoUtxo { outpoint: tx.inputs[m].0 },
            ),
{
    if spends_unspent(utxos, tx) {
        inputs_found(utxos, tx.inputs, tx.inputs.len());
    } else {
        let m = first_missing(utxos, tx, tx.inputs.len());
        input_missed(utxos, tx.inputs, m, tx.inputs.len());
    }
    assert forall|m: int|
        0 <= m < tx.inputs.len() && !utxos.contains_key((#[trigger] tx.inputs[m]).0) && (forall|
            j: int,
        |
            0 <= j < m ==> utxos.contains_key((#[trigger] tx.inputs[j]).0)) implies filled(utxos, tx)
        == Err::<FilledTransactionView, Error>(Error::NoUtxo { outpoint: tx.inputs[m].0 }) by {
        input_missed(utxos, tx.inputs, m, tx.inputs.len());
    }
}

/// Transactions are filled if each spends what is unspent.
proof fn all_filled_are(utxos: Map<OutPoint, OutputView>, txs: Seq<TransactionView>, n: nat)
    requires
        n <= txs.len(),
    ensures
        all_filled(utxos, txs, n) is Ok <==> forall|i: int|
            0 <= i < n ==> spends_unspent(utxos, #[trigger] txs[i]),
        all_filled(utxos, txs, n) matches Ok(list) ==> list.len() == n && forall|i: int|
            0 <= i < n ==> (#[trigger] list[i]).transaction == txs[i] && list[i].spent_utxos.len()
                == txs[i].inputs.len(),
        all_filled(utxos, txs, n) matches Ok(list) ==> forall|i: int, j: int|
            #![trigger list[i].spent_utxos[j]]
            #![trigger txs[i].inputs[j]]
            0 <= i < n && 0 <= j < txs[i].inputs.len() ==> list[i].spent_utxos[j]
                == utxos[txs[i].inputs[j].0],
    decreases n,
{
    if n > 0 {
        all_filled_are(utxos, txs, (n - 1) as nat);
        filled_is(utxos, txs[n - 1]);
        if forall|i: int| 0 <= i < n ==> spends_unspent(utxos, #[trigger] txs[i]) {
            assert(spends_unspent(utxos, txs[n - 1]));
        }
        if all_filled(utxos, txs, n) is Ok {
            let list = all_filled(utxos, txs, n)->Ok_0;
            let before = all_filled(utxos, txs, (n - 1) as nat)->Ok_0;
            assert(list =~= before.push(filled(utxos, txs[n - 1])->Ok_0));
        }
    }
}

/// An input that names nothing, where all before it name something, is reported.
proof fn filling_stops(
    utxos: Map<OutPoint, OutputView>,
    txs: Seq<TransactionView>,
    i: int,
    m: int,
    n: nat,
)
    requires
        0 <= i < n <= txs.len(),
        forall|p: int| 0 <= p < i ==> spends_unspent(utxos, #[trigger] txs[p]),
        0 <= m < txs[i].inputs.len(),
        forall|j: int| 0 <= j < m ==> utxos.contains_key((#[trigger] txs[i].inputs[j]).0),
        !utxos.contains_key(txs[i].inputs[m].0),
    ensures
        all_filled(utxos, txs, n) == Err::<Seq<FilledTransactionView>, Error>(
            Error::NoUtxo { outpoint: txs[i].inputs[m].0 },
        ),
    decreases n,
{
    if i < n - 1 {
        filling_stops(utxos, txs, i, m, (n - 1) as nat);
    } else {
        all_filled_are(utxos, txs, i as nat);
        filled_is(utxos, txs[i]);
        assert(!utxos.contains_key(txs[i].inputs[m].0));
    }
}

// Transactions.
/// The leaves that are claimed are those of the inputs.
proof fn verdicts_are(accumulator: Seq<u8>, txs: Seq<TransactionView>)
    ensures
        verdicts(accumulator, txs).len() == txs.len(),
        forall|i: int|
            0 <= i < txs.len() ==> #[trigger] verdicts(accumulator, txs)[i] == judged(
                accumulator,
                txs[i],
            ),
{
    assert forall|i: int| 0 <= i < txs.len() implies #[trigger] verdicts(accumulator, txs)[i]
        == judged(accumulator, txs[i]) by {
        let inputs = txs[i].inputs;
        assert(crate::block_model::claimed(inputs) =~= inputs.map_values(
            |input: (OutPoint, Hash256)| input.1,
        ));
    }
}

/// More transactions pay no less.
proof fn fees_rise(facts: Seq<TransactionFacts>, m: nat, n: nat)
    requires
        m <= n,
    ensures
        fees_paid(facts, m) <= fees_paid(facts, n),
    decreases n - m,
{
    if m < n {
        fees_rise(facts, m, (n - 1) as nat);
    }
}

/// Transactions pass, proofs first, if each is in order and the fees can be
/// counted; these are then what is found.
proof fn proof_first_is(s: StateView, body: BodyView, facts: BodyFactsView, n: nat)
    requires
        n <= body.transactions.len(),
    ensures
        ({
            let txs = body.transactions;
            let r = all_proof_first(
                s.utxos,
                txs,
                facts.transactions,
                verdicts(s.accumulator, txs),
                n,
            );
            &&& r is Ok <==> fees_paid(facts.transactions, n) <= u64::MAX && forall|i: int|
                0 <= i < n ==> is_in_order(s, #[trigger] txs[i], facts.transactions[i])
            &&& r is Ok ==> r->Ok_0 == fees_paid(facts.transactions, n)
        }),
    decreases n,
{
    if n > 0 {
        let txs = body.transactions;
        proof_first_is(s, body, facts, (n - 1) as nat);
        verdicts_are(s.accumulator, txs);
        filled_is(s.utxos, txs[n - 1]);
        fees_rise(facts.transactions, (n - 1) as nat, n);
        assert(verdicts(s.accumulator, txs)[n - 1] == judged(s.accumulator, txs[n - 1]));
        if forall|i: int| 0 <= i < n ==> is_in_order(s, #[trigger] txs[i], facts.transactions[i]) {
            assert(is_in_order(s, txs[n - 1], facts.transactions[n - 1]));
        }
    }
}

/// Transactions pass, proofs last, if each proof holds, each keeps the rules and
/// the fees can be counted; these are then what is found.
proof fn proof_last_is(s: StateView, body: BodyView, facts: BodyFactsView, n: nat)
    requires
        n <= body.transactions.len(),
    ensures
        ({
            let txs = body.transactions;
            let r = all_proof_last(txs, facts.transactions, verdicts(s.accumulator, txs), n);
            &&& r is Ok <==> fees_paid(facts.transactions, n) <= u64::MAX && forall|i: int|
                0 <= i < n ==> judged(s.accumulator, #[trigger] txs[i]) == Some(true)
                    && facts.transactions[i].swap is Ok && facts.transactions[i].fee is Ok
            &&& r is Ok ==> r->Ok_0 == fees_paid(facts.transactions, n)
        }),
    decreases n,
{
    if n > 0 {
        let txs = body.transactions;
        proof_last_is(s, body, facts, (n - 1) as nat);
        verdicts_are(s.accumulator, txs);
        fees_rise(facts.transactions, (n - 1) as nat, n);
        assert(verdicts(s.accumulator, txs)[n - 1] == judged(s.accumulator, txs[n - 1]));
        if forall|i: int|
            0 <= i < n ==> judged(s.accumulator, #[trigger] txs[i]) == Some(true)
                && facts.transactions[i].swap is Ok && facts.transactions[i].fee is Ok {
            assert(judged(s.accumulator, txs[n - 1]) == Some(true));
        }
    }
}

/// A transaction that does not pass, proofs first, ends the check.
proof fn proof_first_stops(
    utxos: Map<OutPoint, OutputView>,
    txs: Seq<TransactionView>,
    facts: Seq<TransactionFacts>,
    verdicts: Seq<Option<bool>>,
    m: nat,
    n: nat,
)
    requires
        m <= n,
        all_proof_first(utxos, txs, facts, verdicts, m) is Err,
    ensures
        all_proof_first(utxos, txs, facts, verdicts, n) == all_proof_first(
            utxos,
            txs,
            facts,
            verdicts,
            m,
        ),
    decreases n - m,
{
    if m < n {
        proof_first_stops(utxos, txs, facts, verdicts, m, (n - 1) as nat);
    }
}

/// A transaction that does not pass, proofs last, ends the check.
proof fn proof_last_stops(
    txs: Seq<TransactionView>,
    facts: Seq<TransactionFacts>,
    verdicts: Seq<Option<bool>>,
    m: nat,
    n: nat,
)
    requires
        m <= n,
        all_proof_last(txs, facts, verdicts, m) is Err,
    ensures
        all_proof_last(txs, facts, verdicts, n) == all_proof_last(txs, facts, verdicts, m),
    decreases n - m,
{
    if m < n {
        proof_last_stops(txs, facts, verdicts, m, (n - 1) as nat);
    }
}

// The block as a whole.
/// The coins of outputs are summed up.
proof fn coins_are(outputs: Seq<OutputView>, n: nat)
    ensures
        coins(outputs, n) == amounts(outputs, n),
    decreases n,
{
    if n > 0 {
        coins_are(outputs, (n - 1) as nat);
    }
}

/// All inputs stand in a row.
proof fn inputs_in_a_row(txs: Seq<TransactionView>, i: int, n: nat)
    requires
        0 <= i < n <= txs.len(),
    ensures
        inputs_before(txs, i as nat) + txs[i].inputs.len() <= inputs_before(txs, n),
    decreases n,
{
    if i < n - 1 {
        inputs_in_a_row(txs, i, (n - 1) as nat);
    }
}

/// Each place in the row is that of an input.
proof fn place_is_input(txs: Seq<TransactionView>, n: nat, p: int) -> (at: (int, int))
    requires
        n <= txs.len(),
        0 <= p < inputs_before(txs, n),
    ensures
        0 <= at.0 < n,
        0 <= at.1 < txs[at.0].inputs.len(),
        inputs_before(txs, at.0 as nat) + at.1 == p,
    decreases n,
{
    let before = inputs_before(txs, (n - 1) as nat);
    if p < before {
        place_is_input(txs, (n - 1) as nat, p)
    } else {
        (n - 1, p - before)
    }
}

/// What is spent stands in the row of inputs.
proof fn spent_at_place(txs: Seq<TransactionView>, n: nat, i: int, j: int)
    requires
        0 <= i < n <= txs.len(),
        0 <= j < txs[i].inputs.len(),
    ensures
        spent_outpoints(txs, n).len() == inputs_before(txs, n),
        inputs_before(txs, i as nat) + j < inputs_before(txs, n),
        spent_outpoints(txs, n)[inputs_before(txs, i as nat) + j] == txs[i].inputs[j].0,
    decreases n,
{
    as_many_spent(txs, n);
    as_many_spent(txs, (n - 1) as nat);
    inputs_in_a_row(txs, i, n);
    if i < n - 1 {
        spent_at_place(txs, (n - 1) as nat, i, j);
    }
}

/// As much is spent as there are inputs.
proof fn as_many_spent(txs: Seq<TransactionView>, n: nat)
    ensures
        spent_outpoints(txs, n).len() == inputs_before(txs, n),
    decreases n,
{
    if n > 0 {
        as_many_spent(txs, (n - 1) as nat);
    }
}

/// Two inputs at one place are one input.
proof fn places_differ(txs: Seq<TransactionView>, i: int, j: int, p: int, q: int)
    requires
        0 <= i < txs.len(),
        0 <= j < txs[i].inputs.len(),
        0 <= p < txs.len(),
        0 <= q < txs[p].inputs.len(),
        inputs_before(txs, i as nat) + j == inputs_before(txs, p as nat) + q,
    ensures
        i == p && j == q,
{
    if i < p {
        inputs_in_a_row(txs, i, p as nat);
    } else if p < i {
        inputs_in_a_row(txs, p, i as nat);
    }
}

/// What is spent has no repeats if no two inputs name the same.
proof fn spent_once_is(txs: Seq<TransactionView>)
    ensures
        spent_outpoints(txs, txs.len()).no_duplicates() <==> spends_each_once(txs),
{
    let spent = spent_outpoints(txs, txs.len());
    as_many_spent(txs, txs.len());
    if spent.no_duplicates() {
        assert forall|i: int, j: int, p: int, q: int|
            #![trigger txs[i].inputs[j], txs[p].inputs[q]]
            0 <= i < txs.len() && 0 <= j < txs[i].inputs.len() && 0 <= p < txs.len() && 0 <= q
                < txs[p].inputs.len() && (i != p || j != q) implies txs[i].inputs[j].0
            != txs[p].inputs[q].0 by {
            let a = inputs_before(txs, i as nat) + j;
            let b = inputs_before(txs, p as nat) + q;
            if a == b {
                places_differ(txs, i, j, p, q);
            }
            spent_at_place(txs, txs.len(), i, j);
            spent_at_place(txs, txs.len(), p, q);
        }
    }
    if spends_each_once(txs) {
        assert forall|a: int, b: int|
            0 <= a < spent.len() && 0 <= b < spent.len() && a != b implies spent[a] != spent[b] by {
            let (i, j) = place_is_input(txs, txs.len(), a);
            let (p, q) = place_is_input(txs, txs.len(), b);
            spent_at_place(txs, txs.len(), i, j);
            spent_at_place(txs, txs.len(), p, q);
        }
    }
}

/// Owners stand in the row of inputs.
proof fn owner_at_place(
    list: Seq<FilledTransactionView>,
    txs: Seq<TransactionView>,
    n: nat,
)
    requires
        n <= txs.len(),
        list.len() == txs.len(),
        forall|i: int|
            0 <= i < txs.len() ==> (#[trigger] list[i]).transaction == txs[i]
                && list[i].spent_utxos.len() == txs[i].inputs.len(),
    ensures
        owners(list, n).len() == inputs_before(txs, n),
        forall|i: int, j: int|
            #![trigger list[i].spent_utxos[j]]
            0 <= i < n && 0 <= j < txs[i].inputs.len() ==> {
                let owner = owners(list, n)[inputs_before(txs, i as nat) + j];
                let output = list[i].spent_utxos[j];
                &&& inputs_before(txs, i as nat) + j < inputs_before(txs, n)
                &&& owner.address == output.address
                &&& owner.exempt == (txs[i].data is SwapClaim && output.content is SwapPending)
            },
    decreases n,
{
    if n > 0 {
        owner_at_place(list, txs, (n - 1) as nat);
        let before = owners(list, (n - 1) as nat);
        assert(list[n - 1].transaction == txs[n - 1]);
        assert forall|i: int, j: int|
            #![trigger list[i].spent_utxos[j]]
            0 <= i < n && 0 <= j < txs[i].inputs.len() implies {
            let owner = owners(list, n)[inputs_before(txs, i as nat) + j];
            let output = list[i].spent_utxos[j];
            &&& inputs_before(txs, i as nat) + j < inputs_before(txs, n)
            &&& owner.address == output.address
            &&& owner.exempt == (txs[i].data is SwapClaim && output.content is SwapPending)
        } by {
            inputs_in_a_row(txs, i, n);
            if i < n - 1 {
                inputs_in_a_row(txs, i, (n - 1) as nat);
                let output = list[i].spent_utxos[j];
                assert(owners(list, n)[inputs_before(txs, i as nat) + j] == before[inputs_before(
                    txs,
                    i as nat,
                ) + j]);
            }
        }
    }
}

/// Owners signed if each input was signed for.
proof fn signing_is(s: StateView, body: BodyView)
    requires
        all_filled(s.utxos, body.transactions, body.transactions.len()) is Ok,
    ensures
        ({
            let txs = body.transactions;
            let list = all_filled(s.utxos, txs, txs.len())->Ok_0;
            owners_signed(owners(list, list.len()), body.authorizations) <==> is_signed(s, body)
        }),
{
    let txs = body.transactions;
    let list = all_filled(s.utxos, txs, txs.len())->Ok_0;
    let all = owners(list, list.len());
    all_filled_are(s.utxos, txs, txs.len());
    owner_at_place(list, txs, txs.len());
    if owners_signed(all, body.authorizations) {
        assert forall|i: int, j: int|
            #![trigger body.transactions[i].inputs[j]]
            0 <= i < txs.len() && 0 <= j < txs[i].inputs.len() implies is_signed_at(
            s,
            body,
            i,
            j,
        ) by {
            let place = inputs_before(txs, i as nat) + j;
            assert(list[i].spent_utxos[j] == s.utxos[txs[i].inputs[j].0]);
            assert(place < all.len());
            let owner = all[place];
        }
    }
    if is_signed(s, body) {
        assert forall|p: int| 0 <= p < all.len() && p < body.authorizations.len() implies (
        #[trigger] all[p]).exempt || body.authorizations[p].address == all[p].address by {
            let (i, j) = place_is_input(txs, txs.len(), p);
            assert(is_signed_at(s, body, i, j)) by {
                assert(0 <= j < body.transactions[i].inputs.len());
                let input = body.transactions[i].inputs[j];
            }
            assert(list[i].spent_utxos[j] == s.utxos[txs[i].inputs[j].0]);
        }
    }
}

/// All that the checks look for is all that the rules say.
proof fn rules_are(s: StateView, body: BodyView, facts: BodyFactsView)
    ensures
        ({
            let txs = body.transactions;
            let verdicts = verdicts(s.accumulator, txs);
            let first = all_proof_first(s.utxos, txs, facts.transactions, verdicts, txs.len());
            let last = all_proof_last(txs, facts.transactions, verdicts, txs.len());
            let list = all_filled(s.utxos, txs, txs.len());
            let fees = fees_paid(facts.transactions, txs.len());
            &&& first is Ok <==> fees <= u64::MAX && all_in_order(s, body, facts)
            &&& first is Ok ==> first->Ok_0 == fees
            &&& list is Ok && last is Ok <==> first is Ok
            &&& first is Ok ==> last == first
            &&& list is Ok <==> forall|i: int|
                0 <= i < txs.len() ==> spends_unspent(s.utxos, #[trigger] txs[i])
            &&& spent_outpoints(txs, txs.len()).no_duplicates() <==> spends_each_once(txs)
            &&& coins(body.coinbase, body.coinbase.len()) == amounts(
                body.coinbase,
                body.coinbase.len(),
            )
            &&& list matches Ok(list) ==> (owners_signed(
                owners(list, list.len()),
                body.authorizations,
            ) <==> is_signed(s, body))
        }),
{
    let txs = body.transactions;
    proof_first_is(s, body, facts, txs.len());
    proof_last_is(s, body, facts, txs.len());
    all_filled_are(s.utxos, txs, txs.len());
    spent_once_is(txs);
    coins_are(body.coinbase, body.coinbase.len());
    if all_filled(s.utxos, txs, txs.len()) is Ok {
        signing_is(s, body);
    }
    if all_in_order(s, body, facts) {
        assert forall|i: int| 0 <= i < txs.len() implies spends_unspent(
            s.utxos,
            #[trigger] txs[i],
        ) by {
            assert(is_in_order(s, txs[i], facts.transactions[i]));
        }
        assert forall|i: int| 0 <= i < txs.len() implies judged(s.accumulator, #[trigger] txs[i])
            == Some(true) && facts.transactions[i].swap is Ok
            && facts.transactions[i].fee is Ok by {
            assert(is_in_order(s, txs[i], facts.transactions[i]));
        }
    }
}

/// A block is accepted exactly if it keeps all rules: it follows the tip and keeps
/// within its limits; each of its transactions spends unspent outputs, proves that
/// they are in the accumulator, and keeps the rules of swaps and of transactions;
/// its merkle root is right; its coinbase is paid out of fees that can be counted;
/// no output is spent twice; what is spent was signed for by its owner, input by
/// input; and the header names the roots that the accumulator then has.
pub proof fn accepted_blocks_keep_all_rules(
    s: StateView,
    header: HeaderView,
    body: BodyView,
    facts: BodyFactsView,
)
    ensures
        prevalidated(s, header, body, facts) is Ok <==> keeps_rules(s, header, body, facts),
        validated(s, header, body, facts) is Ok <==> keeps_rules(s, header, body, facts),
{
    rules_are(s, body, facts);
}

/// What is found out about a block that is accepted: the sum of the fees, the
/// merkle root, the coins of its coinbase, the height after the tip, and each
/// transaction with the unspent outputs that its inputs name, in their order.
pub proof fn accepted_blocks_are_prepared_in_full(
    s: StateView,
    header: HeaderView,
    body: BodyView,
    facts: BodyFactsView,
)
    requires
        keeps_rules(s, header, body, facts),
    ensures
        ({
            let txs = body.transactions;
            let fees = fees_paid(facts.transactions, txs.len());
            let pre = prevalidated(s, header, body, facts)->Ok_0;
            let list = pre.filled_transactions;
            &&& validated(s, header, body, facts) == Ok::<(u64, MerkleRoot), Fault>(
                (fees as u64, header.merkle_root),
            )
            &&& pre.total_fees == fees
            &&& pre.coinbase_value == amounts(body.coinbase, body.coinbase.len())
            &&& pre.computed_merkle_root == header.merkle_root
            &&& pre.next_height == match s.height {
                Some(height) => height + 1,
                None => 0,
            }
            &&& list.len() == txs.len()
            &&& forall|i: int|
                0 <= i < txs.len() ==> (#[trigger] list[i]).transaction == txs[i]
                    && list[i].spent_utxos.len() == txs[i].inputs.len()
            &&& forall|i: int, j: int|
                #![trigger txs[i].inputs[j]]
                0 <= i < txs.len() && 0 <= j < txs[i].inputs.len() ==> list[i].spent_utxos[j]
                    == s.utxos[txs[i].inputs[j].0]
        }),
{
    rules_are(s, body, facts);
    all_filled_are(s.utxos, body.transactions, body.transactions.len());
}

/// Both checks report the same fault.
pub open spec fn both_report(
    s: StateView,
    header: HeaderView,
    body: BodyView,
    facts: BodyFactsView,
    fault: Fault,
) -> bool {
    &&& prevalidated(s, header, body, facts) == Err::<PrevalidatedBlockView, Fault>(fault)
    &&& validated(s, header, body, facts) == Err::<(u64, MerkleRoot), Fault>(fault)
}

/// What both checks report first of all: that a block does not follow the tip,
/// that there is no height for it, that it has too many signatures, that its size
/// cannot be found, or that it is too large, in this order.
pub proof fn blocks_must_fit(s: StateView, header: HeaderView, body: BodyView, facts: BodyFactsView)
    ensures
        header.prev_side_hash != s.tip ==> both_report(
            s,
            header,
            body,
            facts,
            Fault::Error(
                Error::InvalidHeader(
                    InvalidHeader::PrevSideHash {
                        expected: s.tip,
                        received: header.prev_side_hash,
                    },
                ),
            ),
        ),
        header.prev_side_hash == s.tip && s.height == Some(u32::MAX) ==> both_report(
            s,
            header,
            body,
            facts,
            Fault::Halt(Halt::OutOfRange),
        ),
        header.prev_side_hash == s.tip && s.height != Some(u32::MAX) ==> {
            &&& body.authorizations.len() > facts.sigops_limit ==> both_report(
                s,
                header,
                body,
                facts,
                Fault::Error(Error::TooManySigops),
            )
            &&& body.authorizations.len() <= facts.sigops_limit && facts.size is None
                ==> both_report(s, header, body, facts, Fault::Error(Error::BorshSerialize))
            &&& body.authorizations.len() <= facts.sigops_limit && facts.size is Some
                && facts.size->0 > facts.size_limit ==> both_report(
                s,
                header,
                body,
                facts,
                Fault::Error(Error::BodyTooLarge),
            )
        },
{
}

/// What is wrong with a transaction whose inputs name unspent outputs, checked by
/// its proof first.
pub open spec fn wrong_proof_first(
    s: StateView,
    tx: TransactionView,
    facts: TransactionFacts,
) -> Error {
    if judged(s.accumulator, tx) is None {
        Error::Utreexo(UtreexoError)
    } else if judged(s.accumulator, tx) == Some(false) {
        Error::UtreexoProofFailed { txid: tx.txid }
    } else if facts.swap is Err {
        Error::Swap(facts.swap->Err_0)
    } else {
        Error::Transaction(facts.fee->Err_0)
    }
}

/// In a block that fits, `prevalidate` reports the first transaction that is not
/// in order: the first input that names nothing, or else what is wrong with its
/// proof, with what it does to swaps, or with its fee, in this order. Fees that
/// cannot be counted are reported at the transaction that makes them so.
pub proof fn prevalidate_reports_the_first_transaction(
    s: StateView,
    header: HeaderView,
    body: BodyView,
    facts: BodyFactsView,
    i: int,
)
    requires
        fits(s, header, body, facts),
        0 <= i < body.transactions.len(),
        forall|p: int|
            0 <= p < i ==> is_in_order(s, #[trigger] body.transactions[p], facts.transactions[p]),
        fees_paid(facts.transactions, i as nat) <= u64::MAX,
    ensures
        ({
            let tx = body.transactions[i];
            let r = prevalidated(s, header, body, facts);
            &&& forall|m: int|
                0 <= m < tx.inputs.len() && !s.utxos.contains_key((#[trigger] tx.inputs[m]).0) && (
                forall|j: int|
                    0 <= j < m ==> s.utxos.contains_key((#[trigger] tx.inputs[j]).0)) ==> r == Err::<
                    PrevalidatedBlockView,
                    Fault,
                >(Fault::Error(Error::NoUtxo { outpoint: tx.inputs[m].0 }))
            &&& spends_unspent(s.utxos, tx) && !is_in_order(s, tx, facts.transactions[i]) ==> r
                == Err::<PrevalidatedBlockView, Fault>(
                Fault::Error(wrong_proof_first(s, tx, facts.transactions[i])),
            )
            &&& is_in_order(s, tx, facts.transactions[i]) && fees_paid(
                facts.transactions,
                (i + 1) as nat,
            ) > u64::MAX ==> r == Err::<PrevalidatedBlockView, Fault>(
                Fault::Error(Error::AmountOverflow),
            )
        }),
{
    let txs = body.transactions;
    let tx = txs[i];
    let verdicts = verdicts(s.accumulator, txs);
    let n = (i + 1) as nat;
    proof_first_is(s, body, facts, i as nat);
    verdicts_are(s.accumulator, txs);
    assert(verdicts[i] == judged(s.accumulator, tx));
    filled_is(s.utxos, tx);
    if all_proof_first(s.utxos, txs, facts.transactions, verdicts, n) is Err {
        proof_first_stops(s.utxos, txs, facts.transactions, verdicts, n, txs.len());
    }
    assert forall|m: int|
        0 <= m < tx.inputs.len() && !s.utxos.contains_key((#[trigger] tx.inputs[m]).0) && (forall|
            j: int,
        |
            0 <= j < m ==> s.utxos.contains_key((#[trigger] tx.inputs[j]).0)) implies prevalidated(
        s,
        header,
        body,
        facts,
    ) == Err::<PrevalidatedBlockView, Fault>(
        Fault::Error(Error::NoUtxo { outpoint: tx.inputs[m].0 }),
    ) by {}
}

/// In a block that fits, `validate` reports the first input that names nothing
/// before all else that is wrong with a transaction or with the block.
pub proof fn validate_reports_the_first_missing_input(
    s: StateView,
    header: HeaderView,
    body: BodyView,
    facts: BodyFactsView,
    i: int,
    m: int,
)
    requires
        fits(s, header, body, facts),
        0 <= i < body.transactions.len(),
        forall|p: int| 0 <= p < i ==> spends_unspent(s.utxos, #[trigger] body.transactions[p]),
        0 <= m < body.transactions[i].inputs.len(),
        forall|j: int|
            0 <= j < m ==> s.utxos.contains_key((#[trigger] body.transactions[i].inputs[j]).0),
        !s.utxos.contains_key(body.transactions[i].inputs[m].0),
    ensures
        validated(s, header, body, facts) == Err::<(u64, MerkleRoot), Fault>(
            Fault::Error(Error::NoUtxo { outpoint: body.transactions[i].inputs[m].0 }),
        ),
{
    filling_stops(s.utxos, body.transactions, i, m, body.transactions.len());
}

/// In a block that fits, whose inputs all name unspent outputs and whose merkle
/// root and coinbase can be told, `validate` reports the first transaction that is
/// not in order: what it does to swaps, its fee, fees that cannot be counted, or
/// its proof, in this order.
pub proof fn validate_reports_the_first_transaction(
    s: StateView,
    header: HeaderView,
    body: BodyView,
    facts: BodyFactsView,
    i: int,
)
    requires
        fits(s, header, body, facts),
        forall|p: int|
            0 <= p < body.transactions.len() ==> spends_unspent(
                s.utxos,
                #[trigger] body.transactions[p],
            ),
        facts.merkle_root matches Ok(root) && root == header.merkle_root,
        amounts(body.coinbase, body.coinbase.len()) <= u64::MAX,
        0 <= i < body.transactions.len(),
        forall|p: int|
            0 <= p < i ==> is_in_order(s, #[trigger] body.transactions[p], facts.transactions[p]),
        fees_paid(facts.transactions, i as nat) <= u64::MAX,
    ensures
        ({
            let tx = body.transactions[i];
            let fact = facts.transactions[i];
            let r = validated(s, header, body, facts);
            let counted = fees_paid(facts.transactions, (i + 1) as nat) <= u64::MAX;
            &&& fact.swap is Err ==> r == Err::<(u64, MerkleRoot), Fault>(
                Fault::Error(Error::Swap(fact.swap->Err_0)),
            )
            &&& fact.swap is Ok && fact.fee is Err ==> r == Err::<(u64, MerkleRoot), Fault>(
                Fault::Error(Error::Transaction(fact.fee->Err_0)),
            )
            &&& fact.swap is Ok && fact.fee is Ok && !counted ==> r == Err::<
                (u64, MerkleRoot),
                Fault,
            >(Fault::Error(Error::AmountOverflow))
            &&& fact.swap is Ok && fact.fee is Ok && counted ==> {
                &&& judged(s.accumulator, tx) is None ==> r == Err::<(u64, MerkleRoot), Fault>(
                    Fault::Error(Error::Utreexo(UtreexoError)),
                )
                &&& judged(s.accumulator, tx) == Some(false) ==> r == Err::<
                    (u64, MerkleRoot),
                    Fault,
                >(Fault::Error(Error::UtreexoProofFailed { txid: tx.txid }))
            }
        }),
{
    let txs = body.transactions;
    let verdicts = verdicts(s.accumulator, txs);
    let n = (i + 1) as nat;
    assert forall|p: int| 0 <= p < i implies judged(s.accumulator, #[trigger] txs[p]) == Some(true)
        && facts.transactions[p].swap is Ok && facts.transactions[p].fee is Ok by {
        assert(is_in_order(s, txs[p], facts.transactions[p]));
    }
    proof_last_is(s, body, facts, i as nat);
    verdicts_are(s.accumulator, txs);
    assert(verdicts[i] == judged(s.accumulator, txs[i]));
    all_filled_are(s.utxos, txs, txs.len());
    coins_are(body.coinbase, body.coinbase.len());
    if all_proof_last(txs, facts.transactions, verdicts, n) is Err {
        proof_last_stops(txs, facts.transactions, verdicts, n, txs.len());
    }
}

/// In a block that fits and whose inputs all name unspent outputs, `validate` looks
/// at the merkle root, and then at whether the coinbase can be counted, before it
/// looks at anything else.
pub proof fn validate_looks_at_the_merkle_root_first(
    s: StateView,
    header: HeaderView,
    body: BodyView,
    facts: BodyFactsView,
)
    requires
        fits(s, header, body, facts),
        forall|p: int|
            0 <= p < body.transactions.len() ==> spends_unspent(
                s.utxos,
                #[trigger] body.transactions[p],
            ),
    ensures
        ({
            let r = validated(s, header, body, facts);
            let root = facts.merkle_root;
            &&& root is Err ==> r == Err::<(u64, MerkleRoot), Fault>(
                Fault::Error(Error::MerkleRoot(root->Err_0)),
            )
            &&& root is Ok && root->Ok_0 != header.merkle_root ==> r == Err::<
                (u64, MerkleRoot),
                Fault,
            >(
                Fault::Error(
                    Error::InvalidBody { expected: header.merkle_root, computed: root->Ok_0 },
                ),
            )
            &&& root is Ok && root->Ok_0 == header.merkle_root && amounts(
                body.coinbase,
                body.coinbase.len(),
            ) > u64::MAX ==> r == Err::<(u64, MerkleRoot), Fault>(
                Fault::Error(Error::AmountOverflow),
            )
        }),
{
    all_filled_are(s.utxos, body.transactions, body.transactions.len());
    coins_are(body.coinbase, body.coinbase.len());
}

/// What both checks report of a block that fits and whose transactions are all in
/// order, as far as the fees can be counted: a merkle root that cannot be told or
/// is another, a coinbase that cannot be counted, an output that is spent twice, a
/// coinbase that the fees do not pay for, a signature that is not that of the
/// owner, signatures that do not hold, a change that the accumulator does not take,
/// and roots that are not those that the header names. Whatever of these comes
/// first is reported; only a coinbase that cannot be counted is found before a
/// double spend by one check and after it by the other.
pub proof fn blocks_must_keep_the_rules(
    s: StateView,
    header: HeaderView,
    body: BodyView,
    facts: BodyFactsView,
)
    requires
        fits(s, header, body, facts),
        all_in_order(s, body, facts),
        fees_paid(facts.transactions, body.transactions.len()) <= u64::MAX,
    ensures
        ({
            let fees = fees_paid(facts.transactions, body.transactions.len());
            let value = amounts(body.coinbase, body.coinbase.len());
            let once = spends_each_once(body.transactions);
            let root = facts.merkle_root;
            let reports = |e: Error| both_report(s, header, body, facts, Fault::Error(e));
            &&& root is Err ==> reports(Error::MerkleRoot(root->Err_0))
            &&& root is Ok && root->Ok_0 != header.merkle_root ==> reports(
                Error::InvalidBody { expected: header.merkle_root, computed: root->Ok_0 },
            )
            &&& root is Ok && root->Ok_0 == header.merkle_root ==> {
                &&& once && value > u64::MAX ==> reports(Error::AmountOverflow)
                &&& !once && value <= u64::MAX ==> reports(Error::UtxoDoubleSpent)
                &&& !once && value > u64::MAX ==> prevalidated(s, header, body, facts) == Err::<
                    PrevalidatedBlockView,
                    Fault,
                >(Fault::Error(Error::UtxoDoubleSpent)) && validated(s, header, body, facts)
                    == Err::<(u64, MerkleRoot), Fault>(Fault::Error(Error::AmountOverflow))
                &&& once && fees < value <= u64::MAX ==> reports(Error::NotEnoughFees)
                &&& once && value <= fees && !is_signed(s, body) ==> reports(
                    Error::WrongPubKeyForAddress,
                )
                &&& once && value <= fees && is_signed(s, body) && !facts.authorized ==> reports(
                    Error::Authorization,
                )
                &&& once && value <= fees && is_signed(s, body) && facts.authorized ==> {
                    &&& body_diff(body).applied(s.accumulator) matches Err(fault) ==> both_report(
                        s,
                        header,
                        body,
                        facts,
                        fault,
                    )
                    &&& body_diff(body).applied(s.accumulator) is Ok && !names_roots(s, header, body)
                        ==> reports(Error::UtreexoRootsMismatch)
                }
            }
        }),
{
    rules_are(s, body, facts);
}

/// A signature at the place of an input that is not that of the owner of what the
/// input spends, where one is asked for, is reported, if nothing else is wrong
/// with the block.
pub proof fn wrong_signatures_are_reported(
    s: StateView,
    header: HeaderView,
    body: BodyView,
    facts: BodyFactsView,
    i: int,
    j: int,
)
    requires
        fits(s, header, body, facts),
        all_in_order(s, body, facts),
        facts.merkle_root matches Ok(root) && root == header.merkle_root,
        fees_paid(facts.transactions, body.transactions.len()) <= u64::MAX,
        amounts(body.coinbase, body.coinbase.len()) <= fees_paid(
            facts.transactions,
            body.transactions.len(),
        ),
        spends_each_once(body.transactions),
        0 <= i < body.transactions.len(),
        0 <= j < body.transactions[i].inputs.len(),
        inputs_before(body.transactions, i as nat) + j < body.authorizations.len(),
        body.authorizations[inputs_before(body.transactions, i as nat) + j].address
            != s.utxos[body.transactions[i].inputs[j].0].address,
        !(body.transactions[i].data is SwapClaim
            && s.utxos[body.transactions[i].inputs[j].0].content is SwapPending),
    ensures
        both_report(s, header, body, facts, Fault::Error(Error::WrongPubKeyForAddress)),
{
    assert(!is_signed_at(s, body, i, j));
    assert(!is_signed(s, body)) by {
        let input = body.transactions[i].inputs[j];
    }
    blocks_must_keep_the_rules(s, header, body, facts);
}

// Parts of the checks.
/// A transaction is filled with the unspent outputs that its inputs name, in order,
/// exactly if all of them name one; else the first that does not is reported.
pub proof fn transactions_are_filled(utxos: Map<OutPoint, OutputView>, tx: TransactionView)
    ensures
        filled(utxos, tx) is Ok <==> spends_unspent(utxos, tx),
        filled(utxos, tx) matches Ok(f) ==> f.transaction == tx && f.spent_utxos.len()
            == tx.inputs.len() && forall|j: int|
            0 <= j < tx.inputs.len() ==> #[trigger] f.spent_utxos[j] == utxos[tx.inputs[j].0],
        forall|m: int|
            0 <= m < tx.inputs.len() && !utxos.contains_key((#[trigger] tx.inputs[m]).0) && (forall|
                j: int,
            |
                0 <= j < m ==> utxos.contains_key((#[trigger] tx.inputs[j]).0)) ==> filled(utxos, tx)
                == Err::<FilledTransactionView, Error>(
                Error::NoUtxo { outpoint: tx.inputs[m].0 },
            ),
{
    filled_is(utxos, tx);
}

/// How many outputs the first `n` transactions spend.
pub open spec fn spent_before(list: Seq<FilledTransactionView>, n: nat) -> nat
    decreases n,
{
    if n == 0 {
        0
    } else {
        spent_before(list, (n - 1) as nat) + list[n - 1].spent_utxos.len()
    }
}

/// The signature at the place of an output in the run of all that is spent, if there is
/// one, is that of its owner. None is asked for where a claim of a swap spends what is
/// set aside for a swap.
pub open spec fn owner_signed(
    list: Seq<FilledTransactionView>,
    authorizations: Seq<Authorization>,
    i: int,
    j: int,
) -> bool {
    let place = spent_before(list, i as nat) + j;
    let output = list[i].spent_utxos[j];
    place < authorizations.len() ==> authorizations[place].address == output.address || (
    list[i].transaction.data is SwapClaim && output.content is SwapPending)
}

/// Owners stand in the row of what is spent.
proof fn owner_in_row(list: Seq<FilledTransactionView>, n: nat, i: int, j: int)
    requires
        0 <= i < n <= list.len(),
        0 <= j < list[i].spent_utxos.len(),
    ensures
        owners(list, n).len() == spent_before(list, n),
        spent_before(list, i as nat) + j < spent_before(list, n),
        owners(list, n)[spent_before(list, i as nat) + j].address == list[i].spent_utxos[j].address,
        owners(list, n)[spent_before(list, i as nat) + j].exempt == (
        list[i].transaction.data is SwapClaim && list[i].spent_utxos[j].content is SwapPending),
    decreases n,
{
    as_many_owners(list, n);
    as_many_owners(list, (n - 1) as nat);
    if i < n - 1 {
        owner_in_row(list, (n - 1) as nat, i, j);
    }
}

/// There are as many owners as outputs that are spent.
proof fn as_many_owners(list: Seq<FilledTransactionView>, n: nat)
    ensures
        owners(list, n).len() == spent_before(list, n),
    decreases n,
{
    if n > 0 {
        as_many_owners(list, (n - 1) as nat);
    }
}

/// Each place in the row is that of an output that is spent.
proof fn place_is_spent(list: Seq<FilledTransactionView>, n: nat, p: int) -> (at: (int, int))
    requires
        n <= list.len(),
        0 <= p < spent_before(list, n),
    ensures
        0 <= at.0 < n,
        0 <= at.1 < list[at.0].spent_utxos.len(),
        spent_before(list, at.0 as nat) + at.1 == p,
    decreases n,
{
    let before = spent_before(list, (n - 1) as nat);
    if p < before {
        place_is_spent(list, (n - 1) as nat, p)
    } else {
        (n - 1, p - before)
    }
}

/// Signatures are those of the owners exactly if each output that is spent was signed
/// for by its owner, at its place.
pub proof fn owners_sign_in_order(
    list: Seq<FilledTransactionView>,
    authorizations: Seq<Authorization>,
)
    ensures
        owners_signed(owners(list, list.len()), authorizations) <==> forall|i: int, j: int|
            #![trigger list[i].spent_utxos[j]]
            0 <= i < list.len() && 0 <= j < list[i].spent_utxos.len() ==> owner_signed(
                list,
                authorizations,
                i,
                j,
            ),
{
    let all = owners(list, list.len());
    as_many_owners(list, list.len());
    if owners_signed(all, authorizations) {
        assert forall|i: int, j: int|
            #![trigger list[i].spent_utxos[j]]
            0 <= i < list.len() && 0 <= j < list[i].spent_utxos.len() implies owner_signed(
            list,
            authorizations,
            i,
            j,
        ) by {
            owner_in_row(list, list.len(), i, j);
            let owner = all[spent_before(list, i as nat) + j];
        }
    }
    if forall|i: int, j: int|
        #![trigger list[i].spent_utxos[j]]
        0 <= i < list.len() && 0 <= j < list[i].spent_utxos.len() ==> owner_signed(
            list,
            authorizations,
            i,
            j,
        ) {
        assert forall|p: int| 0 <= p < all.len() && p < authorizations.len() implies (
        #[trigger] all[p]).exempt || authorizations[p].address == all[p].address by {
            let (i, j) = place_is_spent(list, list.len(), p);
            owner_in_row(list, list.len(), i, j);
            let output = list[i].spent_utxos[j];
            assert(owner_signed(list, authorizations, i, j));
        }
    }
}

/// The coins that outputs hold are summed up, whatever they are held for.
pub proof fn coins_are_summed_up(outputs: Seq<OutputView>)
    ensures
        coins(outputs, outputs.len()) == amounts(outputs, outputs.len()),
{
    coins_are(outputs, outputs.len());
}

} // verus!
