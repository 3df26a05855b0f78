//! Which leaves come into the accumulator and which go, when a block or the events
//! of mainchain blocks are connected or taken back.
use vstd::prelude::*;

use crate::accumulator::{
    forest_leaves, forest_modified, goes_first, holds_leaf, is_stuck, last_place, number, place,
    taken_out, taken_out_stays, DiffView, Leaf, UtreexoError, LEAVES_LIMIT,
};
use crate::block_model::{
    body_diff, body_undone, coinbase_diff, connected, inputs_unspent, leaves_added, leaves_taken,
    outputs_deleted, prevalidated, prevalidated_connected, swap_disconnected, tip_disconnect_staged,
    tip_disconnected, transaction_undone, transactions_diff, transactions_undone, BodyFactsView,
    PrevalidatedBlockView, Undoing,
};
use crate::error::{Error, Fault, Halt, Rejection};
use crate::ids::{Hash256, MerkleRoot};
use crate::order::{arrangement_is, is_strict};
use crate::state::StateView;
use crate::types::{BodyView, HeaderView, Origin, OutPoint, OutputView, TransactionView};

verus! {

/// How often a leaf is that of one of the first `n` outputs.
pub open spec fn times_output(outputs: Seq<OutputView>, leaf: Hash256, n: nat) -> nat
    decreases n,
{
    if n == 0 {
        0
    } else {
        times_output(outputs, leaf, (n - 1) as nat) + if outputs[n - 1].leaf == leaf {
            1nat
        } else {
            0nat
        }
    }
}

/// How often a leaf is claimed by one of the first `n` inputs.
pub open spec fn times_input(inputs: Seq<(OutPoint, Hash256)>, leaf: Hash256, n: nat) -> nat
    decreases n,
{
    if n == 0 {
        0
    } else {
        times_input(inputs, leaf, (n - 1) as nat) + if inputs[n - 1].1 == leaf {
            1nat
        } else {
            0nat
        }
    }
}

/// How often the first `n` transactions make a leaf.
pub open spec fn times_made_by(txs: Seq<TransactionView>, leaf: Hash256, n: nat) -> nat
    decreases n,
{
    if n == 0 {
        0
    } else {
        times_made_by(txs, leaf, (n - 1) as nat) + times_output(
            txs[n - 1].outputs,
            leaf,
            txs[n - 1].outputs.len(),
        )
    }
}

/// How often the first `n` transactions claim a leaf.
pub open spec fn times_claimed_by(txs: Seq<TransactionView>, leaf: Hash256, n: nat) -> nat
    decreases n,
{
    if n == 0 {
        0
    } else {
        times_claimed_by(txs, leaf, (n - 1) as nat) + times_input(
            txs[n - 1].inputs,
            leaf,
            txs[n - 1].inputs.len(),
        )
    }
}

/// How often a body makes a leaf, in its coinbase and its transactions.
pub open spec fn times_made(body: BodyView, leaf: Hash256) -> nat {
    times_output(body.coinbase, leaf, body.coinbase.len()) + times_made_by(
        body.transactions,
        leaf,
        body.transactions.len(),
    )
}

/// How often the inputs of a body claim a leaf.
pub open spec fn times_claimed(body: BodyView, leaf: Hash256) -> nat {
    times_claimed_by(body.transactions, leaf, body.transactions.len())
}

/// What a change does to a leaf that came so many times and went so many times.
/// What came and did not go is added, and what went and did not come is taken out;
/// what came once and went once is left alone. No leaf is added or taken out twice,
/// or both.
pub open spec fn is_net(diff: DiffView, leaf: Hash256, came: nat, went: nat) -> bool {
    &&& diff.insertions.no_duplicates()
    &&& diff.deletions.no_duplicates()
    &&& !(diff.insertions.contains(leaf) && diff.deletions.contains(leaf))
    &&& went == 0 ==> !diff.deletions.contains(leaf) && (diff.insertions.contains(leaf)
        <==> came > 0)
    &&& came == 0 ==> !diff.insertions.contains(leaf) && (diff.deletions.contains(leaf)
        <==> went > 0)
    &&& came <= 1 && went <= 1 ==> (diff.insertions.contains(leaf) <==> came > went) && (
    diff.deletions.contains(leaf) <==> came < went)
}

/// Taking a value off a list without repeats.
proof fn removed_once(list: Seq<Hash256>, leaf: Hash256)
    requires
        list.no_duplicates(),
        list.contains(leaf),
    ensures
        list.remove_value(leaf).no_duplicates(),
        forall|h: Hash256| #[trigger]
            list.remove_value(leaf).contains(h) <==> list.contains(h) && h != leaf,
{
    list.index_of_first_ensures(leaf);
    let at = list.index_of_first(leaf)->0;
    let rest = list.remove_value(leaf);
    assert(rest =~= list.remove(at));
    assert forall|h: Hash256| #[trigger] rest.contains(h) <==> list.contains(h) && h != leaf by {
        if rest.contains(h) {
            let i = choose|i: int| 0 <= i < rest.len() && rest[i] == h;
            if i < at {
                assert(list[i] == h);
            } else {
                assert(list[i + 1] == h);
            }
        }
        if list.contains(h) && h != leaf {
            let i = choose|i: int| 0 <= i < list.len() && list[i] == h;
            if i < at {
                assert(rest[i] == h);
            } else {
                assert(rest[i - 1] == h);
            }
        }
    }
}

/// Putting a value at the end of a list that has it not.
proof fn pushed_once(list: Seq<Hash256>, leaf: Hash256)
    requires
        list.no_duplicates(),
        !list.contains(leaf),
    ensures
        list.push(leaf).no_duplicates(),
        forall|h: Hash256| #[trigger]
            list.push(leaf).contains(h) <==> list.contains(h) || h == leaf,
{
    let more = list.push(leaf);
    assert forall|h: Hash256| #[trigger] more.contains(h) <==> list.contains(h) || h == leaf by {
        if list.contains(h) {
            let i = choose|i: int| 0 <= i < list.len() && list[i] == h;
            assert(more[i] == h);
        }
        assert(more[list.len() as int] == leaf);
    }
    assert forall|i: int, j: int|
        0 <= i < more.len() && 0 <= j < more.len() && i != j implies more[i] != more[j] by {
        if i == list.len() {
            assert(list.contains(list[j]));
        } else if j == list.len() {
            assert(list.contains(list[i]));
        }
    }
}

/// One leaf more comes.
pub proof fn one_more_came(diff: DiffView, leaf: Hash256, h: Hash256, came: nat, went: nat)
    requires
        is_net(diff, h, came, went),
        !(diff.insertions.contains(leaf) && diff.deletions.contains(leaf)),
    ensures
        is_net(
            diff.insert(leaf),
            h,
            (came + if leaf == h {
                1nat
            } else {
                0nat
            }) as nat,
            went,
        ),
{
    if diff.deletions.contains(leaf) {
        removed_once(diff.deletions, leaf);
    } else if !diff.insertions.contains(leaf) {
        pushed_once(diff.insertions, leaf);
    }
}

/// One leaf more goes.
pub proof fn one_more_went(diff: DiffView, leaf: Hash256, h: Hash256, came: nat, went: nat)
    requires
        is_net(diff, h, came, went),
        !(diff.insertions.contains(leaf) && diff.deletions.contains(leaf)),
    ensures
        is_net(
            diff.remove(leaf),
            h,
            came,
            (went + if leaf == h {
                1nat
            } else {
                0nat
            }) as nat,
        ),
{
    if diff.insertions.contains(leaf) {
        removed_once(diff.insertions, leaf);
    } else if !diff.deletions.contains(leaf) {
        pushed_once(diff.deletions, leaf);
    }
}

/// A change that does not contradict itself.
pub open spec fn is_sound(diff: DiffView) -> bool {
    &&& diff.insertions.no_duplicates()
    &&& diff.deletions.no_duplicates()
    &&& forall|h: Hash256| #[trigger]
        diff.insertions.contains(h) ==> !diff.deletions.contains(h)
}

/// A change stays sound.
pub proof fn stays_sound(diff: DiffView, leaf: Hash256)
    requires
        is_sound(diff),
    ensures
        is_sound(diff.insert(leaf)),
        is_sound(diff.remove(leaf)),
{
    if diff.deletions.contains(leaf) {
        removed_once(diff.deletions, leaf);
    } else {
        pushed_once(diff.deletions, leaf);
    }
    if diff.insertions.contains(leaf) {
        removed_once(diff.insertions, leaf);
    } else {
        pushed_once(diff.insertions, leaf);
    }
}

/// The leaves of outputs come.
proof fn outputs_come(
    diff: DiffView,
    outputs: Seq<OutputView>,
    n: nat,
    h: Hash256,
    came: nat,
    went: nat,
)
    requires
        is_sound(diff),
        is_net(diff, h, came, went),
    ensures
        is_sound(leaves_added(diff, outputs, n)),
        is_net(leaves_added(diff, outputs, n), h, came + times_output(outputs, h, n), went),
    decreases n,
{
    if n > 0 {
        outputs_come(diff, outputs, (n - 1) as nat, h, came, went);
        let before = leaves_added(diff, outputs, (n - 1) as nat);
        let so_far = came + times_output(outputs, h, (n - 1) as nat);
        stays_sound(before, outputs[n - 1].leaf);
        one_more_came(before, outputs[n - 1].leaf, h, so_far, went);
    }
}

/// The leaves that inputs claim go.
proof fn inputs_go(
    diff: DiffView,
    inputs: Seq<(OutPoint, Hash256)>,
    n: nat,
    h: Hash256,
    came: nat,
    went: nat,
)
    requires
        is_sound(diff),
        is_net(diff, h, came, went),
    ensures
        is_sound(leaves_taken(diff, inputs, n)),
        is_net(leaves_taken(diff, inputs, n), h, came, went + times_input(inputs, h, n)),
    decreases n,
{
    if n > 0 {
        inputs_go(diff, inputs, (n - 1) as nat, h, came, went);
        let before = leaves_taken(diff, inputs, (n - 1) as nat);
        let so_far = went + times_input(inputs, h, (n - 1) as nat);
        stays_sound(before, inputs[n - 1].1);
        one_more_went(before, inputs[n - 1].1, h, came, so_far);
    }
}

/// Transactions make and claim leaves.
proof fn transactions_change(
    diff: DiffView,
    txs: Seq<TransactionView>,
    n: nat,
    h: Hash256,
    came: nat,
    went: nat,
)
    requires
        is_sound(diff),
        is_net(diff, h, came, went),
    ensures
        is_sound(transactions_diff(diff, txs, n)),
        is_net(
            transactions_diff(diff, txs, n),
            h,
            came + times_made_by(txs, h, n),
            went + times_claimed_by(txs, h, n),
        ),
    decreases n,
{
    if n > 0 {
        transactions_change(diff, txs, (n - 1) as nat, h, came, went);
        let tx = txs[n - 1];
        let before = transactions_diff(diff, txs, (n - 1) as nat);
        let in_so_far = came + times_made_by(txs, h, (n - 1) as nat);
        let out_so_far = went + times_claimed_by(txs, h, (n - 1) as nat);
        inputs_go(before, tx.inputs, tx.inputs.len(), h, in_so_far, out_so_far);
        outputs_come(
            leaves_taken(before, tx.inputs, tx.inputs.len()),
            tx.outputs,
            tx.outputs.len(),
            h,
            in_so_far,
            out_so_far + times_input(tx.inputs, h, tx.inputs.len()),
        );
    }
}

/// Nothing changes yet.
proof fn no_change(h: Hash256)
    ensures
        is_sound(DiffView::none()),
        is_net(DiffView::none(), h, 0, 0),
{
}

/// The change that a body makes to the accumulator adds the leaf of each output
/// that its coinbase and its transactions make, and takes out each leaf that its
/// inputs claim, but for those that come and go inside the body.
pub proof fn bodies_add_what_they_make(body: BodyView, leaf: Hash256)
    ensures
        is_net(body_diff(body), leaf, times_made(body, leaf), times_claimed(body, leaf)),
{
    no_change(leaf);
    outputs_come(DiffView::none(), body.coinbase, body.coinbase.len(), leaf, 0, 0);
    transactions_change(
        coinbase_diff(body.coinbase),
        body.transactions,
        body.transactions.len(),
        leaf,
        times_output(body.coinbase, leaf, body.coinbase.len()),
        0,
    );
}

/// A change that a body makes.
pub open spec fn is_change_of(diff: DiffView, body: BodyView) -> bool {
    forall|leaf: Hash256|
        #![trigger times_made(body, leaf)]
        #![trigger times_claimed(body, leaf)]
        is_net(diff, leaf, times_made(body, leaf), times_claimed(body, leaf))
}

/// A change that takes a body back.
pub open spec fn is_undoing_of(diff: DiffView, body: BodyView) -> bool {
    forall|leaf: Hash256|
        #![trigger times_made(body, leaf)]
        #![trigger times_claimed(body, leaf)]
        is_net(diff, leaf, times_claimed(body, leaf), times_made(body, leaf))
}

/// A block that is accepted is prepared with the change of its body.
pub proof fn accepted_blocks_change_leaves(
    s: StateView,
    header: HeaderView,
    body: BodyView,
    facts: BodyFactsView,
)
    requires
        prevalidated(s, header, body, facts) is Ok,
    ensures
        is_change_of(prevalidated(s, header, body, facts)->Ok_0.accumulator_diff, body),
{
    assert forall|leaf: Hash256|
        #![trigger times_made(body, leaf)]
        #![trigger times_claimed(body, leaf)]
        is_net(body_diff(body), leaf, times_made(body, leaf), times_claimed(body, leaf)) by {
        bodies_add_what_they_make(body, leaf);
    }
}

/// Connecting a block without having checked it makes the change of its body to
/// the accumulator, and none else.
pub proof fn connecting_changes_leaves(
    s: StateView,
    header: HeaderView,
    body: BodyView,
    merkle_root: Result<MerkleRoot, Rejection>,
)
    requires
        connected(s, header, body, merkle_root).fault is None,
    ensures
        exists|diff: DiffView| #[trigger]
            is_change_of(diff, body) && diff.applied(s.accumulator) == Ok::<
                Seq<u8>,
                Fault,
            >(connected(s, header, body, merkle_root).state.accumulator),
{
    assert forall|leaf: Hash256|
        #![trigger times_made(body, leaf)]
        #![trigger times_claimed(body, leaf)]
        is_net(body_diff(body), leaf, times_made(body, leaf), times_claimed(body, leaf)) by {
        bodies_add_what_they_make(body, leaf);
    }
    crate::block_model::coins_moved_keeps(
        crate::block_model::coinbase_made(s, header.merkle_root, body.coinbase),
        body.transactions,
        body.transactions.len(),
    );
    assert(is_change_of(body_diff(body), body));
}

/// Connecting a checked block makes the change that was found when it was checked
/// to the accumulator.
pub proof fn connecting_checked_changes_leaves(
    s: StateView,
    header: HeaderView,
    body: BodyView,
    pre: PrevalidatedBlockView,
)
    requires
        prevalidated_connected(s, header, body, pre).fault is None,
    ensures
        pre.accumulator_diff.applied(s.accumulator) == Ok::<Seq<u8>, Fault>(
            prevalidated_connected(s, header, body, pre).state.accumulator,
        ),
{
    connecting_keeps_accumulator(
        crate::block_model::coinbase_made(s, pre.computed_merkle_root, body.coinbase),
        pre,
        pre.filled_transactions.len(),
    );
}

/// Connecting transactions leaves the accumulator alone.
proof fn connecting_keeps_accumulator(s: StateView, pre: PrevalidatedBlockView, n: nat)
    ensures
        crate::block_model::all_filled_connected(
            s,
            pre.filled_transactions,
            pre.next_height,
            n,
        ).state.accumulator == s.accumulator,
    decreases n,
{
    if n > 0 {
        connecting_keeps_accumulator(s, pre, (n - 1) as nat);
    }
}

// Taking back.
/// The leaves of outputs that are deleted go.
proof fn deleted_go(
    u: Undoing,
    origin: Origin,
    outputs: Seq<OutputView>,
    n: nat,
    h: Hash256,
    came: nat,
    went: nat,
)
    requires
        is_sound(u.diff),
        is_net(u.diff, h, came, went),
        outputs_deleted(u, origin, outputs, n).fault is None,
    ensures
        u.fault is None,
        is_sound(outputs_deleted(u, origin, outputs, n).diff),
        is_net(
            outputs_deleted(u, origin, outputs, n).diff,
            h,
            came,
            went + times_output(outputs, h, n),
        ),
    decreases n,
{
    reveal_with_fuel(outputs_deleted, 2);
    if n > 0 && u.fault is None {
        let outpoint = origin.outpoint(n - 1);
        let next = Undoing {
            state: StateView { utxos: u.state.utxos.remove(outpoint), ..u.state },
            diff: u.diff.remove(outputs[n - 1].leaf),
            fault: None,
        };
        let so_far = went + if outputs[n - 1].leaf == h {
            1nat
        } else {
            0nat
        };
        stays_sound(u.diff, outputs[n - 1].leaf);
        one_more_went(u.diff, outputs[n - 1].leaf, h, came, went);
        deleted_go(next, origin, outputs, (n - 1) as nat, h, came, so_far);
    }
}

/// The leaves of inputs that are given back come.
proof fn given_back_come(
    u: Undoing,
    inputs: Seq<(OutPoint, Hash256)>,
    n: nat,
    h: Hash256,
    came: nat,
    went: nat,
)
    requires
        is_sound(u.diff),
        is_net(u.diff, h, came, went),
        inputs_unspent(u, inputs, n).fault is None,
    ensures
        u.fault is None,
        is_sound(inputs_unspent(u, inputs, n).diff),
        is_net(
            inputs_unspent(u, inputs, n).diff,
            h,
            came + times_input(inputs, h, n),
            went,
        ),
    decreases n,
{
    if n > 0 && u.fault is None {
        let (outpoint, leaf) = inputs[n - 1];
        let next = Undoing {
            state: StateView {
                stxos: u.state.stxos.remove(outpoint),
                utxos: u.state.utxos.insert(outpoint, u.state.stxos[outpoint].output),
                ..u.state
            },
            diff: u.diff.insert(leaf),
            fault: None,
        };
        let so_far = came + if leaf == h {
            1nat
        } else {
            0nat
        };
        stays_sound(u.diff, leaf);
        one_more_came(u.diff, leaf, h, came, went);
        given_back_come(next, inputs, (n - 1) as nat, h, so_far, went);
    }
}

/// Transactions that are taken back give back what they claimed, and what they
/// made goes.
proof fn transactions_change_back(
    u: Undoing,
    txs: Seq<TransactionView>,
    n: nat,
    h: Hash256,
    came: nat,
    went: nat,
)
    requires
        is_sound(u.diff),
        is_net(u.diff, h, came, went),
        transactions_undone(u, txs, n).fault is None,
    ensures
        u.fault is None,
        is_sound(transactions_undone(u, txs, n).diff),
        is_net(
            transactions_undone(u, txs, n).diff,
            h,
            came + times_claimed_by(txs, h, n),
            went + times_made_by(txs, h, n),
        ),
    decreases n,
{
    reveal_with_fuel(transactions_undone, 2);
    if n > 0 && u.fault is None {
        let tx = txs[n - 1];
        let swap = swap_disconnected(u.state, tx);
        let first = Undoing { state: swap.state, diff: u.diff, fault: swap.fault };
        let origin = Origin::Transaction(tx.txid);
        let second = outputs_deleted(first, origin, tx.outputs, tx.outputs.len());
        let third = transaction_undone(u, tx);
        assert(third.fault is None);
        assert(second.fault is None);
        deleted_go(first, origin, tx.outputs, tx.outputs.len(), h, came, went);
        let out_so_far = went + times_output(tx.outputs, h, tx.outputs.len());
        given_back_come(second, tx.inputs, tx.inputs.len(), h, came, out_so_far);
        let in_so_far = came + times_input(tx.inputs, h, tx.inputs.len());
        transactions_change_back(third, txs, (n - 1) as nat, h, in_so_far, out_so_far);
    }
}

/// Disconnecting a block, as far as it comes to changing the accumulator, takes out
/// the leaf of each output that its coinbase and its transactions made, and adds
/// each leaf that its inputs claimed, but for those that came and went inside the
/// body.
pub proof fn disconnecting_takes_out_what_was_made(s: StateView, header: HeaderView, body: BodyView)
    requires
        tip_disconnect_staged(s, header, body).fault is None,
    ensures
        is_undoing_of(tip_disconnect_staged(s, header, body).diff, body),
{
    let txs = body.transactions;
    let start = Undoing { state: s, diff: DiffView::none(), fault: None };
    let undone = transactions_undone(start, txs, txs.len());
    let done = body_undone(s, header, body);
    let origin = Origin::Coinbase(header.merkle_root);
    assert(done.fault is None);
    assert(undone.fault is None) by {
        if undone.fault is Some {
            assert(outputs_deleted(undone, origin, body.coinbase, body.coinbase.len()) == undone);
        }
    }
    assert forall|leaf: Hash256|
        #![trigger times_made(body, leaf)]
        #![trigger times_claimed(body, leaf)]
        is_net(done.diff, leaf, times_claimed(body, leaf), times_made(body, leaf)) by {
        no_change(leaf);
        transactions_change_back(start, txs, txs.len(), leaf, 0, 0);
        deleted_go(
            undone,
            origin,
            body.coinbase,
            body.coinbase.len(),
            leaf,
            times_claimed_by(txs, leaf, txs.len()),
            times_made_by(txs, leaf, txs.len()),
        );
    }
}

/// Disconnecting a block makes that change to the accumulator, and none else.
pub proof fn disconnecting_changes_leaves(s: StateView, header: HeaderView, body: BodyView)
    requires
        tip_disconnected(s, header, body).fault is None,
    ensures
        exists|diff: DiffView| #[trigger]
            is_undoing_of(diff, body) && diff.applied(s.accumulator) == Ok::<
                Seq<u8>,
                Fault,
            >(tip_disconnected(s, header, body).state.accumulator),
{
    disconnecting_takes_out_what_was_made(s, header, body);
    let staged = tip_disconnect_staged(s, header, body);
    let start = Undoing { state: s, diff: DiffView::none(), fault: None };
    undoing_keeps_accumulator(start, body.transactions, body.transactions.len());
    crate::block_model::outputs_deleted_keeps(
        transactions_undone(start, body.transactions, body.transactions.len()),
        Origin::Coinbase(header.merkle_root),
        body.coinbase,
        body.coinbase.len(),
    );
    assert(is_undoing_of(staged.diff, body));
}

/// Taking transactions back leaves the accumulator alone.
proof fn undoing_keeps_accumulator(u: Undoing, txs: Seq<TransactionView>, n: nat)
    ensures
        transactions_undone(u, txs, n).state.accumulator == u.state.accumulator,
    decreases n,
{
    if n > 0 && u.fault is None {
        crate::block_model::transaction_undone_keeps(u, txs[n - 1]);
        undoing_keeps_accumulator(transaction_undone(u, txs[n - 1]), txs, (n - 1) as nat);
    }
}

/// Where a body makes no leaf twice and claims none twice, what disconnecting takes
/// out of the accumulator is what connecting added, and what it adds is what
/// connecting took out.
pub proof fn disconnecting_reverses_the_change(s: StateView, header: HeaderView, body: BodyView)
    requires
        tip_disconnect_staged(s, header, body).fault is None,
        forall|leaf: Hash256| #[trigger] times_made(body, leaf) <= 1,
        forall|leaf: Hash256| #[trigger] times_claimed(body, leaf) <= 1,
    ensures
        ({
            let forth = body_diff(body);
            let back = tip_disconnect_staged(s, header, body).diff;
            &&& back.deletions.to_set() == forth.insertions.to_set()
            &&& back.insertions.to_set() == forth.deletions.to_set()
        }),
{
    let forth = body_diff(body);
    let back = tip_disconnect_staged(s, header, body).diff;
    disconnecting_takes_out_what_was_made(s, header, body);
    assert forall|leaf: Hash256| #[trigger]
        back.deletions.contains(leaf) <==> forth.insertions.contains(leaf) by {
        bodies_add_what_they_make(body, leaf);
        assert(times_made(body, leaf) <= 1 && times_claimed(body, leaf) <= 1);
    }
    assert forall|leaf: Hash256| #[trigger]
        back.insertions.contains(leaf) <==> forth.deletions.contains(leaf) by {
        bodies_add_what_they_make(body, leaf);
        assert(times_made(body, leaf) <= 1 && times_claimed(body, leaf) <= 1);
    }
    assert(back.deletions.to_set() =~= forth.insertions.to_set());
    assert(back.insertions.to_set() =~= forth.deletions.to_set());
}

// Making the change.
/// What a change makes of a forest. Where a leaf is to be taken out that is not there,
/// it is turned down. Where none is to be taken out, the leaves are added. Where one is,
/// that can be told from the node to its left, it is taken out, and then the leaves are
/// added.
pub proof fn changes_are_made(forest: Seq<u8>, diff: DiffView)
    ensures
        (exists|i: int|
            0 <= i < diff.deletions.len() && !holds_leaf(forest, #[trigger] diff.deletions[i]))
            ==> diff.applied(forest) == Err::<Seq<u8>, Fault>(
            Fault::Error(Error::Utreexo(UtreexoError)),
        ),
        diff.deletions.len() == 0 && number(forest, 0) + diff.insertions.len() < LEAVES_LIMIT ==> (
        match forest_modified(forest, diff.insertions, Seq::empty()) {
            Some(after) => diff.applied(forest) == Ok::<Seq<u8>, Fault>(after),
            None => diff.applied(forest) is Err,
        }),
        diff.deletions.len() == 1 && holds_leaf(forest, diff.deletions[0]) && !is_stuck(
            forest,
            diff.deletions[0],
        ) ==> (match forest_modified(forest, Seq::empty(), diff.deletions) {
            Some(rest) => number(rest, 0) + diff.insertions.len() < LEAVES_LIMIT ==> (
            match forest_modified(rest, diff.insertions, Seq::empty()) {
                Some(after) => diff.applied(forest) == Ok::<Seq<u8>, Fault>(after),
                None => diff.applied(forest) is Err,
            }),
            None => diff.applied(forest) is Err,
        }),
{
    reveal_with_fuel(taken_out, 2);
    let before = |a: Hash256, b: Hash256| goes_first(forest, a, b);
    let leaves = diff.deletions;
    assert(is_strict(before));
    if leaves.len() == 0 {
        let none = Seq::<Hash256>::empty();
        assert forall|x: Hash256| leaves.to_set().contains(x) <==> #[trigger] none.contains(x) by {}
        arrangement_is(none, leaves.to_set(), before);
        assert(diff.turn(forest) =~= none);
    }
    if leaves.len() == 1 {
        assert forall|x: Hash256|
            leaves.to_set().contains(x) <==> #[trigger] leaves.contains(x) by {}
        arrangement_is(leaves, leaves.to_set(), before);
        assert(diff.turn(forest) == leaves);
        assert(leaves =~= seq![leaves[0]]);
    }
}

// The order of leaves.
/// The leaves that the first `n` transactions make, in order.
pub open spec fn leaves_made_by(txs: Seq<TransactionView>, n: nat) -> Seq<Hash256>
    decreases n,
{
    if n == 0 {
        Seq::empty()
    } else {
        leaves_made_by(txs, (n - 1) as nat) + Seq::new(
            txs[n - 1].outputs.len(),
            |j: int| txs[n - 1].outputs[j].leaf,
        )
    }
}

/// The leaves that the first `n` transactions claim, in order.
pub open spec fn leaves_claimed_by(txs: Seq<TransactionView>, n: nat) -> Seq<Hash256>
    decreases n,
{
    if n == 0 {
        Seq::empty()
    } else {
        leaves_claimed_by(txs, (n - 1) as nat) + Seq::new(
            txs[n - 1].inputs.len(),
            |j: int| txs[n - 1].inputs[j].1,
        )
    }
}

/// The leaves that a body makes, in order: those of its coinbase, then those of its
/// transactions.
pub open spec fn leaves_made(body: BodyView) -> Seq<Hash256> {
    Seq::new(body.coinbase.len(), |j: int| body.coinbase[j].leaf) + leaves_made_by(
        body.transactions,
        body.transactions.len(),
    )
}

/// The leaves that a body claims, in order.
pub open spec fn leaves_claimed(body: BodyView) -> Seq<Hash256> {
    leaves_claimed_by(body.transactions, body.transactions.len())
}

/// No leaf is made twice, claimed twice, or both.
pub open spec fn leaves_differ(body: BodyView) -> bool {
    &&& leaves_made(body).no_duplicates()
    &&& leaves_claimed(body).no_duplicates()
    &&& forall|i: int, j: int|
        #![trigger leaves_made(body)[i], leaves_claimed(body)[j]]
        0 <= i < leaves_made(body).len() && 0 <= j < leaves_claimed(body).len() ==> leaves_made(
            body,
        )[i] != leaves_claimed(body)[j]
}

/// Leaves come and go in this order, none twice.
spec fn in_two_rows(come: Seq<Hash256>, go: Seq<Hash256>) -> bool {
    &&& come.no_duplicates()
    &&& go.no_duplicates()
    &&& forall|i: int, j: int|
        #![trigger come[i], go[j]]
        0 <= i < come.len() && 0 <= j < go.len() ==> come[i] != go[j]
}

/// The first leaves that come and go.
spec fn so_far(come: Seq<Hash256>, go: Seq<Hash256>, a: int, b: int) -> DiffView {
    DiffView { insertions: come.take(a), deletions: go.take(b) }
}

/// The next leaf comes.
proof fn next_comes(come: Seq<Hash256>, go: Seq<Hash256>, a: int, b: int)
    requires
        in_two_rows(come, go),
        0 <= a < come.len(),
        0 <= b <= go.len(),
    ensures
        so_far(come, go, a, b).insert(come[a]) == so_far(come, go, a + 1, b),
{
    let leaf = come[a];
    if come.take(a).contains(leaf) {
        let i = choose|i: int| 0 <= i < a && come.take(a)[i] == leaf;
        assert(come[i] == come[a]);
    }
    if go.take(b).contains(leaf) {
        let j = choose|j: int| 0 <= j < b && go.take(b)[j] == leaf;
        assert(come[a] == go[j]);
    }
    assert(come.take(a).push(leaf) =~= come.take(a + 1));
}

/// The next leaf goes.
proof fn next_goes(come: Seq<Hash256>, go: Seq<Hash256>, a: int, b: int)
    requires
        in_two_rows(come, go),
        0 <= a <= come.len(),
        0 <= b < go.len(),
    ensures
        so_far(come, go, a, b).remove(go[b]) == so_far(come, go, a, b + 1),
{
    let leaf = go[b];
    if go.take(b).contains(leaf) {
        let i = choose|i: int| 0 <= i < b && go.take(b)[i] == leaf;
        assert(go[i] == go[b]);
    }
    if come.take(a).contains(leaf) {
        let j = choose|j: int| 0 <= j < a && come.take(a)[j] == leaf;
        assert(come[j] == go[b]);
    }
    assert(go.take(b).push(leaf) =~= go.take(b + 1));
}

/// The leaves of outputs come in order.
proof fn outputs_come_in_order(
    come: Seq<Hash256>,
    go: Seq<Hash256>,
    a: int,
    b: int,
    outputs: Seq<OutputView>,
    n: nat,
)
    requires
        in_two_rows(come, go),
        0 <= a,
        a + outputs.len() <= come.len(),
        0 <= b <= go.len(),
        n <= outputs.len(),
        forall|j: int| 0 <= j < outputs.len() ==> come[a + j] == (#[trigger] outputs[j]).leaf,
    ensures
        leaves_added(so_far(come, go, a, b), outputs, n) == so_far(come, go, a + n, b),
    decreases n,
{
    if n > 0 {
        outputs_come_in_order(come, go, a, b, outputs, (n - 1) as nat);
        assert(come[a + (n - 1)] == outputs[n - 1].leaf);
        next_comes(come, go, a + n - 1, b);
    }
}

/// The leaves that inputs claim go in order.
proof fn inputs_go_in_order(
    come: Seq<Hash256>,
    go: Seq<Hash256>,
    a: int,
    b: int,
    inputs: Seq<(OutPoint, Hash256)>,
    n: nat,
)
    requires
        in_two_rows(come, go),
        0 <= a <= come.len(),
        0 <= b,
        b + inputs.len() <= go.len(),
        n <= inputs.len(),
        forall|j: int| 0 <= j < inputs.len() ==> go[b + j] == (#[trigger] inputs[j]).1,
    ensures
        leaves_taken(so_far(come, go, a, b), inputs, n) == so_far(come, go, a, b + n),
    decreases n,
{
    if n > 0 {
        inputs_go_in_order(come, go, a, b, inputs, (n - 1) as nat);
        assert(go[b + (n - 1)] == inputs[n - 1].1);
        next_goes(come, go, a, b + n - 1);
    }
}

/// The leaves of one transaction stand in a row among those of many.
proof fn leaves_in_a_row(txs: Seq<TransactionView>, i: int, n: nat)
    requires
        0 <= i < n <= txs.len(),
    ensures
        leaves_made_by(txs, i as nat).len() + txs[i].outputs.len() == leaves_made_by(
            txs,
            (i + 1) as nat,
        ).len(),
        leaves_made_by(txs, (i + 1) as nat).len() <= leaves_made_by(txs, n).len(),
        forall|j: int|
            0 <= j < txs[i].outputs.len() ==> leaves_made_by(txs, n)[leaves_made_by(
                txs,
                i as nat,
            ).len() + j] == (#[trigger] txs[i].outputs[j]).leaf,
        leaves_claimed_by(txs, i as nat).len() + txs[i].inputs.len() == leaves_claimed_by(
            txs,
            (i + 1) as nat,
        ).len(),
        leaves_claimed_by(txs, (i + 1) as nat).len() <= leaves_claimed_by(txs, n).len(),
        forall|j: int|
            0 <= j < txs[i].inputs.len() ==> leaves_claimed_by(txs, n)[leaves_claimed_by(
                txs,
                i as nat,
            ).len() + j] == (#[trigger] txs[i].inputs[j]).1,
    decreases n,
{
    if i + 1 < n {
        leaves_in_a_row(txs, i, (n - 1) as nat);
    }
}

/// The change that the first `n` transactions of a body make, in order.
proof fn transactions_in_order(body: BodyView, n: nat)
    requires
        leaves_differ(body),
        n <= body.transactions.len(),
    ensures
        transactions_diff(coinbase_diff(body.coinbase), body.transactions, n) == so_far(
            leaves_made(body),
            leaves_claimed(body),
            (body.coinbase.len() + leaves_made_by(body.transactions, n).len()) as int,
            leaves_claimed_by(body.transactions, n).len() as int,
        ),
    decreases n,
{
    let txs = body.transactions;
    let come = leaves_made(body);
    let go = leaves_claimed(body);
    let first = body.coinbase.len();
    if n == 0 {
        assert(so_far(come, go, 0, 0) =~= DiffView::none());
        assert forall|j: int| 0 <= j < body.coinbase.len() implies come[0 + j] == (
        #[trigger] body.coinbase[j]).leaf by {}
        outputs_come_in_order(come, go, 0, 0, body.coinbase, first);
    } else {
        transactions_in_order(body, (n - 1) as nat);
        leaves_in_a_row(txs, n - 1, txs.len());
        let tx = txs[n - 1];
        let a = (first + leaves_made_by(txs, (n - 1) as nat).len()) as int;
        let b = leaves_claimed_by(txs, (n - 1) as nat).len() as int;
        assert forall|j: int| 0 <= j < tx.inputs.len() implies go[b + j] == (
        #[trigger] tx.inputs[j]).1 by {
            assert(txs[n - 1].inputs[j] == tx.inputs[j]);
        }
        inputs_go_in_order(come, go, a, b, tx.inputs, tx.inputs.len());
        assert forall|j: int| 0 <= j < tx.outputs.len() implies come[a + j] == (
        #[trigger] tx.outputs[j]).leaf by {
            assert(txs[n - 1].outputs[j] == tx.outputs[j]);
        }
        outputs_come_in_order(
            come,
            go,
            a,
            b + tx.inputs.len(),
            tx.outputs,
            tx.outputs.len(),
        );
    }
}

/// Where no leaf of a body is made twice, claimed twice, or both, its change adds the
/// leaves that it makes in their order, those of the coinbase first, and takes out the
/// leaves that it claims in theirs.
pub proof fn bodies_change_leaves_in_order(body: BodyView)
    requires
        leaves_differ(body),
    ensures
        body_diff(body).insertions == leaves_made(body),
        body_diff(body).deletions == leaves_claimed(body),
{
    transactions_in_order(body, body.transactions.len());
    assert(leaves_made(body).take(leaves_made(body).len() as int) =~= leaves_made(body));
    assert(leaves_claimed(body).take(leaves_claimed(body).len() as int) =~= leaves_claimed(body));
}

/// The leaves of outputs that are deleted go, last to first.
proof fn deleted_go_in_order(
    u: Undoing,
    come: Seq<Hash256>,
    go: Seq<Hash256>,
    a: int,
    b: int,
    origin: Origin,
    outputs: Seq<OutputView>,
    n: nat,
)
    requires
        in_two_rows(come, go),
        0 <= a <= come.len(),
        0 <= b,
        b + n <= go.len(),
        n <= outputs.len(),
        u.diff == so_far(come, go, a, b),
        forall|j: int| 0 <= j < n ==> go[b + n - 1 - j] == (#[trigger] outputs[j]).leaf,
        outputs_deleted(u, origin, outputs, n).fault is None,
    ensures
        u.fault is None,
        outputs_deleted(u, origin, outputs, n).diff == so_far(come, go, a, b + n),
    decreases n,
{
    reveal_with_fuel(outputs_deleted, 2);
    if n > 0 && u.fault is None {
        let outpoint = origin.outpoint(n - 1);
        let next = Undoing {
            state: StateView { utxos: u.state.utxos.remove(outpoint), ..u.state },
            diff: u.diff.remove(outputs[n - 1].leaf),
            fault: None,
        };
        assert(go[b + n - 1 - (n - 1)] == outputs[n - 1].leaf);
        next_goes(come, go, a, b);
        deleted_go_in_order(next, come, go, a, b + 1, origin, outputs, (n - 1) as nat);
    }
}

/// The leaves of inputs that are given back come, last to first.
proof fn given_back_come_in_order(
    u: Undoing,
    come: Seq<Hash256>,
    go: Seq<Hash256>,
    a: int,
    b: int,
    inputs: Seq<(OutPoint, Hash256)>,
    n: nat,
)
    requires
        in_two_rows(come, go),
        0 <= a,
        a + n <= come.len(),
        0 <= b <= go.len(),
        n <= inputs.len(),
        u.diff == so_far(come, go, a, b),
        forall|j: int| 0 <= j < n ==> come[a + n - 1 - j] == (#[trigger] inputs[j]).1,
        inputs_unspent(u, inputs, n).fault is None,
    ensures
        u.fault is None,
        inputs_unspent(u, inputs, n).diff == so_far(come, go, a + n, b),
    decreases n,
{
    if n > 0 && u.fault is None {
        let (outpoint, leaf) = inputs[n - 1];
        let next = Undoing {
            state: StateView {
                stxos: u.state.stxos.remove(outpoint),
                utxos: u.state.utxos.insert(outpoint, u.state.stxos[outpoint].output),
                ..u.state
            },
            diff: u.diff.insert(leaf),
            fault: None,
        };
        assert(come[a + n - 1 - (n - 1)] == inputs[n - 1].1);
        next_comes(come, go, a, b);
        given_back_come_in_order(next, come, go, a + 1, b, inputs, (n - 1) as nat);
    }
}

/// The change that taking one transaction back makes, in order.
proof fn one_taken_back_in_order(
    u: Undoing,
    come: Seq<Hash256>,
    go: Seq<Hash256>,
    a: int,
    b: int,
    tx: TransactionView,
)
    requires
        in_two_rows(come, go),
        0 <= a,
        a + tx.inputs.len() <= come.len(),
        0 <= b,
        b + tx.outputs.len() <= go.len(),
        u.diff == so_far(come, go, a, b),
        forall|j: int|
            0 <= j < tx.outputs.len() ==> go[b + tx.outputs.len() - 1 - j] == (
            #[trigger] tx.outputs[j]).leaf,
        forall|j: int|
            0 <= j < tx.inputs.len() ==> come[a + tx.inputs.len() - 1 - j] == (
            #[trigger] tx.inputs[j]).1,
        u.fault is None,
        transaction_undone(u, tx).fault is None,
    ensures
        transaction_undone(u, tx).diff == so_far(
            come,
            go,
            a + tx.inputs.len(),
            b + tx.outputs.len(),
        ),
{
    let swap = swap_disconnected(u.state, tx);
    let first = Undoing { state: swap.state, diff: u.diff, fault: swap.fault };
    let origin = Origin::Transaction(tx.txid);
    let second = outputs_deleted(first, origin, tx.outputs, tx.outputs.len());
    let third = inputs_unspent(second, tx.inputs, tx.inputs.len());
    assert(third == transaction_undone(u, tx));
    if second.fault is Some {
        assert(third == second);
    }
    deleted_go_in_order(first, come, go, a, b, origin, tx.outputs, tx.outputs.len());
    given_back_come_in_order(
        second,
        come,
        go,
        a,
        b + tx.outputs.len(),
        tx.inputs,
        tx.inputs.len(),
    );
}

/// Where the leaves of one transaction of a body stand, counted from the end.
proof fn rows_from_the_end(body: BodyView, i: int)
    requires
        0 <= i < body.transactions.len(),
    ensures
        ({
            let txs = body.transactions;
            let tx = txs[i];
            let come = leaves_claimed(body).reverse();
            let go = leaves_made(body).reverse();
            let n = (i + 1) as nat;
            let a = come.len() - leaves_claimed_by(txs, n).len();
            let b = go.len() - body.coinbase.len() - leaves_made_by(txs, n).len();
            &&& 0 <= a
            &&& 0 <= b
            &&& a + tx.inputs.len() == come.len() - leaves_claimed_by(txs, i as nat).len()
            &&& b + tx.outputs.len() == go.len() - body.coinbase.len() - leaves_made_by(
                txs,
                i as nat,
            ).len()
            &&& forall|j: int|
                0 <= j < tx.outputs.len() ==> go[b + tx.outputs.len() - 1 - j] == (
                #[trigger] tx.outputs[j]).leaf
            &&& forall|j: int|
                0 <= j < tx.inputs.len() ==> come[a + tx.inputs.len() - 1 - j] == (
                #[trigger] tx.inputs[j]).1
        }),
{
    let txs = body.transactions;
    let tx = txs[i];
    let made = leaves_made(body);
    let claimed = leaves_claimed(body);
    let come = claimed.reverse();
    let go = made.reverse();
    let n = (i + 1) as nat;
    let a = come.len() - leaves_claimed_by(txs, n).len();
    let b = go.len() - body.coinbase.len() - leaves_made_by(txs, n).len();
    leaves_in_a_row(txs, i, txs.len());
    assert forall|j: int| 0 <= j < tx.outputs.len() implies go[b + tx.outputs.len() - 1 - j] == (
    #[trigger] tx.outputs[j]).leaf by {
        let at = body.coinbase.len() + leaves_made_by(txs, i as nat).len() + j;
        assert(txs[i].outputs[j] == tx.outputs[j]);
        assert(made[at] == tx.outputs[j].leaf);
        assert(go[go.len() - 1 - at] == made[at]);
    }
    assert forall|j: int| 0 <= j < tx.inputs.len() implies come[a + tx.inputs.len() - 1 - j] == (
    #[trigger] tx.inputs[j]).1 by {
        let at = leaves_claimed_by(txs, i as nat).len() + j;
        assert(txs[i].inputs[j] == tx.inputs[j]);
        assert(claimed[at] == tx.inputs[j].1);
        assert(come[come.len() - 1 - at] == claimed[at]);
    }
}

/// The change that taking the first `n` transactions of a body back makes, in order.
proof fn taken_back_in_order(u: Undoing, body: BodyView, n: nat)
    requires
        leaves_differ(body),
        n <= body.transactions.len(),
        u.diff == so_far(
            leaves_claimed(body).reverse(),
            leaves_made(body).reverse(),
            leaves_claimed(body).len() - leaves_claimed_by(body.transactions, n).len(),
            leaves_made(body).len() - body.coinbase.len() - leaves_made_by(
                body.transactions,
                n,
            ).len(),
        ),
        transactions_undone(u, body.transactions, n).fault is None,
    ensures
        u.fault is None,
        transactions_undone(u, body.transactions, n).diff == so_far(
            leaves_claimed(body).reverse(),
            leaves_made(body).reverse(),
            leaves_claimed(body).len() as int,
            leaves_made(body).len() - body.coinbase.len(),
        ),
    decreases n,
{
    let txs = body.transactions;
    if n > 0 && u.fault is None {
        let tx = txs[n - 1];
        let come = leaves_claimed(body).reverse();
        let go = leaves_made(body).reverse();
        let next = transaction_undone(u, tx);
        rows_from_the_end(body, n - 1);
        reversed_rows(leaves_claimed(body), leaves_made(body));
        assert(transactions_undone(u, txs, n) == transactions_undone(next, txs, (n - 1) as nat));
        if next.fault is Some {
            assert(transactions_undone(next, txs, (n - 1) as nat) == next);
        }
        one_taken_back_in_order(
            u,
            come,
            go,
            come.len() - leaves_claimed_by(txs, n).len(),
            go.len() - body.coinbase.len() - leaves_made_by(txs, n).len(),
            tx,
        );
        taken_back_in_order(next, body, (n - 1) as nat);
    }
}

/// Two rows of leaves stay two rows when they are turned round.
proof fn reversed_rows(come: Seq<Hash256>, go: Seq<Hash256>)
    requires
        in_two_rows(go, come),
    ensures
        in_two_rows(come.reverse(), go.reverse()),
{
    let c = come.reverse();
    let g = go.reverse();
    assert forall|i: int, j: int|
        0 <= i < c.len() && 0 <= j < c.len() && i != j implies c[i] != c[j] by {
        assert(come[come.len() - 1 - i] != come[come.len() - 1 - j]);
    }
    assert forall|i: int, j: int|
        0 <= i < g.len() && 0 <= j < g.len() && i != j implies g[i] != g[j] by {
        assert(go[go.len() - 1 - i] != go[go.len() - 1 - j]);
    }
    assert forall|i: int, j: int|
        #![trigger c[i], g[j]]
        0 <= i < c.len() && 0 <= j < g.len() implies c[i] != g[j] by {
        assert(go[go.len() - 1 - j] != come[come.len() - 1 - i]);
    }
}

/// Where no leaf of a body is made twice, claimed twice, or both, disconnecting its block
/// takes out the leaves that it made, last to first, and adds the leaves that it claimed,
/// last to first.
pub proof fn disconnecting_changes_leaves_in_order(
    s: StateView,
    header: HeaderView,
    body: BodyView,
)
    requires
        leaves_differ(body),
        tip_disconnect_staged(s, header, body).fault is None,
    ensures
        tip_disconnect_staged(s, header, body).diff.insertions == leaves_claimed(body).reverse(),
        tip_disconnect_staged(s, header, body).diff.deletions == leaves_made(body).reverse(),
{
    let txs = body.transactions;
    let made = leaves_made(body);
    let claimed = leaves_claimed(body);
    let come = claimed.reverse();
    let go = made.reverse();
    let start = Undoing { state: s, diff: DiffView::none(), fault: None };
    let undone = transactions_undone(start, txs, txs.len());
    let origin = Origin::Coinbase(header.merkle_root);
    let n = body.coinbase.len();
    assert(body_undone(s, header, body).fault is None);
    if undone.fault is Some {
        assert(outputs_deleted(undone, origin, body.coinbase, n) == undone);
    }
    assert(so_far(come, go, 0, 0) =~= DiffView::none());
    taken_back_in_order(start, body, txs.len());
    reversed_rows(claimed, made);
    let b = made.len() - n;
    assert forall|j: int| 0 <= j < n implies go[b + n - 1 - j] == (
    #[trigger] body.coinbase[j]).leaf by {
        assert(made[j] == body.coinbase[j].leaf);
    }
    deleted_go_in_order(undone, come, go, claimed.len() as int, b, origin, body.coinbase, n);
    assert(come.take(come.len() as int) =~= come);
    assert(go.take(go.len() as int) =~= go);
}

/// Where no leaf of a body is made twice, claimed twice, or both, an accepted block is
/// prepared with what it makes and what it claims, in order; connecting it makes that
/// change to the accumulator.
pub proof fn connecting_changes_leaves_in_order(
    s: StateView,
    header: HeaderView,
    body: BodyView,
    facts: BodyFactsView,
    merkle_root: Result<MerkleRoot, Rejection>,
)
    requires
        leaves_differ(body),
    ensures
        ({
            let change = DiffView {
                insertions: leaves_made(body),
                deletions: leaves_claimed(body),
            };
            &&& prevalidated(s, header, body, facts) matches Ok(pre) ==> pre.accumulator_diff
                == change
            &&& connected(s, header, body, merkle_root).fault is None ==> change.applied(
                s.accumulator,
            ) == Ok::<Seq<u8>, Fault>(connected(s, header, body, merkle_root).state.accumulator)
        }),
{
    bodies_change_leaves_in_order(body);
    assert(body_diff(body) == DiffView {
        insertions: leaves_made(body),
        deletions: leaves_claimed(body),
    });
    crate::block_model::coins_moved_keeps(
        crate::block_model::coinbase_made(s, header.merkle_root, body.coinbase),
        body.transactions,
        body.transactions.len(),
    );
}

/// Disconnecting such a block makes the change to the accumulator that takes out what it
/// made and adds what it claimed, last to first.
pub proof fn disconnecting_changes_back_in_order(s: StateView, header: HeaderView, body: BodyView)
    requires
        leaves_differ(body),
        tip_disconnected(s, header, body).fault is None,
    ensures
        (DiffView {
            insertions: leaves_claimed(body).reverse(),
            deletions: leaves_made(body).reverse(),
        }).applied(s.accumulator) == Ok::<Seq<u8>, Fault>(
            tip_disconnected(s, header, body).state.accumulator,
        ),
{
    disconnecting_changes_leaves_in_order(s, header, body);
    let staged = tip_disconnect_staged(s, header, body);
    let start = Undoing { state: s, diff: DiffView::none(), fault: None };
    undoing_keeps_accumulator(start, body.transactions, body.transactions.len());
    crate::block_model::outputs_deleted_keeps(
        transactions_undone(start, body.transactions, body.transactions.len()),
        Origin::Coinbase(header.merkle_root),
        body.coinbase,
        body.coinbase.len(),
    );
    assert(staged.diff == DiffView {
        insertions: leaves_claimed(body).reverse(),
        deletions: leaves_made(body).reverse(),
    });
}

/// A leaf that was to be taken out, and is added, stays where it is, and a leaf that was to
/// be added, and is taken out, is not added. The order of the others does not change.
pub proof fn changes_cancel(diff: DiffView, a: Seq<Hash256>, b: Seq<Hash256>, leaf: Hash256)
    requires
        !a.contains(leaf),
    ensures
        diff.deletions == a.push(leaf) + b ==> diff.insert(leaf).deletions == a + b
            && diff.insert(leaf).insertions == diff.insertions,
        diff.insertions == a.push(leaf) + b ==> diff.remove(leaf).insertions == a + b
            && diff.remove(leaf).deletions == diff.deletions,
{
    let list = a.push(leaf) + b;
    assert(list[a.len() as int] == leaf);
    list.index_of_first_ensures(leaf);
    let at = list.index_of_first(leaf)->0;
    if at < a.len() {
        assert(a[at] == leaf);
    }
    assert(at == a.len());
    assert(list.remove_value(leaf) =~= a + b);
}

// The order in which leaves are taken out.
/// A leaf stands last at a place among the leaves of a forest.
pub open spec fn stands_at(forest: Seq<u8>, leaf: Hash256, p: int) -> bool {
    let leaves = forest_leaves(forest);
    &&& 0 <= p < leaves.len()
    &&& leaves[p].hash == leaf
    &&& forall|q: int| p < q < leaves.len() ==> (#[trigger] leaves[q]).hash != leaf
}

/// Leaves stand at these places of a forest, lower rows first, and from left to right.
pub open spec fn stand_in_turn(forest: Seq<u8>, order: Seq<Hash256>, places: Seq<int>) -> bool {
    let leaves = forest_leaves(forest);
    &&& places.len() == order.len()
    &&& forall|i: int| 0 <= i < order.len() ==> stands_at(forest, #[trigger] order[i], places[i])
    &&& forall|i: int, j: int|
        #![trigger places[i], places[j]]
        0 <= i < j < places.len() ==> leaves[places[i]].row < leaves[places[j]].row || (
        leaves[places[i]].row == leaves[places[j]].row && places[i] < places[j])
}

/// A forest goes through these stages as the first of some leaves are taken out of it, each
/// of which can be told from the node to its left.
pub open spec fn goes_through(
    forest: Seq<u8>,
    order: Seq<Hash256>,
    stages: Seq<Seq<u8>>,
) -> bool {
    &&& 0 < stages.len() <= order.len() + 1
    &&& stages[0] == forest
    &&& forall|i: int|
        0 <= i < stages.len() - 1 ==> !is_beside_its_like(#[trigger] stages[i], order[i])
            && forest_modified(stages[i], Seq::empty(), seq![order[i]]) == Some(stages[i + 1])
}

/// A leaf stands right of a node with the same hash.
pub open spec fn is_beside_its_like(forest: Seq<u8>, leaf: Hash256) -> bool {
    exists|p: int| #[trigger]
        stands_at(forest, leaf, p) && forest_leaves(forest)[p].left == Some(leaf)
}

/// A leaf that stands last at a place is found there.
proof fn found_last(leaves: Seq<Leaf>, hash: Hash256, p: int, n: nat)
    requires
        0 <= p < n <= leaves.len(),
        leaves[p].hash == hash,
        forall|q: int| p < q < n ==> (#[trigger] leaves[q]).hash != hash,
    ensures
        last_place(leaves, hash, n) == Some(p),
    decreases n,
{
    if p < n - 1 {
        found_last(leaves, hash, p, (n - 1) as nat);
    }
}

/// Where a leaf is found, it stands last.
proof fn found_stands(leaves: Seq<Leaf>, hash: Hash256, n: nat)
    requires
        n <= leaves.len(),
    ensures
        last_place(leaves, hash, n) matches Some(p) ==> 0 <= p < n && leaves[p].hash == hash
            && forall|q: int| p < q < n ==> (#[trigger] leaves[q]).hash != hash,
    decreases n,
{
    if n > 0 {
        found_stands(leaves, hash, (n - 1) as nat);
    }
}

/// A leaf is stuck exactly if it stands right of a node with the same hash.
proof fn stuck_is_beside(forest: Seq<u8>, leaf: Hash256)
    ensures
        is_stuck(forest, leaf) <==> is_beside_its_like(forest, leaf),
{
    let leaves = forest_leaves(forest);
    found_stands(leaves, leaf, leaves.len());
    if is_stuck(forest, leaf) {
        assert(stands_at(forest, leaf, place(forest, leaf)->0));
    }
    if is_beside_its_like(forest, leaf) {
        let p = choose|p: int| #[trigger]
            stands_at(forest, leaf, p) && leaves[p].left == Some(leaf);
        found_last(leaves, leaf, p, leaves.len());
    }
}

/// The stages are those of taking leaves out.
proof fn stages_are(forest: Seq<u8>, order: Seq<Hash256>, stages: Seq<Seq<u8>>, n: nat)
    requires
        goes_through(forest, order, stages),
        n < stages.len(),
    ensures
        taken_out(forest, order, n) == Ok::<Seq<u8>, Fault>(stages[n as int]),
    decreases n,
{
    if n > 0 {
        stages_are(forest, order, stages, (n - 1) as nat);
        stuck_is_beside(stages[n - 1], order[n - 1]);
    }
}

/// A change takes its leaves out one by one, lower rows first, and from left to right, before
/// it adds any. It stops at the first leaf that stands right of a node with the same hash, or
/// that is refused, and adds none if there would be too many.
pub proof fn leaves_are_taken_out_in_turn(
    forest: Seq<u8>,
    diff: DiffView,
    order: Seq<Hash256>,
    places: Seq<int>,
    stages: Seq<Seq<u8>>,
)
    requires
        forall|leaf: Hash256| diff.deletions.contains(leaf) <==> #[trigger] order.contains(leaf),
        stand_in_turn(forest, order, places),
        goes_through(forest, order, stages),
    ensures
        ({
            let n = stages.len() - 1;
            let last = stages[n];
            let done = diff.applied(forest);
            if n < order.len() {
                if is_beside_its_like(last, order[n]) {
                    done == Err::<Seq<u8>, Fault>(Fault::Halt(Halt::EqualSiblings))
                } else {
                    forest_modified(last, Seq::empty(), seq![order[n]]) is None ==> done == Err::<
                        Seq<u8>,
                        Fault,
                    >(Fault::Error(Error::Utreexo(UtreexoError)))
                }
            } else if number(last, 0) + diff.insertions.len() < LEAVES_LIMIT {
                match forest_modified(last, diff.insertions, Seq::empty()) {
                    Some(after) => done == Ok::<Seq<u8>, Fault>(after),
                    None => done == Err::<Seq<u8>, Fault>(
                        Fault::Error(Error::Utreexo(UtreexoError)),
                    ),
                }
            } else {
                done == Err::<Seq<u8>, Fault>(Fault::Halt(Halt::OutOfRange))
            }
        }),
{
    let n = stages.len() - 1;
    let leaves = forest_leaves(forest);
    let before = |a: Hash256, b: Hash256| goes_first(forest, a, b);
    assert(is_strict(before));
    assert forall|i: int| 0 <= i < order.len() implies place(forest, #[trigger] order[i]) == Some(
        places[i],
    ) by {
        found_last(leaves, order[i], places[i], leaves.len());
    }
    assert forall|i: int, j: int|
        #![trigger order[i], order[j]]
        0 <= i < j < order.len() implies before(order[i], order[j]) by {
        assert(place(forest, order[i]) == Some(places[i]));
        assert(place(forest, order[j]) == Some(places[j]));
    }
    assert forall|x: Hash256|
        diff.deletions.to_set().contains(x) <==> #[trigger] order.contains(x) by {}
    arrangement_is(order, diff.deletions.to_set(), before);
    assert(diff.turn(forest) == order);
    if diff.is_missing(forest) {
        let i = choose|i: int|
            0 <= i < diff.deletions.len() && !holds_leaf(forest, #[trigger] diff.deletions[i]);
        assert(diff.deletions.contains(diff.deletions[i]));
        assert(order.contains(diff.deletions[i]));
        let j = choose|j: int| 0 <= j < order.len() && order[j] == diff.deletions[i];
        assert(place(forest, order[j]) is Some);
    }
    stages_are(forest, order, stages, n as nat);
    if n < order.len() {
        stuck_is_beside(stages[n], order[n]);
        if taken_out(forest, order, (n + 1) as nat) is Err {
            taken_out_stays(forest, order, (n + 1) as nat, order.len());
        }
    }
}

} // verus!
