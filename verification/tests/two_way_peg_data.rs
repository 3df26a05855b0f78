//! Connecting and disconnecting the events of mainchain blocks.
use bitcoin::hashes::Hash as _;

use coinshift_state::accumulator::{Accumulator, AccumulatorDiff, UtreexoError};
use coinshift_state::bundle::{
    collect_withdrawal_bundle, draft_withdrawal_bundle, max_bundle_outputs, BundleDraft,
};
use coinshift_state::coinshift::L1Match;
use coinshift_state::error::{Error, Fault, Halt, Rejection};
use coinshift_state::ids::{
    Address, BlockHash, Hash256, M6id, MainBlockHash, MainTxid, SwapId, Txid,
};
use coinshift_state::mainchain::{
    BlockEvent, Deposit, MainAddress, TwoWayPegData, TxOut, WithdrawalBundleEvent,
};
use coinshift_state::peg_events::{
    connect_withdrawal_bundle_confirmed, connect_withdrawal_bundle_event,
    connect_withdrawal_bundle_failed, connect_withdrawal_bundle_submitted,
    disconnect_withdrawal_bundle_confirmed, disconnect_withdrawal_bundle_event,
    disconnect_withdrawal_bundle_failed, disconnect_withdrawal_bundle_submitted,
};
use coinshift_state::rollback::RollBack;
use coinshift_state::state::State;
use coinshift_state::table::Table;
use coinshift_state::two_way_peg_data::{
    connect, connect_event, disconnect, disconnect_event, finish_run, note_run, run_events,
    stage_connect, stage_disconnect, stage_run, try_connect, try_disconnect,
};
use coinshift_state::types::{InPoint, OutPoint, Output, OutputContent, SpentOutput};
use coinshift_state::withdrawal::{
    WithdrawalBundle, WithdrawalBundleInfo, WithdrawalBundleStatus,
};

fn hash256(bytes: [u8; 32]) -> Hash256 {
    let mut hi = [0u8; 16];
    let mut lo = [0u8; 16];
    hi.copy_from_slice(&bytes[..16]);
    lo.copy_from_slice(&bytes[16..]);
    Hash256 { hi: u128::from_be_bytes(hi), lo: u128::from_be_bytes(lo) }
}

fn numbered(i: u32) -> Hash256 {
    let mut b = [0u8; 32];
    b[..4].copy_from_slice(&i.to_le_bytes());
    hash256(b)
}

fn address(byte: u8) -> Address {
    Address { hi: u32::from_be_bytes([byte; 4]), lo: u128::from_be_bytes([byte; 16]) }
}

fn m6id(byte: u8) -> M6id {
    M6id(hash256([byte; 32]))
}

fn main_block(byte: u8) -> MainBlockHash {
    MainBlockHash(hash256([byte; 32]))
}

fn point(i: u32) -> OutPoint {
    OutPoint::Regular { txid: Txid(numbered(i)), vout: 0 }
}

fn unique_main_address(i: u32) -> MainAddress {
    let mut h = [0u8; 20];
    h[..4].copy_from_slice(&i.to_le_bytes());
    let spk = bitcoin::ScriptBuf::new_p2wpkh(&bitcoin::WPubkeyHash::from_byte_array(h));
    let text = bitcoin::Address::from_script(&spk, bitcoin::Network::Regtest)
        .unwrap()
        .to_string();
    MainAddress::new(&text.into_bytes()).unwrap()
}

fn coins(i: u32, value: u64) -> Output {
    Output { address: address(7), content: OutputContent::Value(value), leaf: numbered(1_000_000 + i) }
}

fn withdrawal(i: u32, to: u32, value: u64, main_fee: u64) -> Output {
    Output {
        address: address(0),
        content: OutputContent::Withdrawal {
            value,
            main_fee,
            main_address: unique_main_address(to),
        },
        leaf: numbered(2_000_000 + i),
    }
}

/// Builds a transaction with the outputs of a draft, after two of its own, and
/// refuses it if it is too heavy.
fn build(draft: &BundleDraft) -> Result<M6id, Rejection> {
    let mut output = vec![
        bitcoin::TxOut {
            value: bitcoin::Amount::ZERO,
            script_pubkey: bitcoin::ScriptBuf::new_op_return(draft.fee.to_be_bytes()),
        },
        bitcoin::TxOut {
            value: bitcoin::Amount::ZERO,
            script_pubkey: bitcoin::ScriptBuf::new_op_return([draft.block_height as u8; 32]),
        },
    ];
    output.extend(draft.outputs.iter().map(|o| bitcoin::TxOut {
        value: bitcoin::Amount::from_sat(o.value),
        script_pubkey: bitcoin::ScriptBuf::from_bytes(o.script_pubkey.clone()),
    }));
    let tx = bitcoin::Transaction {
        version: bitcoin::transaction::Version::TWO,
        lock_time: bitcoin::absolute::LockTime::ZERO,
        input: vec![],
        output,
    };
    if tx.weight().to_wu() > bitcoin::policy::MAX_STANDARD_TX_WEIGHT as u64 {
        return Err(Rejection(1));
    }
    Ok(M6id(hash256(tx.compute_txid().to_byte_array())))
}

fn no_lookups() -> Table<SwapId, Vec<L1Match>> {
    Table::new()
}

fn seeded(utxos: &[(OutPoint, Output)]) -> State {
    let mut state = State::new(5);
    let mut diff = AccumulatorDiff::new();
    for (outpoint, output) in utxos {
        diff.insert(output.leaf);
        state.utxos.put(*outpoint, output.clone());
    }
    state.accumulator.apply_diff(&diff).unwrap();
    state
}

fn at_height(mut state: State, height: u32) -> State {
    state.tip = Some(BlockHash(numbered(height)));
    state.height = Some(height);
    state
}

fn bundle_of(id: M6id, spend: Vec<(OutPoint, Output)>) -> WithdrawalBundle {
    let outputs = vec![TxOut {
        value: 49_000,
        script_pubkey: unique_main_address(9).script_pubkey().clone(),
    }];
    WithdrawalBundle { m6id: id, fee: 1_000, spend_utxos: spend, outputs }
}

fn event(id: M6id, status: WithdrawalBundleStatus) -> BlockEvent {
    BlockEvent::WithdrawalBundle(WithdrawalBundleEvent { m6id: id, status })
}

fn deposit(vout: u32, value: u64) -> BlockEvent {
    BlockEvent::Deposit(Deposit {
        txid: MainTxid(hash256([0x3d; 32])),
        vout,
        output: coins(500 + vout, value),
    })
}

fn deposit_point(vout: u32) -> OutPoint {
    OutPoint::Deposit { main_txid: MainTxid(hash256([0x3d; 32])), vout }
}

#[test]
fn off_by_one_allows_max_plus_one_then_errors_bundle_too_heavy() {
    const BUNDLE_0_WEIGHT: u64 = 504;
    const OUTPUT_WEIGHT: u64 = 128;
    const MAX_BUNDLE_OUTPUTS: usize =
        ((bitcoin::policy::MAX_STANDARD_TX_WEIGHT as u64 - BUNDLE_0_WEIGHT) / OUTPUT_WEIGHT)
            as usize;
    assert_eq!(max_bundle_outputs(), MAX_BUNDLE_OUTPUTS);

    let total = MAX_BUNDLE_OUTPUTS + 1;
    let mut state = State::new(5);
    for i in 0..total as u32 {
        state.utxos.put(point(i), withdrawal(i, i, 10_000, 1_000));
    }
    let bundle = collect_withdrawal_bundle(&state, 1, &build)
        .expect("bundle build should succeed for small outputs")
        .expect("eligible withdrawals should produce Some(bundle)");
    let withdrawal_outputs = bundle.outputs.len();
    assert_eq!(
        withdrawal_outputs,
        MAX_BUNDLE_OUTPUTS + 1,
        "off-by-one: collector should have pushed exactly MAX_BUNDLE_OUTPUTS+1 outputs"
    );
    assert!(
        withdrawal_outputs > MAX_BUNDLE_OUTPUTS,
        "collector exceeded the documented MAX_BUNDLE_OUTPUTS cap"
    );
    assert_eq!(bundle.spend_utxos.len(), total);
    assert_eq!(bundle.fee, 1_000 * total as u64);
}

#[test]
fn no_more_than_one_withdrawal_over_the_room_is_taken() {
    let total = max_bundle_outputs() + 3;
    let mut state = State::new(5);
    for i in 0..total as u32 {
        // The last two offer least, and are left out.
        let fee = if i >= total as u32 - 2 { 1 } else { 1_000 };
        state.utxos.put(point(i), withdrawal(i, i, 10_000, fee));
    }
    let draft = draft_withdrawal_bundle(&state, 1).unwrap().unwrap();
    assert_eq!(draft.outputs.len(), max_bundle_outputs() + 1);
    assert_eq!(draft.fee, 1_000 * (max_bundle_outputs() as u64 + 1));
    assert!(draft.spend_utxos.iter().all(|(p, _)| *p != point(total as u32 - 1)));
}

#[test]
fn successful_delete_is_misreported_as_no_utxo() {
    let block_height = 5u32;
    let spent_outpoint = OutPoint::Regular { txid: Txid(hash256([0x42; 32])), vout: 0 };
    let spent_output = coins(0, 50_000);
    let id = m6id(0x11);
    let mut state = State::new(5);
    state.utxos.put(spent_outpoint, spent_output.clone());
    let mut status = RollBack::new(WithdrawalBundleStatus::Submitted, block_height);
    status.push(WithdrawalBundleStatus::Failed, block_height).unwrap();
    state.withdrawal_bundles.put(
        id,
        (
            WithdrawalBundleInfo::Known(bundle_of(id, vec![(spent_outpoint, spent_output)])),
            status,
        ),
    );
    state.latest_failed_withdrawal_bundle = Some(RollBack::new(id, block_height));

    let mut diff = AccumulatorDiff::new();
    let result = disconnect_withdrawal_bundle_failed(&mut state, block_height, &mut diff, id);
    assert_eq!(
        result,
        Err(Fault::Error(Error::NoUtxo { outpoint: spent_outpoint })),
        "inverted delete check should report NoUtxo on a successful delete"
    );
    assert!(state.utxos.try_get(&spent_outpoint).is_none());
    assert!(state.stxos.try_get(&spent_outpoint).is_some());
}

#[test]
fn disconnect_deletes_wrong_db_corrupting_deposit_checkpoint() {
    let block_height = 10u32;
    let seq_idx = 0u32;
    let event_block_hash = main_block(0x7c);
    let unrelated_deposit_hash = main_block(0xdd);
    let id = m6id(0x6c);
    let mut state = State::new(5);
    state.height = Some(block_height);
    state
        .withdrawal_bundle_event_blocks
        .put(seq_idx, (event_block_hash, block_height - 1));
    state.deposit_blocks.put(seq_idx, (unrelated_deposit_hash, block_height - 1));
    state.withdrawal_bundles.put(
        id,
        (
            WithdrawalBundleInfo::Unknown,
            RollBack::new(WithdrawalBundleStatus::Submitted, block_height),
        ),
    );
    let data = TwoWayPegData {
        block_info: vec![(event_block_hash, vec![event(id, WithdrawalBundleStatus::Submitted)])],
    };
    assert_eq!(disconnect(&mut state, &data), Ok(()));
    assert!(
        state.deposit_blocks.try_get(&seq_idx).is_none(),
        "the unrelated deposit_blocks[0] checkpoint should have been wrongly deleted"
    );
    assert!(
        state.withdrawal_bundle_event_blocks.try_get(&seq_idx).is_some(),
        "the withdrawal_bundle_event_blocks[0] checkpoint should have been left stale"
    );
    assert!(state.withdrawal_bundles.try_get(&id).is_none());
}

#[test]
fn withdrawals_are_put_together_by_address_and_ranked() {
    let mut state = State::new(5);
    state.utxos.put(point(4), withdrawal(4, 1, 100, 5));
    state.utxos.put(point(1), withdrawal(1, 2, 300, 7));
    state.utxos.put(point(2), withdrawal(2, 1, 50, 4));
    state.utxos.put(point(3), coins(3, 9));
    state.utxos.put(point(5), withdrawal(5, 3, 400, 7));
    let draft = draft_withdrawal_bundle(&state, 12).unwrap().unwrap();
    assert_eq!(draft.block_height, 12);
    assert_eq!(draft.fee, 23);
    // The highest fee comes first; of equal fees, the higher value.
    let values: Vec<u64> = draft.outputs.iter().map(|o| o.value).collect();
    assert_eq!(values, vec![150, 400, 300]);
    let scripts: Vec<Vec<u8>> = draft.outputs.iter().map(|o| o.script_pubkey.clone()).collect();
    assert_eq!(
        scripts,
        vec![
            unique_main_address(1).script_pubkey().clone(),
            unique_main_address(3).script_pubkey().clone(),
            unique_main_address(2).script_pubkey().clone(),
        ]
    );
    // Spent outputs come in the order of their outpoints.
    let spent: Vec<OutPoint> = draft.spend_utxos.iter().map(|(p, _)| *p).collect();
    assert_eq!(spent, vec![point(1), point(2), point(4), point(5)]);
    // What is paid out is what is spent.
    let held: u64 = draft.spend_utxos.iter().map(|(_, o)| o.content.get_value()).sum();
    assert_eq!(values.iter().sum::<u64>(), held);
}

#[test]
fn equal_withdrawals_are_ranked_by_address() {
    let mut state = State::new(5);
    for i in 0..4 {
        state.utxos.put(point(i), withdrawal(i, i, 100, 5));
    }
    let draft = draft_withdrawal_bundle(&state, 1).unwrap().unwrap();
    let mut addresses: Vec<(Vec<u8>, Vec<u8>)> = (0..4)
        .map(|i| {
            let address = unique_main_address(i);
            (address.text().clone(), address.script_pubkey().clone())
        })
        .collect();
    addresses.sort();
    addresses.reverse();
    let expected: Vec<Vec<u8>> = addresses.into_iter().map(|(_, script)| script).collect();
    let scripts: Vec<Vec<u8>> = draft.outputs.iter().map(|o| o.script_pubkey.clone()).collect();
    assert_eq!(scripts, expected);
}

#[test]
fn withdrawals_that_cannot_be_counted_are_an_error() {
    let mut state = State::new(5);
    state.utxos.put(point(1), withdrawal(1, 2, u64::MAX, 7));
    state.utxos.put(point(2), withdrawal(2, 2, 1, 7));
    assert_eq!(
        draft_withdrawal_bundle(&state, 1).err(),
        Some(Fault::Error(Error::AmountOverflow))
    );
    let mut state = State::new(5);
    state.utxos.put(point(1), withdrawal(1, 1, 1, u64::MAX));
    state.utxos.put(point(2), withdrawal(2, 2, 1, 7));
    assert_eq!(draft_withdrawal_bundle(&state, 1).err(), Some(Fault::Halt(Halt::OutOfRange)));
}

#[test]
fn without_withdrawals_there_is_no_bundle() {
    let mut state = State::new(5);
    state.utxos.put(point(1), coins(1, 5));
    assert!(collect_withdrawal_bundle(&state, 1, &build).unwrap().is_none());
}

#[test]
fn a_bundle_that_is_too_heavy_is_an_error() {
    let mut state = at_height(seeded(&[(point(1), withdrawal(1, 1, 100, 5))]), 20);
    let refuse = |_: &BundleDraft| -> Result<M6id, Rejection> { Err(Rejection(1)) };
    assert_eq!(
        collect_withdrawal_bundle(&state, 1, &refuse).err(),
        Some(Fault::Error(Error::WithdrawalBundle(Rejection(1))))
    );
    let data = TwoWayPegData { block_info: vec![] };
    assert_eq!(
        connect(&mut state, &data, &no_lookups(), &refuse),
        Err(Error::WithdrawalBundle(Rejection(1)))
    );
    assert!(state.pending_withdrawal_bundle.is_none());
}

#[test]
fn connecting_takes_deposits_and_makes_a_bundle() {
    let mut state = at_height(seeded(&[(point(1), withdrawal(1, 1, 100, 5))]), 20);
    let roots = state.accumulator.get_roots();
    let data = TwoWayPegData {
        block_info: vec![
            (main_block(1), vec![deposit(0, 70), deposit(1, 80)]),
            (main_block(2), vec![]),
        ],
    };
    assert_eq!(connect(&mut state, &data, &no_lookups(), &build), Ok(()));
    assert_eq!(state.utxos.try_get(&deposit_point(1)).unwrap().content.get_value(), 80);
    assert_eq!(state.utxos.keys().len(), 3);
    assert_eq!(*state.deposit_blocks.try_get(&0).unwrap(), (main_block(1), 20));
    assert_eq!(state.withdrawal_bundle_event_blocks.keys().len(), 0);
    let (bundle, made_at) = state.pending_withdrawal_bundle.as_ref().unwrap();
    assert_eq!(*made_at, 20);
    assert_eq!(bundle.fee, 5);
    let draft = draft_withdrawal_bundle(&state, 20).unwrap().unwrap();
    assert_eq!(bundle.m6id, build(&draft).unwrap());
    assert_ne!(state.accumulator.get_roots(), roots);
    // The next block is numbered on, and the pending bundle stays.
    state.height = Some(21);
    let data = TwoWayPegData { block_info: vec![(main_block(3), vec![deposit(2, 90)])] };
    assert_eq!(connect(&mut state, &data, &no_lookups(), &build), Ok(()));
    assert_eq!(*state.deposit_blocks.try_get(&1).unwrap(), (main_block(3), 21));
    assert_eq!(state.pending_withdrawal_bundle.as_ref().unwrap().1, 20);
}

#[test]
fn no_bundle_is_made_soon_after_a_failure() {
    let data = TwoWayPegData { block_info: vec![] };
    for (height, made) in [(14u32, false), (15, true)] {
        let mut state = at_height(seeded(&[(point(1), withdrawal(1, 1, 100, 5))]), height);
        state.latest_failed_withdrawal_bundle = Some(RollBack::new(m6id(1), 10));
        assert_eq!(connect(&mut state, &data, &no_lookups(), &build), Ok(()));
        assert_eq!(state.pending_withdrawal_bundle.is_some(), made);
    }
    // A failure from above the height cannot be.
    let mut state = at_height(seeded(&[(point(1), withdrawal(1, 1, 100, 5))]), 9);
    state.latest_failed_withdrawal_bundle = Some(RollBack::new(m6id(1), 10));
    assert_eq!(
        try_connect(&mut state, &data, &no_lookups(), &build),
        Err(Fault::Halt(Halt::OutOfRange))
    );
}

#[test]
fn connecting_needs_a_tip() {
    let data = TwoWayPegData { block_info: vec![(main_block(1), vec![deposit(0, 70)])] };
    let mut state = State::new(5);
    assert_eq!(connect(&mut state, &data, &no_lookups(), &build), Err(Error::NoTip));
    assert_eq!(state.utxos.keys().len(), 0);
    state.height = Some(3);
    assert_eq!(connect(&mut state, &data, &no_lookups(), &build), Err(Error::NoTip));
    assert_eq!(state.utxos.keys().len(), 1);
    assert_eq!(try_disconnect(&mut State::new(5), &data), Err(Fault::Halt(Halt::NoHeight)));
}

#[test]
fn a_deposit_is_taken_back() {
    let mut state = at_height(State::new(5), 8);
    let data = TwoWayPegData { block_info: vec![(main_block(1), vec![deposit(0, 70)])] };
    connect(&mut state, &data, &no_lookups(), &build).unwrap();
    assert_eq!(state.utxos.keys().len(), 1);
    state.height = Some(9);
    assert_eq!(disconnect(&mut state, &data), Ok(()));
    assert_eq!(state.utxos.keys().len(), 0);
    assert_eq!(state.deposit_blocks.keys().len(), 0);
}

#[test]
fn deposits_are_taken_back_one_height_on() {
    let data = TwoWayPegData { block_info: vec![(main_block(1), vec![deposit(0, 70)])] };
    let mut state = at_height(State::new(5), 8);
    connect(&mut state, &data, &no_lookups(), &build).unwrap();
    assert_eq!(
        try_disconnect(&mut state, &data),
        Err(Fault::Halt(Halt::LatestDepositBlock))
    );
    // Nor where nothing was written down, or nothing is there.
    let mut state = at_height(State::new(5), 8);
    assert_eq!(
        disconnect(&mut state, &data),
        Err(Error::NoUtxo { outpoint: deposit_point(0) })
    );
    state.utxos.put(deposit_point(0), coins(500, 70));
    assert_eq!(disconnect(&mut state, &data), Err(Error::NoDepositBlock));
}

#[test]
fn event_blocks_must_be_known_when_taken_back() {
    let id = m6id(0x6c);
    let data = TwoWayPegData {
        block_info: vec![(main_block(1), vec![event(id, WithdrawalBundleStatus::Submitted)])],
    };
    let mut state = at_height(State::new(5), 8);
    connect(&mut state, &data, &no_lookups(), &build).unwrap();
    assert_eq!(*state.withdrawal_bundle_event_blocks.try_get(&0).unwrap(), (main_block(1), 8));
    assert_eq!(try_disconnect(&mut state, &data), Err(Fault::Halt(Halt::LatestEventBlock)));
    let mut state = at_height(State::new(5), 8);
    connect(&mut state, &data, &no_lookups(), &build).unwrap();
    state.withdrawal_bundle_event_blocks.put(0, (main_block(1), 7));
    // There is no block of deposits of this number to forget.
    assert_eq!(
        disconnect(&mut state, &data),
        Err(Error::NoWithdrawalBundleEventBlock)
    );
    let mut state = at_height(State::new(5), 8);
    connect(&mut state, &data, &no_lookups(), &build).unwrap();
    state.withdrawal_bundle_event_blocks.clear();
    assert_eq!(
        disconnect(&mut state, &data),
        Err(Error::NoWithdrawalBundleEventBlock)
    );
}

#[test]
fn a_pending_bundle_from_the_block_before_is_forgotten() {
    let data = TwoWayPegData { block_info: vec![] };
    for (made_at, height, forgotten) in [(7u32, 8u32, true), (6, 8, false), (4, 5, false)] {
        let mut state = at_height(State::new(5), height);
        state.pending_withdrawal_bundle = Some((bundle_of(m6id(1), vec![]), made_at));
        assert_eq!(disconnect(&mut state, &data), Ok(()));
        assert_eq!(state.pending_withdrawal_bundle.is_none(), forgotten);
    }
}

/// A state with a pending bundle that was made at height 19 and spends two
/// outputs.
fn with_pending(id: M6id) -> State {
    let spend = vec![(point(1), withdrawal(1, 1, 100, 5)), (point(2), withdrawal(2, 1, 60, 5))];
    let mut state = at_height(seeded(&spend), 20);
    state.pending_withdrawal_bundle = Some((bundle_of(id, spend), 19));
    state
}

fn latest(state: &State, id: M6id) -> (WithdrawalBundleStatus, u32) {
    let stamped = state.withdrawal_bundles.try_get(&id).unwrap().1.latest();
    (stamped.value, stamped.height)
}

#[test]
fn a_submitted_bundle_spends_its_outputs_and_can_be_taken_back() {
    let id = m6id(3);
    let mut state = with_pending(id);
    let mut diff = AccumulatorDiff::new();
    assert_eq!(connect_withdrawal_bundle_submitted(&mut state, 20, &mut diff, id), Ok(()));
    assert!(state.pending_withdrawal_bundle.is_none());
    assert_eq!(state.utxos.keys().len(), 0);
    assert_eq!(
        state.stxos.try_get(&point(2)).unwrap().inpoint,
        InPoint::Withdrawal { m6id: id }
    );
    assert_eq!(latest(&state, id), (WithdrawalBundleStatus::Submitted, 20));
    assert!(state.accumulator.with_diff(&diff).is_ok());
    // Once more changes nothing.
    assert_eq!(connect_withdrawal_bundle_submitted(&mut state, 20, &mut diff, id), Ok(()));
    assert_eq!(state.stxos.keys().len(), 2);
    // And back.
    assert_eq!(disconnect_withdrawal_bundle_submitted(&mut state, 20, &mut diff, id), Ok(()));
    assert_eq!(state.utxos.keys(), vec![point(1), point(2)]);
    assert_eq!(state.stxos.keys().len(), 0);
    assert_eq!(state.pending_withdrawal_bundle.as_ref().unwrap().1, 19);
    assert!(state.withdrawal_bundles.try_get(&id).is_none());
    // Back once more changes nothing.
    assert_eq!(disconnect_withdrawal_bundle_submitted(&mut state, 20, &mut diff, id), Ok(()));
    // The change to the accumulator cancelled out.
    let same = state.accumulator.with_diff(&diff).map_err(|_| ()).unwrap();
    assert_eq!(same.bytes(), state.accumulator.bytes());
}

#[test]
fn a_bundle_is_submitted_the_block_after_it_was_made() {
    let id = m6id(3);
    let mut diff = AccumulatorDiff::new();
    for height in [0u32, 19, 21] {
        assert_eq!(
            connect_withdrawal_bundle_submitted(&mut with_pending(id), height, &mut diff, id),
            Err(Fault::Halt(Halt::PendingBundleHeight))
        );
    }
}

#[test]
fn a_bundle_that_was_not_made_here_is_written_down_as_unknown() {
    let id = m6id(4);
    let mut state = with_pending(m6id(3));
    let mut diff = AccumulatorDiff::new();
    assert_eq!(connect_withdrawal_bundle_submitted(&mut state, 20, &mut diff, id), Ok(()));
    assert!(!state.withdrawal_bundles.try_get(&id).unwrap().0.is_known());
    assert!(state.pending_withdrawal_bundle.is_some());
    assert_eq!(disconnect_withdrawal_bundle_submitted(&mut state, 20, &mut diff, id), Ok(()));
    assert!(state.withdrawal_bundles.try_get(&id).is_none());
    assert_eq!(
        disconnect_withdrawal_bundle_submitted(&mut state, 20, &mut diff, id),
        Err(Fault::Error(Error::UnknownWithdrawalBundle { m6id: id }))
    );
}

#[test]
fn a_first_status_must_be_that_a_bundle_was_submitted() {
    let id = m6id(4);
    let mut state = at_height(State::new(5), 20);
    state.withdrawal_bundles.put(
        id,
        (WithdrawalBundleInfo::Unknown, RollBack::new(WithdrawalBundleStatus::Failed, 3)),
    );
    let mut diff = AccumulatorDiff::new();
    assert_eq!(
        connect_withdrawal_bundle_submitted(&mut state, 20, &mut diff, id),
        Err(Fault::Halt(Halt::BundleStatus))
    );
    assert_eq!(
        connect_withdrawal_bundle_confirmed(&mut state, 20, &mut diff, main_block(1), id),
        Err(Fault::Halt(Halt::BundleStatus))
    );
    assert_eq!(
        disconnect_withdrawal_bundle_submitted(&mut state, 20, &mut diff, id),
        Err(Fault::Halt(Halt::BundleStatus))
    );
    assert_eq!(
        disconnect_withdrawal_bundle_confirmed(&mut state, 3, &mut diff, id),
        Err(Fault::Halt(Halt::BundleStatus))
    );
    assert_eq!(
        disconnect_withdrawal_bundle_failed(&mut state, 3, &mut diff, id),
        Err(Fault::Halt(Halt::BundleStatus))
    );
    assert_eq!(
        disconnect_withdrawal_bundle_failed(&mut state, 4, &mut diff, id),
        Err(Fault::Halt(Halt::BundleStatusHeight))
    );
}

#[test]
fn a_confirmed_bundle_can_be_taken_back() {
    let id = m6id(3);
    let mut state = with_pending(id);
    let mut diff = AccumulatorDiff::new();
    connect_withdrawal_bundle_submitted(&mut state, 20, &mut diff, id).unwrap();
    let confirm = WithdrawalBundleEvent { m6id: id, status: WithdrawalBundleStatus::Confirmed };
    for _ in 0..2 {
        assert_eq!(
            connect_withdrawal_bundle_event(&mut state, 22, &mut diff, main_block(1), &confirm),
            Ok(())
        );
        assert_eq!(latest(&state, id), (WithdrawalBundleStatus::Confirmed, 22));
    }
    assert_eq!(
        disconnect_withdrawal_bundle_event(&mut state, 21, &mut diff, &confirm),
        Err(Fault::Halt(Halt::BundleStatusHeight))
    );
    for _ in 0..2 {
        assert_eq!(
            disconnect_withdrawal_bundle_event(&mut state, 22, &mut diff, &confirm),
            Ok(())
        );
        assert_eq!(latest(&state, id), (WithdrawalBundleStatus::Submitted, 20));
    }
}

#[test]
fn statuses_come_in_the_order_of_heights() {
    let id = m6id(3);
    let mut state = with_pending(id);
    let mut diff = AccumulatorDiff::new();
    connect_withdrawal_bundle_submitted(&mut state, 20, &mut diff, id).unwrap();
    assert_eq!(
        connect_withdrawal_bundle_confirmed(&mut state, 19, &mut diff, main_block(1), id),
        Err(Fault::Halt(Halt::BundleStatusOrder))
    );
    assert_eq!(
        connect_withdrawal_bundle_failed(&mut state, 19, &mut diff, id),
        Err(Fault::Halt(Halt::BundleStatusOrder))
    );
    state.latest_failed_withdrawal_bundle = Some(RollBack::new(m6id(9), 30));
    assert_eq!(
        connect_withdrawal_bundle_failed(&mut state, 20, &mut diff, id),
        Err(Fault::Halt(Halt::FailureOrder))
    );
}

#[test]
fn an_unknown_bundle_is_confirmed_at_height_zero_only() {
    let id = m6id(4);
    let spend = [(point(1), coins(1, 10)), (point(2), coins(2, 20))];
    let mut state = seeded(&spend);
    let mut diff = AccumulatorDiff::new();
    connect_withdrawal_bundle_submitted(&mut state, 0, &mut diff, id).unwrap();
    assert_eq!(
        connect_withdrawal_bundle_confirmed(&mut state, 1, &mut diff, main_block(6), id),
        Err(Fault::Error(Error::UnknownWithdrawalBundleConfirmed {
            event_block_hash: main_block(6),
            m6id: id,
        }))
    );
    assert_eq!(
        connect_withdrawal_bundle_confirmed(&mut state, 0, &mut diff, main_block(6), id),
        Ok(())
    );
    assert_eq!(state.utxos.keys().len(), 0);
    assert_eq!(state.stxos.keys(), vec![point(1), point(2)]);
    let emptied = state.accumulator.with_diff(&diff).map_err(|_| ()).unwrap();
    assert!(emptied.get_roots().iter().all(|r| *r == coinshift_state::ids::NodeHash::Empty));
    assert_eq!(disconnect_withdrawal_bundle_confirmed(&mut state, 0, &mut diff, id), Ok(()));
    assert_eq!(state.utxos.keys(), vec![point(1), point(2)]);
    assert_eq!(state.utxos.try_get(&point(2)).unwrap().content.get_value(), 20);
    assert_eq!(state.stxos.keys().len(), 0);
    assert!(matches!(
        state.withdrawal_bundles.try_get(&id).unwrap().0,
        WithdrawalBundleInfo::Unknown
    ));
}

#[test]
fn what_an_unknown_bundle_took_must_be_there_to_give_back() {
    let id = m6id(4);
    let mut state = seeded(&[(point(1), coins(1, 10)), (point(2), coins(2, 20))]);
    let mut diff = AccumulatorDiff::new();
    connect_withdrawal_bundle_submitted(&mut state, 0, &mut diff, id).unwrap();
    connect_withdrawal_bundle_confirmed(&mut state, 0, &mut diff, main_block(6), id).unwrap();
    state.stxos.delete(&point(2));
    assert_eq!(
        disconnect_withdrawal_bundle_confirmed(&mut state, 0, &mut diff, id),
        Err(Fault::Error(Error::NoStxo { outpoint: point(2) }))
    );
    // The output was put back all the same.
    assert_eq!(state.utxos.keys(), vec![point(1), point(2)]);
    assert_eq!(latest(&state, id).0, WithdrawalBundleStatus::Confirmed);
}

#[test]
fn what_a_submitted_bundle_spent_must_be_there_to_give_back() {
    let id = m6id(3);
    let mut state = with_pending(id);
    let mut diff = AccumulatorDiff::new();
    connect_withdrawal_bundle_submitted(&mut state, 20, &mut diff, id).unwrap();
    assert_eq!(
        disconnect_withdrawal_bundle_submitted(&mut state, 21, &mut diff, id),
        Err(Fault::Halt(Halt::BundleStatusHeight))
    );
    state.stxos.delete(&point(1));
    assert_eq!(
        disconnect_withdrawal_bundle_submitted(&mut state, 20, &mut diff, id),
        Err(Fault::Error(Error::NoStxo { outpoint: point(1) }))
    );
    assert_eq!(state.utxos.keys(), vec![point(2)]);
    assert!(state.withdrawal_bundles.try_get(&id).is_some());
}

#[test]
fn a_bundle_submitted_at_height_zero_has_no_block_before_it() {
    let id = m6id(3);
    let mut state = State::new(5);
    state.withdrawal_bundles.put(
        id,
        (
            WithdrawalBundleInfo::Known(bundle_of(id, vec![])),
            RollBack::new(WithdrawalBundleStatus::Submitted, 0),
        ),
    );
    let mut diff = AccumulatorDiff::new();
    assert_eq!(
        disconnect_withdrawal_bundle_submitted(&mut state, 0, &mut diff, id),
        Err(Fault::Halt(Halt::OutOfRange))
    );
}

#[test]
fn a_failed_bundle_gives_its_outputs_back() {
    let id = m6id(3);
    let mut state = with_pending(id);
    let mut diff = AccumulatorDiff::new();
    connect_withdrawal_bundle_submitted(&mut state, 20, &mut diff, id).unwrap();
    let fail = WithdrawalBundleEvent { m6id: id, status: WithdrawalBundleStatus::Failed };
    for _ in 0..2 {
        assert_eq!(
            connect_withdrawal_bundle_event(&mut state, 22, &mut diff, main_block(1), &fail),
            Ok(())
        );
        assert_eq!(state.utxos.keys(), vec![point(1), point(2)]);
        assert_eq!(state.stxos.keys().len(), 0);
        assert_eq!(latest(&state, id), (WithdrawalBundleStatus::Failed, 22));
    }
    let last = state.latest_failed_withdrawal_bundle.as_ref().unwrap().latest();
    assert_eq!((last.value, last.height), (id, 22));
    // Taking this back trips over the first output that is there.
    assert_eq!(
        disconnect_withdrawal_bundle_event(&mut state, 22, &mut diff, &fail),
        Err(Fault::Error(Error::NoUtxo { outpoint: point(2) }))
    );
}

#[test]
fn a_failure_without_outputs_can_be_taken_back() {
    let id = m6id(3);
    let mut state = at_height(State::new(5), 20);
    state.pending_withdrawal_bundle = Some((bundle_of(id, vec![]), 19));
    state.latest_failed_withdrawal_bundle = Some(RollBack::new(m6id(9), 11));
    let mut diff = AccumulatorDiff::new();
    connect_withdrawal_bundle_submitted(&mut state, 20, &mut diff, id).unwrap();
    connect_withdrawal_bundle_failed(&mut state, 21, &mut diff, id).unwrap();
    assert_eq!(disconnect_withdrawal_bundle_failed(&mut state, 21, &mut diff, id), Ok(()));
    assert_eq!(latest(&state, id), (WithdrawalBundleStatus::Submitted, 20));
    let last = state.latest_failed_withdrawal_bundle.as_ref().unwrap().latest();
    assert_eq!((last.value, last.height), (m6id(9), 11));
    // Without the failure written down, nothing can be taken back.
    connect_withdrawal_bundle_failed(&mut state, 21, &mut diff, id).unwrap();
    state.latest_failed_withdrawal_bundle = None;
    assert_eq!(
        disconnect_withdrawal_bundle_failed(&mut state, 21, &mut diff, id),
        Err(Fault::Halt(Halt::LatestFailure))
    );
}

#[test]
fn bundles_must_be_known_to_change() {
    let id = m6id(8);
    let mut state = at_height(State::new(5), 20);
    let mut diff = AccumulatorDiff::new();
    let unknown = Err(Fault::Error(Error::UnknownWithdrawalBundle { m6id: id }));
    assert_eq!(
        connect_withdrawal_bundle_confirmed(&mut state, 20, &mut diff, main_block(1), id),
        unknown
    );
    assert_eq!(connect_withdrawal_bundle_failed(&mut state, 20, &mut diff, id), unknown);
    assert_eq!(disconnect_withdrawal_bundle_confirmed(&mut state, 20, &mut diff, id), unknown);
    assert_eq!(disconnect_withdrawal_bundle_failed(&mut state, 20, &mut diff, id), unknown);
}

#[test]
fn events_run_until_one_fails() {
    let id = m6id(8);
    let mut state = at_height(State::new(5), 20);
    let data = TwoWayPegData {
        block_info: vec![
            (main_block(1), vec![deposit(0, 70), event(id, WithdrawalBundleStatus::Failed)]),
            (main_block(2), vec![deposit(1, 80)]),
        ],
    };
    assert_eq!(
        connect(&mut state, &data, &no_lookups(), &build),
        Err(Error::UnknownWithdrawalBundle { m6id: id })
    );
    assert_eq!(state.utxos.keys(), vec![deposit_point(0)]);
    assert_eq!(state.deposit_blocks.keys().len(), 0);
}

#[test]
fn a_number_of_a_block_runs_out() {
    let mut state = at_height(State::new(5), 20);
    state.deposit_blocks.put(u32::MAX, (main_block(9), 1));
    let data = TwoWayPegData { block_info: vec![(main_block(1), vec![deposit(0, 70)])] };
    assert_eq!(
        try_connect(&mut state, &data, &no_lookups(), &build),
        Err(Fault::Halt(Halt::OutOfRange))
    );
}

#[test]
fn a_change_that_the_accumulator_does_not_take_is_an_error() {
    // The output is unspent, but the accumulator does not hold it.
    let id = m6id(3);
    let mut state = with_pending(id);
    state.accumulator = Accumulator::new();
    let data = TwoWayPegData {
        block_info: vec![(main_block(1), vec![event(id, WithdrawalBundleStatus::Submitted)])],
    };
    assert_eq!(
        connect(&mut state, &data, &no_lookups(), &build),
        Err(Error::Utreexo(UtreexoError))
    );
}

#[test]
fn events_are_connected_in_stages() {
    let mut state = at_height(State::new(5), 20);
    let before = state.accumulator.get_roots();
    let data = TwoWayPegData { block_info: vec![(main_block(1), vec![deposit(0, 70)])] };
    let mut diff = AccumulatorDiff::new();
    assert_eq!(stage_connect(&mut state, &mut diff, &data, &no_lookups(), &build), Ok(()));
    assert_eq!(state.utxos.keys(), vec![deposit_point(0)]);
    assert_eq!(state.accumulator.get_roots(), before);
    let changed = state.accumulator.with_diff(&diff);
    assert_eq!(state.take_change(changed), Ok(()));
    assert!(state.accumulator.get_roots() != before);

    let mut later = at_height(state, 21);
    let mut diff = AccumulatorDiff::new();
    assert_eq!(stage_disconnect(&mut later, &mut diff, &data), Ok(()));
    assert_eq!(later.utxos.keys().len(), 0);
    assert_eq!(later.deposit_blocks.keys().len(), 0);
    let changed = later.accumulator.with_diff(&diff);
    assert_eq!(later.take_change(changed), Ok(()));
}

#[test]
fn events_are_connected_before_swaps_are_looked_at() {
    let data = TwoWayPegData { block_info: vec![(main_block(1), vec![deposit(0, 70)])] };
    // Without a tip there is nothing to go on with.
    let mut diff = AccumulatorDiff::new();
    let no_tip = Fault::Error(Error::NoTip);
    assert_eq!(run_events(&mut State::new(5), &mut diff, &data).err(), Some(no_tip));

    let start = || at_height(seeded(&[(point(1), withdrawal(1, 1, 100, 5))]), 20);
    let mut state = start();
    let mut diff = AccumulatorDiff::new();
    let run = run_events(&mut state, &mut diff, &data).map_err(|_| ()).unwrap();
    assert_eq!(run.block_height, 20);
    assert_eq!(run.block_hash, BlockHash(numbered(20)));
    assert_eq!(run.deposit_block, Some(main_block(1)));
    assert_eq!(run.bundle_event_block, None);
    assert_eq!(state.utxos.keys().len(), 2);
    assert_eq!(state.deposit_blocks.keys().len(), 0);
    assert_eq!(finish_run(&mut state, &diff, &run, &no_lookups(), &build), Ok(()));
    let mut at_once = start();
    assert_eq!(try_connect(&mut at_once, &data, &no_lookups(), &build), Ok(()));
    assert_eq!(state.utxos.keys(), at_once.utxos.keys());
    assert_eq!(state.deposit_blocks.try_get(&0), at_once.deposit_blocks.try_get(&0));
    assert_eq!(state.accumulator.bytes(), at_once.accumulator.bytes());
    assert_eq!(
        state.pending_withdrawal_bundle.map(|(b, height)| (b.m6id, height)),
        at_once.pending_withdrawal_bundle.map(|(b, height)| (b.m6id, height))
    );

    // In smaller steps.
    let mut state = start();
    let mut diff = AccumulatorDiff::new();
    let run = run_events(&mut state, &mut diff, &data).map_err(|_| ()).unwrap();
    assert_eq!(note_run(&mut state, &run, &no_lookups()), Ok(()));
    assert_eq!(*state.deposit_blocks.try_get(&0).unwrap(), (main_block(1), 20));
    assert!(state.pending_withdrawal_bundle.is_none());
    let mut state = start();
    let mut diff = AccumulatorDiff::new();
    let run = run_events(&mut state, &mut diff, &data).map_err(|_| ()).unwrap();
    let before = state.accumulator.bytes().clone();
    assert_eq!(stage_run(&mut state, &diff, &run, &no_lookups(), &build), Ok(()));
    assert!(state.pending_withdrawal_bundle.is_some());
    assert_eq!(*state.accumulator.bytes(), before);
}

#[test]
fn a_deposit_is_not_taken_back_where_its_leaf_is_there_twice() {
    let mut state = at_height(State::new(5), 8);
    let mut diff = AccumulatorDiff::new();
    diff.insert(coins(500, 70).leaf);
    state.accumulator.apply_diff(&diff).unwrap();
    let data = TwoWayPegData { block_info: vec![(main_block(1), vec![deposit(0, 70)])] };
    assert_eq!(try_connect(&mut state, &data, &no_lookups(), &build), Ok(()));
    state.height = Some(9);
    assert_eq!(try_disconnect(&mut state, &data), Err(Fault::Halt(Halt::EqualSiblings)));
}

#[test]
fn other_outputs_have_no_part_in_a_bundle() {
    let mut state = State::new(5);
    state.utxos.put(point(3), coins(3, 9));
    assert!(draft_withdrawal_bundle(&state, 1).unwrap().is_none());
    state.utxos.put(point(1), withdrawal(1, 2, 300, 7));
    state.utxos.put(point(2), withdrawal(2, 1, 50, 4));
    state.utxos.put(point(6), withdrawal(6, 2, 20, 1));
    let draft = draft_withdrawal_bundle(&state, 1).unwrap().unwrap();
    state.utxos.put(point(0), coins(0, 4));
    state.utxos.delete(&point(3));
    let again = draft_withdrawal_bundle(&state, 1).unwrap().unwrap();
    assert_eq!(draft.fee, 12);
    assert_eq!(again.fee, draft.fee);
    let paid = |d: &BundleDraft| -> Vec<(u64, Vec<u8>)> {
        d.outputs.iter().map(|o| (o.value, o.script_pubkey.clone())).collect()
    };
    let spent = |d: &BundleDraft| -> Vec<OutPoint> {
        d.spend_utxos.iter().map(|(p, _)| *p).collect()
    };
    assert_eq!(
        paid(&draft),
        vec![
            (320, unique_main_address(2).script_pubkey().clone()),
            (50, unique_main_address(1).script_pubkey().clone()),
        ]
    );
    assert_eq!(paid(&again), paid(&draft));
    assert_eq!(spent(&draft), vec![point(1), point(2), point(6)]);
    assert_eq!(spent(&again), spent(&draft));
}

#[test]
fn events_that_are_taken_back_leave_no_trace() {
    let id = m6id(3);
    let mut state = with_pending(id);
    let before = state.utxos.keys();
    let events = [
        deposit(0, 70),
        event(id, WithdrawalBundleStatus::Submitted),
        event(id, WithdrawalBundleStatus::Confirmed),
        deposit(1, 80),
    ];
    let mut diff = AccumulatorDiff::new();
    let (mut deposits, mut bundles) = (None, None);
    for e in &events {
        let r = connect_event(
            &mut state,
            20,
            &mut diff,
            &mut deposits,
            &mut bundles,
            main_block(1),
            e,
        );
        assert_eq!(r, Ok(()));
    }
    assert_eq!(deposits, Some(main_block(1)));
    assert_eq!(bundles, Some(main_block(1)));
    assert!(state.pending_withdrawal_bundle.is_none());
    for e in events.iter().rev() {
        let r = disconnect_event(
            &mut state,
            20,
            &mut diff,
            &mut deposits,
            &mut bundles,
            main_block(1),
            e,
        );
        assert_eq!(r, Ok(()));
    }
    assert_eq!(state.utxos.keys(), before);
    assert_eq!(state.stxos.keys().len(), 0);
    assert_eq!(state.pending_withdrawal_bundle.as_ref().unwrap().1, 19);
    assert_eq!(state.withdrawal_bundles.keys().len(), 0);
    assert_eq!(state.accumulator.with_diff(&diff).map_err(|_| ()).unwrap().bytes(), state.accumulator.bytes());
}

#[test]
fn a_submission_and_a_failure_cancel_out() {
    let id = m6id(3);
    let mut state = with_pending(id);
    state.stxos.put(
        point(7),
        SpentOutput { output: coins(7, 40), inpoint: InPoint::Withdrawal { m6id: m6id(1) } },
    );
    let before = with_pending(id);
    let mut diff = AccumulatorDiff::new();
    for status in [WithdrawalBundleStatus::Submitted, WithdrawalBundleStatus::Failed] {
        let e = WithdrawalBundleEvent { m6id: id, status };
        assert_eq!(
            connect_withdrawal_bundle_event(&mut state, 20, &mut diff, main_block(1), &e),
            Ok(())
        );
    }
    assert_eq!(state.utxos.keys(), before.utxos.keys());
    for k in state.utxos.keys() {
        assert_eq!(
            state.utxos.try_get(&k).unwrap().leaf,
            before.utxos.try_get(&k).unwrap().leaf
        );
    }
    assert_eq!(state.stxos.keys(), vec![point(7)]);
    let same = state.accumulator.with_diff(&diff).map_err(|_| ()).unwrap();
    assert_eq!(same.bytes(), state.accumulator.bytes());
    // A bundle from elsewhere takes nothing and gives nothing back.
    let other = m6id(4);
    for status in [WithdrawalBundleStatus::Submitted, WithdrawalBundleStatus::Failed] {
        let e = WithdrawalBundleEvent { m6id: other, status };
        assert_eq!(
            connect_withdrawal_bundle_event(&mut state, 21, &mut diff, main_block(2), &e),
            Ok(())
        );
    }
    assert_eq!(state.utxos.keys(), before.utxos.keys());
    assert_eq!(state.stxos.keys(), vec![point(7)]);
}

#[test]
fn the_last_block_with_an_event_is_noted_once() {
    let id = m6id(3);
    let mut state = with_pending(id);
    state.deposit_blocks.put(4, (main_block(8), 11));
    state.withdrawal_bundle_event_blocks.put(2, (main_block(9), 12));
    let data = TwoWayPegData {
        block_info: vec![
            (main_block(1), vec![deposit(0, 70), event(id, WithdrawalBundleStatus::Submitted)]),
            (main_block(2), vec![deposit(1, 80)]),
            (main_block(3), vec![]),
        ],
    };
    assert_eq!(connect(&mut state, &data, &no_lookups(), &build), Ok(()));
    assert_eq!(state.deposit_blocks.keys(), vec![4, 5]);
    assert_eq!(*state.deposit_blocks.try_get(&4).unwrap(), (main_block(8), 11));
    assert_eq!(*state.deposit_blocks.try_get(&5).unwrap(), (main_block(2), 20));
    let events = &state.withdrawal_bundle_event_blocks;
    assert_eq!(events.keys(), vec![2, 3]);
    assert_eq!(*events.try_get(&2).unwrap(), (main_block(9), 12));
    assert_eq!(*events.try_get(&3).unwrap(), (main_block(1), 20));
    // Blocks without events are not noted.
    let data = TwoWayPegData { block_info: vec![(main_block(4), vec![])] };
    assert_eq!(connect(&mut state, &data, &no_lookups(), &build), Ok(()));
    assert_eq!(state.deposit_blocks.keys(), vec![4, 5]);
    assert_eq!(state.withdrawal_bundle_event_blocks.keys(), vec![2, 3]);
}
