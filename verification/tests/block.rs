//! Checking, connecting and disconnecting blocks.
use bitcoin::hashes::{sha256, Hash as _};
use rustreexo::accumulator::mem_forest::MemForest;
use rustreexo::accumulator::node_hash::BitcoinNodeHash;

use coinshift_state::accumulator::{Accumulator, AccumulatorDiff, Proof, UtreexoError};
use coinshift_state::block::{
    connect, connect_prevalidated, disconnect_tip, move_block, move_tip, prevalidate,
    stage_connect, stage_connect_prevalidated, stage_disconnect_tip, stage_prevalidate,
    stage_validate, try_connect, try_connect_prevalidated, try_connect_with, try_disconnect_tip,
    try_prevalidate, try_validate, validate, PrevalidatedBlock,
};
use coinshift_state::block_check::{
    check_owners, check_roots, check_verdict, spends_once, sum_coins,
};
use coinshift_state::block_model::{BodyFacts, TransactionFacts};
use coinshift_state::error::{Error, Fault, Halt, InvalidHeader, Rejection, TransactionFault};
use coinshift_state::ids::{
    Address, BlockHash, Hash256, MerkleRoot, NodeHash, SwapId, Txid,
};
use coinshift_state::state::State;
use coinshift_state::swap::{ParentChainType, Swap, SwapDirection, SwapState, SwapTxId};
use coinshift_state::types::{
    Authorization, Body, FilledTransaction, Header, InPoint, OutPoint, Output, OutputContent,
    Transaction, TxData,
};

const REGTEST: ParentChainType = ParentChainType {
    chain: 3,
    default_swap_expiration_blocks: 50,
    max_l1_tx_age_blocks: 100,
};

fn hash256(bytes: [u8; 32]) -> Hash256 {
    let mut hi = [0u8; 16];
    let mut lo = [0u8; 16];
    hi.copy_from_slice(&bytes[..16]);
    lo.copy_from_slice(&bytes[16..]);
    Hash256 { hi: u128::from_be_bytes(hi), lo: u128::from_be_bytes(lo) }
}

fn bytes256(h: &Hash256) -> Vec<u8> {
    let mut v = h.hi.to_be_bytes().to_vec();
    v.extend_from_slice(&h.lo.to_be_bytes());
    v
}

fn address(byte: u8) -> Address {
    Address { hi: u32::from_be_bytes([byte; 4]), lo: u128::from_be_bytes([byte; 16]) }
}

fn txid(byte: u8) -> Txid {
    Txid(hash256([byte; 32]))
}

fn swap_id(byte: u8) -> SwapId {
    SwapId(hash256([byte; 32]))
}

fn block_hash(byte: u8) -> BlockHash {
    BlockHash(hash256([byte; 32]))
}

fn root(byte: u8) -> MerkleRoot {
    MerkleRoot(hash256([byte; 32]))
}

/// A leaf that depends on an outpoint, an address and an amount.
fn leaf(outpoint: &OutPoint, owner: &Address, value: u64) -> Hash256 {
    let text = format!("{:?} {:?} {}", outpoint, owner, value);
    hash256(sha256::Hash::hash(text.as_bytes()).to_byte_array())
}

fn output(outpoint: &OutPoint, owner: Address, content: OutputContent) -> Output {
    let value = content.get_value();
    Output { address: owner, leaf: leaf(outpoint, &owner, value), content }
}

fn value_output(outpoint: &OutPoint, owner: Address, value: u64) -> Output {
    output(outpoint, owner, OutputContent::Value(value))
}

fn same_content(a: &OutputContent, b: &OutputContent) -> bool {
    match (a, b) {
        (OutputContent::Value(a), OutputContent::Value(b)) => a == b,
        (
            OutputContent::Withdrawal { value: a, main_fee: fee_a, main_address: to_a },
            OutputContent::Withdrawal { value: b, main_fee: fee_b, main_address: to_b },
        ) => a == b && fee_a == fee_b && to_a.same(to_b),
        (
            OutputContent::SwapPending { value: a, swap_id: swap_a },
            OutputContent::SwapPending { value: b, swap_id: swap_b },
        ) => a == b && swap_a == swap_b,
        _ => false,
    }
}

fn same_output(a: &Output, b: &Output) -> bool {
    a.address == b.address && a.leaf == b.leaf && same_content(&a.content, &b.content)
}

fn node(h: &Hash256) -> BitcoinNodeHash {
    BitcoinNodeHash::from(bytes256(h).as_slice())
}

fn forest(accumulator: &Accumulator) -> MemForest<BitcoinNodeHash> {
    MemForest::deserialize(accumulator.bytes().as_slice()).unwrap()
}

fn from_node(n: BitcoinNodeHash) -> NodeHash {
    match n {
        BitcoinNodeHash::Empty => NodeHash::Empty,
        BitcoinNodeHash::Placeholder => NodeHash::Placeholder,
        BitcoinNodeHash::Some(b) => NodeHash::Hash(hash256(b)),
    }
}

fn roots_of(f: &MemForest<BitcoinNodeHash>) -> Vec<NodeHash> {
    f.get_roots().iter().map(|n| from_node(n.get_data())).collect()
}

fn proof_of(accumulator: &Accumulator, leaves: &[Hash256]) -> Proof {
    let nodes: Vec<BitcoinNodeHash> = leaves.iter().map(node).collect();
    let proof = forest(accumulator).prove(&nodes).unwrap();
    Proof { targets: proof.targets, hashes: proof.hashes.into_iter().map(from_node).collect() }
}

/// A state that holds these outputs, in its accumulator too.
fn seeded(utxos: &[(OutPoint, Output)]) -> State {
    let mut state = State::new(5);
    let mut diff = AccumulatorDiff::new();
    for (outpoint, o) in utxos {
        diff.insert(o.leaf);
        state.utxos.put(*outpoint, o.clone());
    }
    state.accumulator.apply_diff(&diff).unwrap();
    state
}

/// The roots that the accumulator has once the body is connected.
fn roots_after(state: &State, body: &Body) -> Vec<NodeHash> {
    let mut f = forest(&state.accumulator);
    let mut additions: Vec<BitcoinNodeHash> =
        body.coinbase.iter().map(|o| node(&o.leaf)).collect();
    let mut deletions = Vec::new();
    for tx in &body.transactions {
        deletions.extend(tx.inputs.iter().map(|(_, h)| node(h)));
        additions.extend(tx.outputs.iter().map(|o| node(&o.leaf)));
    }
    f.modify(&additions, &deletions).unwrap();
    roots_of(&f)
}

fn facts(body: &Body, fees: &[u64], merkle_root: MerkleRoot) -> BodyFacts {
    let transactions = fees
        .iter()
        .map(|fee| TransactionFacts { swap: Ok(()), fee: Ok(*fee) })
        .collect::<Vec<_>>();
    assert_eq!(transactions.len(), body.transactions.len());
    BodyFacts {
        sigops_limit: 100,
        size_limit: 10_000,
        size: Some(1_000),
        merkle_root: Ok(merkle_root),
        transactions,
        authorized: true,
    }
}

fn header(state: &State, body: &Body, merkle_root: MerkleRoot, name: u8) -> Header {
    Header {
        hash: block_hash(name),
        merkle_root,
        prev_side_hash: state.tip,
        roots: roots_after(state, body),
    }
}

fn apply_block(state: &mut State, header: &Header, body: &Body, facts: &BodyFacts) -> MerkleRoot {
    let pre = prevalidate(state, header, body, facts).map_err(|e| format!("{e:?}")).unwrap();
    connect_prevalidated(state, header, body, pre).unwrap()
}

fn regular(id: u8, inputs: Vec<(OutPoint, Hash256)>, proof: Proof, outputs: Vec<Output>) -> Transaction {
    Transaction { txid: txid(id), inputs, proof, outputs, data: TxData::Regular }
}

fn regular_outpoint(id: u8, vout: u32) -> OutPoint {
    OutPoint::Regular { txid: txid(id), vout }
}

fn error_of<E>(r: Result<PrevalidatedBlock, E>) -> E {
    match r {
        Ok(_) => panic!("the block was accepted"),
        Err(e) => e,
    }
}

#[test]
fn apply_block_accepts_outpoint_hash_mismatch_and_corrupts_accumulator() {
    let address_a = address(1);
    let outpoint_a = regular_outpoint(1, 0);
    let output_a = value_output(&outpoint_a, address_a, 10_000);
    let outpoint_b = regular_outpoint(2, 0);
    let output_b = value_output(&outpoint_b, address(2), 20_000);
    let mut state =
        seeded(&[(outpoint_a, output_a.clone()), (outpoint_b, output_b.clone())]);

    let proof_for_b = proof_of(&state.accumulator, &[output_b.leaf]);
    let made = regular_outpoint(77, 0);
    let transaction = regular(
        77,
        vec![(outpoint_a, output_b.leaf)],
        proof_for_b,
        vec![value_output(&made, address_a, 9_000)],
    );
    let body = Body {
        coinbase: vec![],
        transactions: vec![transaction],
        authorizations: vec![Authorization { address: address_a }],
    };
    let merkle_root = root(9);
    let header = header(&state, &body, merkle_root, 100);
    let facts = facts(&body, &[1_000], merkle_root);

    let r = apply_block(&mut state, &header, &body, &facts);
    assert_eq!(r, merkle_root);

    assert!(state.utxos.try_get(&outpoint_a).is_none(), "the DB spent outpoint A");
    assert!(
        same_output(state.utxos.try_get(&outpoint_b).unwrap(), &output_b),
        "the DB still exposes outpoint B as unspent"
    );
    let f = forest(&state.accumulator);
    assert!(f.prove(&[node(&output_a.leaf)]).is_ok(), "outpoint A remains in the accumulator");
    assert!(
        f.prove(&[node(&output_b.leaf)]).is_err(),
        "outpoint B was removed from the accumulator"
    );
}

#[test]
fn mempool_validation_accepts_too_few_authorizations_but_block_validation_rejects() {
    let owner = address(3);
    let outpoint_a = regular_outpoint(3, 0);
    let output_a = value_output(&outpoint_a, owner, 10_000);
    let outpoint_b = regular_outpoint(4, 0);
    let output_b = value_output(&outpoint_b, owner, 10_000);
    let state = seeded(&[(outpoint_a, output_a.clone()), (outpoint_b, output_b.clone())]);

    let proof = proof_of(&state.accumulator, &[output_a.leaf, output_b.leaf]);
    let made = regular_outpoint(78, 0);
    let transaction = regular(
        78,
        vec![(outpoint_a, output_a.leaf), (outpoint_b, output_b.leaf)],
        proof,
        vec![value_output(&made, owner, 19_000)],
    );
    let authorizations = vec![Authorization { address: owner }];
    assert_eq!(transaction.inputs.len(), 2);
    assert_eq!(authorizations.len(), 1);

    let filled = state.fill_transaction(&transaction).map_err(|_| ()).unwrap();
    assert!(
        check_owners(&vec![filled], &authorizations),
        "one signature is matched for two inputs"
    );

    let body = Body { coinbase: vec![], transactions: vec![transaction], authorizations };
    let merkle_root = root(9);
    let header = header(&state, &body, merkle_root, 100);
    let mut facts = facts(&body, &[1_000], merkle_root);
    facts.authorized = false;
    assert_eq!(error_of(prevalidate(&state, &header, &body, &facts)), Error::Authorization);
    assert_eq!(validate(&state, &header, &body, &facts), Err(Error::Authorization));
}

fn claim(id: u8, swap: SwapId, inputs: Vec<(OutPoint, Hash256)>, proof: Proof, outputs: Vec<Output>) -> Transaction {
    Transaction {
        txid: txid(id),
        inputs,
        proof,
        outputs,
        data: TxData::SwapClaim { swap_id: swap, l2_claimer_address: None },
    }
}

fn pending(outpoint: &OutPoint, owner: Address, value: u64, swap: SwapId) -> Output {
    output(outpoint, owner, OutputContent::SwapPending { value, swap_id: swap })
}

fn saved_swap(
    id: SwapId,
    recipient: Option<Address>,
    l2_amount: u64,
    l1_recipient: &str,
    creator: Address,
    state: SwapState,
) -> Swap {
    let mut swap = Swap::new(
        id,
        SwapDirection::L2ToL1,
        REGTEST,
        SwapTxId::from_bytes(&vec![1u8; 32]),
        1,
        recipient,
        l2_amount,
        l1_recipient.to_owned(),
        5_000,
        0,
        Some(50),
        Some(creator),
    );
    assert_eq!(swap.state, SwapState::Pending);
    swap.state = state;
    swap
}

#[test]
fn swap_claim_can_spend_unlocked_swap_pending_input_without_owner_signature() {
    let attacker = address(5);
    let victim = address(6);
    let swap = swap_id(7);
    let locked_outpoint = regular_outpoint(8, 0);
    let locked_output = pending(&locked_outpoint, attacker, 10_000, swap);
    let victim_outpoint = regular_outpoint(9, 0);
    let victim_output = pending(&victim_outpoint, victim, 10_000, swap_id(9));
    let mut state = seeded(&[
        (locked_outpoint, locked_output.clone()),
        (victim_outpoint, victim_output.clone()),
    ]);
    state.save_swap(saved_swap(
        swap,
        Some(attacker),
        5_000,
        "bcrt1qattacker",
        attacker,
        SwapState::ReadyToClaim,
    ));
    state.lock_output_to_swap(&locked_outpoint, &swap);

    let proof = proof_of(&state.accumulator, &[locked_output.leaf, victim_output.leaf]);
    let made = regular_outpoint(79, 0);
    let transaction = claim(
        79,
        swap,
        vec![(locked_outpoint, locked_output.leaf), (victim_outpoint, victim_output.leaf)],
        proof,
        vec![value_output(&made, attacker, 19_000)],
    );
    let body = Body {
        coinbase: vec![],
        transactions: vec![transaction],
        authorizations: vec![
            Authorization { address: attacker },
            Authorization { address: attacker },
        ],
    };
    let merkle_root = root(9);
    let header = header(&state, &body, merkle_root, 100);
    let facts = facts(&body, &[1_000], merkle_root);
    apply_block(&mut state, &header, &body, &facts);

    assert!(
        state.utxos.try_get(&victim_outpoint).is_none(),
        "victim's unlocked SwapPending output was spent"
    );
    let spent = state.stxos.try_get(&victim_outpoint).unwrap();
    assert!(same_output(&spent.output, &victim_output));
    assert_eq!(spent.inpoint, InPoint::Regular { txid: txid(79), vin: 1 });
}

#[test]
fn swap_claim_completes_pending_swap_without_ready_to_claim_state() {
    let creator = address(13);
    let recipient = address(14);
    let swap = swap_id(15);
    let locked_outpoint = regular_outpoint(16, 0);
    let locked_output = pending(&locked_outpoint, creator, 10_000, swap);
    let mut state = seeded(&[(locked_outpoint, locked_output.clone())]);
    state.save_swap(saved_swap(
        swap,
        Some(recipient),
        10_000,
        "bcrt1ql1recipient",
        creator,
        SwapState::Pending,
    ));
    state.lock_output_to_swap(&locked_outpoint, &swap);

    let proof = proof_of(&state.accumulator, &[locked_output.leaf]);
    let made = regular_outpoint(80, 0);
    let transaction = claim(
        80,
        swap,
        vec![(locked_outpoint, locked_output.leaf)],
        proof,
        vec![value_output(&made, recipient, 10_000)],
    );
    let body = Body {
        coinbase: vec![],
        transactions: vec![transaction],
        authorizations: vec![Authorization { address: recipient }],
    };
    let merkle_root = root(9);
    let header = header(&state, &body, merkle_root, 100);
    let facts = facts(&body, &[0], merkle_root);
    apply_block(&mut state, &header, &body, &facts);

    assert!(state.utxos.try_get(&locked_outpoint).is_none(), "locked swap output was spent");
    assert_eq!(state.is_output_locked_to_swap(&locked_outpoint), None);
    let completed = state.get_swap(&swap).unwrap();
    assert_eq!(
        completed.state,
        SwapState::Completed,
        "pending swap was advanced and completed by the block"
    );
}

fn create(
    id: u8,
    swap: SwapId,
    l1_txid: [u8; 32],
    recipient: Address,
    l1_recipient: &str,
    inputs: Vec<(OutPoint, Hash256)>,
    proof: Proof,
    outputs: Vec<Output>,
) -> Transaction {
    Transaction {
        txid: txid(id),
        inputs,
        proof,
        outputs,
        data: TxData::SwapCreate {
            swap_id: swap,
            parent_chain: REGTEST,
            l1_txid_bytes: l1_txid.to_vec(),
            required_confirmations: 1,
            l2_recipient: Some(recipient),
            l2_amount: 10_000,
            l1_recipient_address: l1_recipient.to_owned(),
            l1_amount: 5_000,
        },
    }
}

#[test]
fn swap_create_accepts_arbitrary_l1_txid_and_populates_uniqueness_index() {
    let creator = address(10);
    let recipient = address(11);
    let poisoned = [42u8; 32];
    let swap = swap_id(200);
    let funding_outpoint = regular_outpoint(12, 0);
    let funding_output = value_output(&funding_outpoint, creator, 11_000);
    let mut state = seeded(&[(funding_outpoint, funding_output.clone())]);

    let proof = proof_of(&state.accumulator, &[funding_output.leaf]);
    let made = regular_outpoint(81, 0);
    let transaction = create(
        81,
        swap,
        poisoned,
        recipient,
        "bcrt1qrecipient",
        vec![(funding_outpoint, funding_output.leaf)],
        proof,
        vec![pending(&made, recipient, 10_000, swap)],
    );
    let body = Body {
        coinbase: vec![],
        transactions: vec![transaction],
        authorizations: vec![Authorization { address: creator }],
    };
    let merkle_root = root(9);
    let header = header(&state, &body, merkle_root, 100);
    let facts = facts(&body, &[1_000], merkle_root);
    apply_block(&mut state, &header, &body, &facts);

    let indexed = state
        .get_swap_by_l1_txid(&REGTEST, &SwapTxId::from_bytes(&poisoned.to_vec()))
        .expect("poisoned l1 txid should be indexed");
    assert_eq!(indexed.id, swap);
    assert_eq!(indexed.l1_txid.bytes, poisoned.to_vec());
    // The swap as it was made.
    assert_eq!(indexed.l2_creator_address, Some(creator));
    assert_eq!(indexed.created_at_height, 0);
    assert_eq!(indexed.expires_at_height, Some(50));
    assert_eq!(indexed.state, SwapState::Pending);
    assert_eq!(state.is_output_locked_to_swap(&made), Some(swap));
}

#[test]
fn swap_create_can_advertise_l2_amount_without_locked_escrow_output() {
    let creator = address(13);
    let recipient = address(14);
    let swap = swap_id(201);
    let funding_outpoint = regular_outpoint(15, 0);
    let funding_output = value_output(&funding_outpoint, creator, 10_000);
    let mut state = seeded(&[(funding_outpoint, funding_output.clone())]);

    let proof = proof_of(&state.accumulator, &[funding_output.leaf]);
    let made = regular_outpoint(82, 0);
    let transaction = create(
        82,
        swap,
        [0u8; 32],
        recipient,
        "bcrt1qrecipient-no-escrow",
        vec![(funding_outpoint, funding_output.leaf)],
        proof,
        vec![value_output(&made, creator, 10_000)],
    );
    let body = Body {
        coinbase: vec![],
        transactions: vec![transaction],
        authorizations: vec![Authorization { address: creator }],
    };
    let merkle_root = root(9);
    let header = header(&state, &body, merkle_root, 100);
    let facts = facts(&body, &[0], merkle_root);
    apply_block(&mut state, &header, &body, &facts);

    let saved = state.get_swap(&swap).unwrap();
    assert_eq!(saved.l2_amount, 10_000);
    assert_eq!(
        state.is_output_locked_to_swap(&made),
        None,
        "SwapCreate was accepted but no output was escrow-locked to the swap"
    );
}

/// A state with three outputs of one owner, and a block that spends two of them.
fn two_transactions() -> (State, Header, Body, BodyFacts) {
    let owner = address(20);
    let points = [regular_outpoint(20, 0), regular_outpoint(20, 1), regular_outpoint(21, 0)];
    let seeds: Vec<(OutPoint, Output)> =
        points.iter().map(|p| (*p, value_output(p, owner, 10_000))).collect();
    let mut state = seeded(&seeds);
    state.tip = Some(block_hash(1));
    state.height = Some(6);
    let merkle_root = root(30);
    let coinbase_point = OutPoint::Coinbase { merkle_root, vout: 0 };
    let mut transactions = Vec::new();
    for (id, seed) in [(90u8, &seeds[0]), (91u8, &seeds[2])] {
        let made = [regular_outpoint(id, 0), regular_outpoint(id, 1)];
        transactions.push(regular(
            id,
            vec![(seed.0, seed.1.leaf)],
            proof_of(&state.accumulator, &[seed.1.leaf]),
            vec![
                value_output(&made[0], owner, 4_000),
                value_output(&made[1], address(21), 5_900),
            ],
        ));
    }
    let body = Body {
        coinbase: vec![value_output(&coinbase_point, address(22), 150)],
        transactions,
        authorizations: vec![Authorization { address: owner }, Authorization { address: owner }],
    };
    let header = header(&state, &body, merkle_root, 100);
    let facts = facts(&body, &[100, 100], merkle_root);
    (state, header, body, facts)
}

#[test]
fn both_checks_find_the_fees_and_the_merkle_root() {
    let (state, header, body, facts) = two_transactions();
    let pre = prevalidate(&state, &header, &body, &facts).map_err(|_| ()).unwrap();
    assert_eq!(pre.total_fees, 200);
    assert_eq!(pre.coinbase_value, 150);
    assert_eq!(pre.next_height, 7);
    assert_eq!(pre.computed_merkle_root, root(30));
    assert_eq!(pre.filled_transactions.len(), 2);
    assert_eq!(pre.filled_transactions[1].spent_utxos[0].content.get_value(), 10_000);
    assert_eq!(validate(&state, &header, &body, &facts), Ok((200, root(30))));
}

#[test]
fn both_ways_to_connect_leave_the_same_state() {
    let (mut a, header, body, facts) = two_transactions();
    apply_block(&mut a, &header, &body, &facts);
    let (mut b, header, body, _) = two_transactions();
    assert_eq!(connect(&mut b, &header, &body, Ok(root(30))), Ok(root(30)));
    for state in [&a, &b] {
        assert_eq!(state.tip, Some(block_hash(100)));
        assert_eq!(state.height, Some(7));
        assert_eq!(state.utxos.keys().len(), 6);
        assert_eq!(state.stxos.keys().len(), 2);
        assert_eq!(state.accumulator.get_roots(), header.roots);
    }
    assert_eq!(a.utxos.keys(), b.utxos.keys());
    assert_eq!(a.stxos.keys(), b.stxos.keys());
    assert_eq!(a.accumulator.bytes(), b.accumulator.bytes());
}

#[test]
fn disconnecting_brings_back_the_outputs_and_the_tip() {
    let (mut state, header, body, facts) = two_transactions();
    let before = state.utxos.keys();
    apply_block(&mut state, &header, &body, &facts);
    assert_eq!(disconnect_tip(&mut state, &header, &body), Ok(()));
    assert_eq!(state.tip, Some(block_hash(1)));
    assert_eq!(state.height, Some(6));
    assert_eq!(state.utxos.keys(), before);
    assert_eq!(state.stxos.keys().len(), 0);
    // What was spent can be proven again, what was made cannot.
    let f = forest(&state.accumulator);
    for (_, claimed) in body.transactions.iter().flat_map(|t| t.inputs.iter()) {
        assert!(f.prove(&[node(claimed)]).is_ok());
    }
    assert!(f.prove(&[node(&body.transactions[0].outputs[0].leaf)]).is_err());
    assert!(f.prove(&[node(&body.coinbase[0].leaf)]).is_err());
}

#[test]
fn disconnecting_an_unchecked_block_brings_back_the_outputs() {
    let (mut state, header, body, _) = two_transactions();
    let before = state.utxos.keys();
    connect(&mut state, &header, &body, Ok(root(30))).unwrap();
    assert_eq!(disconnect_tip(&mut state, &header, &body), Ok(()));
    assert_eq!(state.utxos.keys(), before);
    assert_eq!(state.tip, Some(block_hash(1)));
}

#[test]
fn a_first_block_is_connected_at_height_zero_and_disconnected() {
    let mut state = State::new(5);
    let merkle_root = root(31);
    let body = Body { coinbase: vec![], transactions: vec![], authorizations: vec![] };
    let header = header(&state, &body, merkle_root, 101);
    let facts = facts(&body, &[], merkle_root);
    apply_block(&mut state, &header, &body, &facts);
    assert_eq!(state.height, Some(0));
    assert_eq!(disconnect_tip(&mut state, &header, &body), Ok(()));
    assert_eq!(state.tip, None);
    assert_eq!(state.height, None);
}

#[test]
fn a_ready_claim_is_undone_with_its_lock() {
    let creator = address(13);
    let recipient = address(14);
    let swap = swap_id(15);
    let locked_outpoint = regular_outpoint(16, 0);
    let locked_output = pending(&locked_outpoint, creator, 10_000, swap);
    let mut state = seeded(&[(locked_outpoint, locked_output.clone())]);
    state.save_swap(saved_swap(
        swap,
        Some(recipient),
        10_000,
        "bcrt1ql1recipient",
        creator,
        SwapState::ReadyToClaim,
    ));
    state.lock_output_to_swap(&locked_outpoint, &swap);
    let made = regular_outpoint(80, 0);
    let body = Body {
        coinbase: vec![],
        transactions: vec![claim(
            80,
            swap,
            vec![(locked_outpoint, locked_output.leaf)],
            proof_of(&state.accumulator, &[locked_output.leaf]),
            vec![value_output(&made, recipient, 10_000)],
        )],
        authorizations: vec![Authorization { address: recipient }],
    };
    let header = header(&state, &body, root(9), 100);
    let facts = facts(&body, &[0], root(9));
    apply_block(&mut state, &header, &body, &facts);
    assert_eq!(disconnect_tip(&mut state, &header, &body), Ok(()));
    assert_eq!(state.get_swap(&swap).unwrap().state, SwapState::ReadyToClaim);
    assert_eq!(state.is_output_locked_to_swap(&locked_outpoint), Some(swap));
    assert!(same_output(state.utxos.try_get(&locked_outpoint).unwrap(), &locked_output));
    assert_eq!(state.tip, None);
}

#[test]
fn a_made_swap_is_undone_with_its_lock() {
    let creator = address(10);
    let swap = swap_id(200);
    let funding_outpoint = regular_outpoint(12, 0);
    let funding_output = value_output(&funding_outpoint, creator, 11_000);
    let mut state = seeded(&[(funding_outpoint, funding_output.clone())]);
    let made = regular_outpoint(81, 0);
    let body = Body {
        coinbase: vec![],
        transactions: vec![create(
            81,
            swap,
            [42u8; 32],
            address(11),
            "bcrt1qrecipient",
            vec![(funding_outpoint, funding_output.leaf)],
            proof_of(&state.accumulator, &[funding_output.leaf]),
            vec![pending(&made, creator, 10_000, swap)],
        )],
        authorizations: vec![Authorization { address: creator }],
    };
    let header = header(&state, &body, root(9), 100);
    let facts = facts(&body, &[1_000], root(9));
    apply_block(&mut state, &header, &body, &facts);
    assert_eq!(disconnect_tip(&mut state, &header, &body), Ok(()));
    assert!(state.get_swap(&swap).is_none());
    assert_eq!(state.is_output_locked_to_swap(&made), None);
    assert!(same_output(state.utxos.try_get(&funding_outpoint).unwrap(), &funding_output));
}

fn both_fail(state: &State, header: &Header, body: &Body, facts: &BodyFacts, e: Error) {
    assert_eq!(error_of(prevalidate(state, header, body, facts)), e);
    assert_eq!(validate(state, header, body, facts), Err(e));
}

#[test]
fn a_block_must_follow_the_tip() {
    let (mut state, mut header, body, facts) = two_transactions();
    header.prev_side_hash = None;
    let e = Error::InvalidHeader(InvalidHeader::PrevSideHash {
        expected: Some(block_hash(1)),
        received: None,
    });
    both_fail(&state, &header, &body, &facts, e);
    assert_eq!(connect(&mut state, &header, &body, Ok(root(30))), Err(e));
    assert_eq!(state.utxos.keys().len(), 3);
}

#[test]
fn a_block_must_keep_within_its_limits() {
    let (state, header, body, mut facts) = two_transactions();
    facts.sigops_limit = 2;
    facts.size_limit = 1_000;
    assert!(prevalidate(&state, &header, &body, &facts).is_ok());
    facts.sigops_limit = 1;
    both_fail(&state, &header, &body, &facts, Error::TooManySigops);
    facts.sigops_limit = 2;
    facts.size_limit = 999;
    both_fail(&state, &header, &body, &facts, Error::BodyTooLarge);
    facts.size = None;
    both_fail(&state, &header, &body, &facts, Error::BorshSerialize);
}

#[test]
fn inputs_must_name_unspent_outputs() {
    let (mut state, header, mut body, facts) = two_transactions();
    let missing = regular_outpoint(250, 3);
    body.transactions[1].inputs[0].0 = missing;
    both_fail(&state, &header, &body, &facts, Error::NoUtxo { outpoint: missing });
    // Connecting without checking stops there, and leaves what it did.
    assert_eq!(
        connect(&mut state, &header, &body, Ok(root(30))),
        Err(Error::NoUtxo { outpoint: missing })
    );
    assert_eq!(state.stxos.keys().len(), 1);
    assert_eq!(state.tip, Some(block_hash(1)));
}

#[test]
fn proofs_must_hold() {
    let (state, header, mut body, facts) = two_transactions();
    body.transactions[0].inputs[0].1 = hash256([99u8; 32]);
    both_fail(&state, &header, &body, &facts, Error::UtreexoProofFailed { txid: txid(90) });
    let (_, _, mut body, _) = two_transactions();
    body.transactions[0].proof = Proof { targets: vec![0], hashes: vec![] };
    both_fail(&state, &header, &body, &facts, Error::Utreexo(UtreexoError));
}

#[test]
fn rejections_from_elsewhere_are_passed_on() {
    let (state, header, body, mut facts) = two_transactions();
    facts.transactions[1].fee = Err(Rejection(4));
    both_fail(&state, &header, &body, &facts, Error::Transaction(Rejection(4)));
    facts.transactions[1].swap = Err(Rejection(3));
    both_fail(&state, &header, &body, &facts, Error::Swap(Rejection(3)));
    let (_, _, _, mut facts) = two_transactions();
    facts.merkle_root = Err(Rejection(8));
    both_fail(&state, &header, &body, &facts, Error::MerkleRoot(Rejection(8)));
    facts.merkle_root = Ok(root(99));
    both_fail(
        &state,
        &header,
        &body,
        &facts,
        Error::InvalidBody { expected: root(30), computed: root(99) },
    );
}

#[test]
fn the_order_of_the_checks_decides_which_error_is_reported() {
    // The proof of the first transaction fails, and so do the rules of swaps.
    let (state, header, mut body, mut facts) = two_transactions();
    body.transactions[0].inputs[0].1 = hash256([99u8; 32]);
    facts.transactions[0].swap = Err(Rejection(3));
    assert_eq!(
        error_of(prevalidate(&state, &header, &body, &facts)),
        Error::UtreexoProofFailed { txid: txid(90) }
    );
    assert_eq!(
        validate(&state, &header, &body, &facts),
        Err(Error::Swap(Rejection(3)))
    );
}

#[test]
fn amounts_must_be_countable() {
    let (state, header, body, mut facts) = two_transactions();
    facts.transactions[0].fee = Ok(u64::MAX);
    facts.transactions[1].fee = Ok(1);
    both_fail(&state, &header, &body, &facts, Error::AmountOverflow);
    let (state, header, mut body, facts) = two_transactions();
    body.coinbase.push(value_output(&regular_outpoint(1, 1), address(1), u64::MAX));
    both_fail(&state, &header, &body, &facts, Error::AmountOverflow);
    assert_eq!(sum_coins(&body.coinbase), None);
    body.coinbase.pop();
    assert_eq!(sum_coins(&body.coinbase), Some(150));
}

#[test]
fn no_output_is_spent_twice() {
    let (state, header, mut body, facts) = two_transactions();
    assert!(spends_once(&body.transactions));
    let first = body.transactions[0].inputs[0];
    body.transactions[1].inputs = vec![first];
    body.transactions[1].proof = body.transactions[0].proof.clone();
    assert!(!spends_once(&body.transactions));
    both_fail(&state, &header, &body, &facts, Error::UtxoDoubleSpent);
}

#[test]
fn outpoints_that_differ_in_one_part_are_different() {
    let (_, _, mut body, _) = two_transactions();
    let h = hash256([1u8; 32]);
    body.transactions[0].inputs = vec![
        (regular_outpoint(5, 0), h),
        (regular_outpoint(5, 1), h),
        (OutPoint::Coinbase { merkle_root: root(5), vout: 0 }, h),
        (regular_outpoint(4, 0), h),
    ];
    assert!(spends_once(&body.transactions));
    body.transactions[1].inputs = vec![(OutPoint::Coinbase { merkle_root: root(5), vout: 0 }, h)];
    assert!(!spends_once(&body.transactions));
}

#[test]
fn a_coinbase_is_paid_out_of_the_fees() {
    let (state, header, body, mut facts) = two_transactions();
    facts.transactions[1].fee = Ok(50);
    assert!(prevalidate(&state, &header, &body, &facts).is_ok());
    facts.transactions[1].fee = Ok(49);
    both_fail(&state, &header, &body, &facts, Error::NotEnoughFees);
}

#[test]
fn owners_must_sign() {
    let (state, header, mut body, facts) = two_transactions();
    body.authorizations[1] = Authorization { address: address(99) };
    both_fail(&state, &header, &body, &facts, Error::WrongPubKeyForAddress);
}

#[test]
fn an_exempt_input_still_takes_the_place_of_a_signature() {
    let swap = swap_id(1);
    let point = regular_outpoint(1, 0);
    let filled = |data: TxData, owner: Address| FilledTransaction {
        transaction: Transaction {
            txid: txid(1),
            inputs: vec![(point, hash256([0u8; 32]))],
            proof: Proof { targets: vec![], hashes: vec![] },
            outputs: vec![],
            data,
        },
        spent_utxos: vec![pending(&point, owner, 1, swap)],
    };
    let claimed = TxData::SwapClaim { swap_id: swap, l2_claimer_address: None };
    let txs = vec![filled(claimed, address(1)), filled(TxData::Regular, address(2))];
    let sign = |a: u8, b: u8| {
        vec![Authorization { address: address(a) }, Authorization { address: address(b) }]
    };
    assert!(check_owners(&txs, &sign(7, 2)));
    assert!(!check_owners(&txs, &sign(2, 7)));
    assert!(check_owners(&txs, &vec![]));
}

#[test]
fn a_header_must_commit_to_the_roots() {
    let (state, mut header, body, facts) = two_transactions();
    header.roots.push(NodeHash::Empty);
    both_fail(&state, &header, &body, &facts, Error::UtreexoRootsMismatch);
}

#[test]
fn a_change_that_the_accumulator_refuses_is_an_error() {
    let (mut state, header, mut body, _) = two_transactions();
    body.transactions[0].inputs[0].1 = hash256([99u8; 32]);
    assert_eq!(
        connect(&mut state, &header, &body, Ok(root(30))),
        Err(Error::Utreexo(UtreexoError))
    );
    // The tip moved before that.
    assert_eq!(state.tip, Some(block_hash(100)));
    assert_eq!(state.height, Some(7));
}

#[test]
fn an_unchecked_block_must_have_its_merkle_root() {
    let (mut state, header, body, _) = two_transactions();
    assert_eq!(
        connect(&mut state, &header, &body, Err(Rejection(2))),
        Err(Error::MerkleRoot(Rejection(2)))
    );
    let (mut state, header, body, _) = two_transactions();
    assert_eq!(
        connect(&mut state, &header, &body, Ok(root(31))),
        Err(Error::InvalidBody { expected: root(30), computed: root(31) })
    );
    assert_eq!(state.tip, Some(block_hash(1)));
    assert_eq!(state.stxos.keys().len(), 2);
}

#[test]
fn what_was_checked_must_be_what_is_connected() {
    let (mut state, mut header, body, facts) = two_transactions();
    let pre = prevalidate(&state, &header, &body, &facts).map_err(|_| ()).unwrap();
    header.merkle_root = root(77);
    assert_eq!(
        connect_prevalidated(&mut state, &header, &body, pre),
        Err(Error::InvalidBody { expected: root(30), computed: root(77) })
    );
    assert_eq!(state.utxos.keys().len(), 3);
    let (mut state, header, body, facts) = two_transactions();
    let pre = prevalidate(&state, &header, &body, &facts).map_err(|_| ()).unwrap();
    state.tip = Some(block_hash(2));
    assert_eq!(
        connect_prevalidated(&mut state, &header, &body, pre),
        Err(Error::InvalidHeader(InvalidHeader::PrevSideHash {
            expected: Some(block_hash(2)),
            received: Some(block_hash(1)),
        }))
    );
}

fn claiming_block(recipient: Option<Address>, save: bool) -> (State, Header, Body, BodyFacts) {
    let swap = swap_id(15);
    let locked_outpoint = regular_outpoint(16, 0);
    let locked_output = pending(&locked_outpoint, address(13), 10_000, swap);
    let mut state = seeded(&[(locked_outpoint, locked_output.clone())]);
    if save {
        state.save_swap(saved_swap(
            swap,
            recipient,
            10_000,
            "bcrt1ql1recipient",
            address(13),
            SwapState::Pending,
        ));
    }
    let made = regular_outpoint(80, 0);
    let body = Body {
        coinbase: vec![],
        transactions: vec![claim(
            80,
            swap,
            vec![(locked_outpoint, locked_output.leaf)],
            proof_of(&state.accumulator, &[locked_output.leaf]),
            vec![value_output(&made, address(14), 10_000)],
        )],
        authorizations: vec![],
    };
    let header = header(&state, &body, root(9), 100);
    let facts = facts(&body, &[0], root(9));
    (state, header, body, facts)
}

#[test]
fn only_a_swap_that_is_there_is_claimed() {
    let (mut state, header, body, facts) = claiming_block(None, false);
    let pre = prevalidate(&state, &header, &body, &facts).map_err(|_| ()).unwrap();
    assert_eq!(
        connect_prevalidated(&mut state, &header, &body, pre),
        Err(Error::SwapNotFound { swap_id: swap_id(15) })
    );
}

#[test]
fn an_open_swap_is_claimed_for_someone() {
    let (mut state, header, body, facts) = claiming_block(None, true);
    let pre = prevalidate(&state, &header, &body, &facts).map_err(|_| ()).unwrap();
    assert_eq!(
        connect_prevalidated(&mut state, &header, &body, pre),
        Err(Error::InvalidTransaction(TransactionFault::OpenSwapClaimWithoutClaimer))
    );
    assert_eq!(
        TransactionFault::OpenSwapClaimWithoutClaimer.message(),
        "Open swap claim requires l2_claimer_address"
    );
    // The swap was moved on before that.
    assert_eq!(state.get_swap(&swap_id(15)).unwrap().state, SwapState::ReadyToClaim);
    let (mut state, header, mut body, facts) = claiming_block(None, true);
    body.transactions[0].data =
        TxData::SwapClaim { swap_id: swap_id(15), l2_claimer_address: Some(address(14)) };
    apply_block(&mut state, &header, &body, &facts);
    assert_eq!(state.get_swap(&swap_id(15)).unwrap().state, SwapState::Completed);
}

/// A block that makes a swap, checked, as if it stood at `height`.
fn creating_block(height: u32) -> (State, Header, Body, PrevalidatedBlock) {
    let creator = address(10);
    let swap = swap_id(200);
    let funding_outpoint = regular_outpoint(12, 0);
    let funding_output = value_output(&funding_outpoint, creator, 11_000);
    let state = seeded(&[(funding_outpoint, funding_output.clone())]);
    let made = [regular_outpoint(81, 0), regular_outpoint(81, 1)];
    let body = Body {
        coinbase: vec![],
        transactions: vec![create(
            81,
            swap,
            [42u8; 32],
            address(11),
            "bcrt1qrecipient",
            vec![(funding_outpoint, funding_output.leaf)],
            proof_of(&state.accumulator, &[funding_output.leaf]),
            vec![
                pending(&made[0], creator, 10_000, swap),
                value_output(&made[1], creator, 500),
            ],
        )],
        authorizations: vec![Authorization { address: creator }],
    };
    let header = header(&state, &body, root(9), 100);
    let facts = facts(&body, &[500], root(9));
    let mut pre = prevalidate(&state, &header, &body, &facts).map_err(|_| ()).unwrap();
    pre.next_height = height;
    (state, header, body, pre)
}

#[test]
fn a_swap_runs_out_within_range() {
    let (mut state, header, body, pre) = creating_block(u32::MAX - 50);
    assert_eq!(try_connect_prevalidated(&mut state, &header, &body, pre), Ok(root(9)));
    assert_eq!(state.get_swap(&swap_id(200)).unwrap().expires_at_height, Some(u32::MAX));

    let out_of_range = Err(Fault::Halt(Halt::OutOfRange));
    let (mut state, header, body, pre) = creating_block(u32::MAX - 49);
    assert_eq!(try_connect_prevalidated(&mut state, &header, &body, pre), out_of_range);
    // The coins were moved before that.
    assert!(state.utxos.try_get(&regular_outpoint(12, 0)).is_none());
    assert!(state.get_swap(&swap_id(200)).is_none());
    assert_eq!(state.tip, None);

    // What is wrong with the block comes first.
    let (mut state, mut header, body, pre) = creating_block(u32::MAX - 49);
    header.merkle_root = root(77);
    assert_eq!(
        try_connect_prevalidated(&mut state, &header, &body, pre),
        Err(Fault::Error(Error::InvalidBody { expected: root(9), computed: root(77) }))
    );
    let (mut state, header, body, pre) = creating_block(u32::MAX - 49);
    state.utxos.delete(&regular_outpoint(12, 0));
    assert_eq!(
        try_connect_prevalidated(&mut state, &header, &body, pre),
        Err(Fault::Error(Error::NoUtxo { outpoint: regular_outpoint(12, 0) }))
    );
}

#[test]
fn heights_stay_in_range() {
    let out_of_range = Fault::Halt(Halt::OutOfRange);
    let (mut state, mut header, mut body, facts) = two_transactions();
    state.height = Some(u32::MAX);
    assert_eq!(error_of(try_prevalidate(&state, &header, &body, &facts)), out_of_range);
    assert_eq!(try_validate(&state, &header, &body, &facts), Err(out_of_range));
    assert_eq!(try_connect(&mut state, &header, &body, Ok(root(30))), Err(out_of_range));
    // The outputs were moved before that, the tip was not.
    assert_eq!(state.stxos.keys().len(), 2);
    assert_eq!(state.tip, Some(block_hash(1)));

    // What is wrong with the block comes first.
    let (mut state, _, _, facts) = two_transactions();
    state.height = Some(u32::MAX);
    let missing = regular_outpoint(250, 3);
    body.transactions[1].inputs[0].0 = missing;
    assert_eq!(
        try_connect(&mut state, &header, &body, Ok(root(30))),
        Err(Fault::Error(Error::NoUtxo { outpoint: missing }))
    );
    header.prev_side_hash = None;
    let not_next = Fault::Error(Error::InvalidHeader(InvalidHeader::PrevSideHash {
        expected: Some(block_hash(1)),
        received: None,
    }));
    assert_eq!(error_of(try_prevalidate(&state, &header, &body, &facts)), not_next);
    assert_eq!(try_validate(&state, &header, &body, &facts), Err(not_next));
}

#[test]
fn a_tip_is_taken_back_to_a_height() {
    let (mut state, header, body, _) = two_transactions();
    connect(&mut state, &header, &body, Ok(root(30))).unwrap();
    state.height = None;
    assert_eq!(
        try_disconnect_tip(&mut state, &header, &body),
        Err(Fault::Halt(Halt::NoHeight))
    );
    assert_eq!(state.utxos.keys().len(), 3);
    // Outputs that are missing come first.
    let (mut state, header, body, _) = two_transactions();
    connect(&mut state, &header, &body, Ok(root(30))).unwrap();
    state.height = None;
    let made = regular_outpoint(90, 1);
    state.utxos.delete(&made);
    assert_eq!(
        try_disconnect_tip(&mut state, &header, &body),
        Err(Fault::Error(Error::NoUtxo { outpoint: made }))
    );
}

#[test]
fn leaves_that_are_taken_out_are_told_apart() {
    // Two of the outputs that are kept have the same leaf, and stand side by side.
    let (_, mut header, body, facts) = two_transactions();
    let owner = address(20);
    let first = (regular_outpoint(20, 0), value_output(&regular_outpoint(20, 0), owner, 10_000));
    let third = (regular_outpoint(21, 0), value_output(&regular_outpoint(21, 0), owner, 10_000));
    let mut state = seeded(&[first.clone()]);
    let mut diff = AccumulatorDiff::new();
    diff.insert(first.1.leaf);
    state.accumulator.apply_diff(&diff).unwrap();
    let mut diff = AccumulatorDiff::new();
    diff.insert(third.1.leaf);
    state.accumulator.apply_diff(&diff).unwrap();
    state.utxos.put(third.0, third.1.clone());
    state.tip = Some(block_hash(1));
    state.height = Some(6);
    header.prev_side_hash = state.tip;
    let alike = Fault::Halt(Halt::EqualSiblings);
    let verdicts = vec![Some(true), Some(true)];
    let pre = stage_prevalidate(&state, &header, &body, &facts, &verdicts);
    let pre = pre.map_err(|_| ()).unwrap();
    let roots = state.find_roots_after(&pre.accumulator_diff);
    assert_eq!(roots, Err(alike));
    assert_eq!(check_roots(&header, &roots), Err(alike));
    let before = state.accumulator.bytes().clone();
    assert_eq!(try_connect_prevalidated(&mut state, &header, &body, pre), Err(alike));
    assert_eq!(state.tip, Some(block_hash(100)));
    assert_eq!(*state.accumulator.bytes(), before);
    // Taking the block back takes leaves out too.
    assert_eq!(
        try_disconnect_tip(&mut state, &header, &body),
        Err(Fault::Error(Error::Utreexo(UtreexoError)))
    );
    assert_eq!(*state.accumulator.bytes(), before);
}

/// A block in which an outpoint is made, spent and made again, or just made
/// twice.
fn remaking_block(spend: bool) -> (State, Header, Body) {
    let owner = address(1);
    let starts = [regular_outpoint(1, 0), regular_outpoint(2, 0)];
    let seeds: Vec<(OutPoint, Output)> =
        starts.iter().map(|p| (*p, value_output(p, owner, 100))).collect();
    let state = seeded(&seeds);
    let middle = regular_outpoint(40, 0);
    let between = value_output(&middle, owner, 90);
    let end = regular_outpoint(41, 0);
    let none = || Proof { targets: vec![], hashes: vec![] };
    let mut transactions =
        vec![regular(40, vec![(starts[0], seeds[0].1.leaf)], none(), vec![between.clone()])];
    if spend {
        transactions.push(regular(
            41,
            vec![(middle, between.leaf)],
            none(),
            vec![value_output(&end, owner, 80)],
        ));
    }
    transactions.push(regular(40, vec![(starts[1], seeds[1].1.leaf)], none(), vec![between]));
    let body = Body { coinbase: vec![], transactions, authorizations: vec![] };
    let header = Header {
        hash: block_hash(50),
        merkle_root: root(9),
        prev_side_hash: None,
        roots: vec![],
    };
    (state, header, body)
}

#[test]
fn an_outpoint_that_is_made_again_is_taken_back_or_stops_it() {
    let (mut state, header, body) = remaking_block(true);
    let (before, _, _) = remaking_block(true);
    connect(&mut state, &header, &body, Ok(root(9))).unwrap();
    assert!(state.utxos.try_get(&regular_outpoint(40, 0)).is_some());
    assert!(state.stxos.try_get(&regular_outpoint(40, 0)).is_some());
    assert_eq!(disconnect_tip(&mut state, &header, &body), Ok(()));
    assert_eq!(state.utxos.keys(), before.utxos.keys());
    for k in before.utxos.keys() {
        assert!(same_output(state.utxos.try_get(&k).unwrap(), before.utxos.try_get(&k).unwrap()));
    }
    assert_eq!(state.stxos.keys().len(), 0);
    assert_eq!(state.tip, None);
    assert_eq!(state.height, None);

    let (mut state, header, body) = remaking_block(false);
    connect(&mut state, &header, &body, Ok(root(9))).unwrap();
    assert_eq!(
        disconnect_tip(&mut state, &header, &body),
        Err(Error::NoUtxo { outpoint: regular_outpoint(40, 0) })
    );
}

#[test]
fn a_swap_that_is_forgotten_leaves_other_locks() {
    let (mut state, header, body, pre) = creating_block(0);
    let made = [regular_outpoint(81, 0), regular_outpoint(81, 1)];
    let elsewhere = regular_outpoint(99, 0);
    // One lock is written over, two are not.
    state.lock_output_to_swap(&made[0], &swap_id(1));
    state.lock_output_to_swap(&made[1], &swap_id(2));
    state.lock_output_to_swap(&elsewhere, &swap_id(200));
    connect_prevalidated(&mut state, &header, &body, pre).unwrap();
    assert_eq!(state.is_output_locked_to_swap(&made[0]), Some(swap_id(200)));
    assert_eq!(disconnect_tip(&mut state, &header, &body), Ok(()));
    assert!(state.get_swap(&swap_id(200)).is_none());
    assert_eq!(state.is_output_locked_to_swap(&made[0]), None);
    assert_eq!(state.is_output_locked_to_swap(&made[1]), Some(swap_id(2)));
    assert_eq!(state.is_output_locked_to_swap(&elsewhere), Some(swap_id(200)));
    assert_eq!(state.utxos.keys(), vec![regular_outpoint(12, 0)]);
    assert_eq!(state.stxos.keys().len(), 0);
}

#[test]
fn only_the_tip_is_disconnected() {
    let (mut state, header, body, _) = two_transactions();
    assert_eq!(
        disconnect_tip(&mut state, &header, &body),
        Err(Error::InvalidHeader(InvalidHeader::BlockHash {
            expected: block_hash(1),
            computed: block_hash(100),
        }))
    );
    state.tip = None;
    assert_eq!(disconnect_tip(&mut state, &header, &body), Err(Error::NoTip));
}

#[test]
fn a_tip_without_a_block_before_it_is_the_first() {
    let (mut state, mut header, body, _) = two_transactions();
    connect(&mut state, &header, &body, Ok(root(30))).unwrap();
    header.prev_side_hash = None;
    assert_eq!(disconnect_tip(&mut state, &header, &body), Err(Error::NoTip));
    // The outputs were brought back before that.
    assert_eq!(state.utxos.keys().len(), 3);
    assert_eq!(state.tip, Some(block_hash(100)));
}

#[test]
fn disconnecting_needs_the_outputs_of_the_block() {
    let (mut state, header, body, _) = two_transactions();
    connect(&mut state, &header, &body, Ok(root(30))).unwrap();
    let made = regular_outpoint(90, 1);
    state.utxos.delete(&made);
    assert_eq!(
        disconnect_tip(&mut state, &header, &body),
        Err(Error::NoUtxo { outpoint: made })
    );
    let (mut state, header, body, _) = two_transactions();
    connect(&mut state, &header, &body, Ok(root(30))).unwrap();
    let spent = regular_outpoint(21, 0);
    state.stxos.delete(&spent);
    assert_eq!(
        disconnect_tip(&mut state, &header, &body),
        Err(Error::NoStxo { outpoint: spent })
    );
    let (mut state, header, body, _) = two_transactions();
    connect(&mut state, &header, &body, Ok(root(30))).unwrap();
    let coinbase = OutPoint::Coinbase { merkle_root: root(30), vout: 0 };
    state.utxos.delete(&coinbase);
    assert_eq!(
        disconnect_tip(&mut state, &header, &body),
        Err(Error::NoUtxo { outpoint: coinbase })
    );
}

#[test]
fn disconnecting_a_claim_needs_its_swap() {
    let (mut state, header, body, _) = claiming_block(None, false);
    connect(&mut state, &header, &body, Ok(root(9))).unwrap();
    assert_eq!(
        disconnect_tip(&mut state, &header, &body),
        Err(Error::SwapNotFound { swap_id: swap_id(15) })
    );
}

#[test]
fn a_claim_of_an_unlocked_output_leaves_a_lock_behind_when_undone() {
    let (mut state, header, body, facts) = claiming_block(Some(address(14)), true);
    let spent = regular_outpoint(16, 0);
    assert_eq!(state.is_output_locked_to_swap(&spent), None);
    apply_block(&mut state, &header, &body, &facts);
    disconnect_tip(&mut state, &header, &body).unwrap();
    assert_eq!(state.is_output_locked_to_swap(&spent), Some(swap_id(15)));
    assert_eq!(state.get_swap(&swap_id(15)).unwrap().state, SwapState::ReadyToClaim);
}

#[test]
fn proofs_and_roots_are_judged_by_what_was_found() {
    let (state, header, body, facts) = two_transactions();
    let good = vec![Some(true), Some(true)];
    let pre = stage_prevalidate(&state, &header, &body, &facts, &good).map_err(|_| ()).unwrap();
    assert_eq!(pre.next_height, 7);
    assert_eq!(
        stage_validate(&state, &header, &body, &facts, &good),
        Ok((pre.total_fees, pre.computed_merkle_root))
    );
    let bad = vec![Some(true), Some(false)];
    let second = body.transactions[1].txid;
    let e = Fault::Error(Error::UtreexoProofFailed { txid: second });
    assert_eq!(error_of(stage_prevalidate(&state, &header, &body, &facts, &bad)), e);
    assert_eq!(stage_validate(&state, &header, &body, &facts, &bad), Err(e));
    let unknown = vec![None, Some(false)];
    let e = Fault::Error(Error::Utreexo(UtreexoError));
    assert_eq!(error_of(stage_prevalidate(&state, &header, &body, &facts, &unknown)), e);
    assert_eq!(stage_validate(&state, &header, &body, &facts, &unknown), Err(e));

    assert_eq!(check_verdict(Some(true), second), Ok(()));
    assert_eq!(check_verdict(Some(false), second), Err(Error::UtreexoProofFailed { txid: second }));
    assert_eq!(check_verdict(None, second), Err(Error::Utreexo(UtreexoError)));
    assert_eq!(check_roots(&header, &Ok(header.roots.clone())), Ok(()));
    let mismatch = Fault::Error(Error::UtreexoRootsMismatch);
    assert_eq!(check_roots(&header, &Ok(vec![])), Err(mismatch));
    assert_eq!(check_roots(&header, &Err(e)), Err(e));
    assert_eq!(state.judge_proofs(&body.transactions), good);
    assert_eq!(state.find_roots_after(&pre.accumulator_diff), Ok(header.roots.clone()));
}

#[test]
fn a_block_is_connected_in_stages() {
    let (mut state, header, body, facts) = two_transactions();
    let before = state.accumulator.get_roots();
    let diff = stage_connect(&mut state, &header, &body, Ok(root(30))).map_err(|_| ()).unwrap();
    assert_eq!(state.tip, Some(block_hash(100)));
    assert_eq!(state.height, Some(7));
    assert_eq!(state.accumulator.get_roots(), before);
    let refused = Fault::Error(Error::Utreexo(UtreexoError));
    assert_eq!(state.take_change(Err(refused)), Err(refused));
    assert_eq!(state.accumulator.get_roots(), before);
    let changed = state.accumulator.with_diff(&diff);
    assert_eq!(state.take_change(changed), Ok(()));
    assert_eq!(state.accumulator.get_roots(), header.roots);

    let diff = stage_disconnect_tip(&mut state, &header, &body).map_err(|_| ()).unwrap();
    assert_eq!(state.tip, Some(block_hash(1)));
    assert_eq!(state.height, Some(6));
    assert_eq!(state.utxos.keys().len(), 3);
    assert_eq!(state.accumulator.get_roots(), header.roots);
    let changed = state.accumulator.with_diff(&diff);
    assert_eq!(state.take_change(changed), Ok(()));

    let (mut state, _, _, _) = two_transactions();
    let pre = prevalidate(&state, &header, &body, &facts).map_err(|_| ()).unwrap();
    assert_eq!(stage_connect_prevalidated(&mut state, &header, &body, &pre), Ok(()));
    assert_eq!(state.tip, Some(block_hash(100)));
    assert_eq!(state.accumulator.get_roots(), before);
}

#[test]
fn the_tip_keeps_its_height() {
    let known = |state: &State| state.tip.is_some() == state.height.is_some();
    let (mut state, header, body, facts) = two_transactions();
    assert!(known(&state));
    apply_block(&mut state, &header, &body, &facts);
    assert!(known(&state));
    disconnect_tip(&mut state, &header, &body).unwrap();
    assert!(known(&state));
    assert!(connect(&mut state, &header, &body, Err(Rejection(2))).is_err());
    assert!(known(&state));
}

#[test]
fn spent_and_unspent_outputs_stay_apart() {
    let apart =
        |state: &State| state.utxos.keys().iter().all(|k| state.stxos.try_get(k).is_none());
    let (mut state, header, body, facts) = two_transactions();
    apply_block(&mut state, &header, &body, &facts);
    assert!(apart(&state));
    // A stray output stops this half way.
    let coinbase = OutPoint::Coinbase { merkle_root: root(30), vout: 0 };
    state.utxos.delete(&coinbase);
    assert!(disconnect_tip(&mut state, &header, &body).is_err());
    assert!(apart(&state));
}

#[test]
fn swaps_are_kept_under_their_ids() {
    let by_id = |state: &State| {
        state.swaps.keys().iter().all(|id| state.swaps.try_get(id).unwrap().id == *id)
    };
    let (mut state, header, body, facts) = claiming_block(Some(address(14)), true);
    apply_block(&mut state, &header, &body, &facts);
    assert!(by_id(&state));
    disconnect_tip(&mut state, &header, &body).unwrap();
    assert!(by_id(&state));
}

#[test]
fn a_transaction_may_spend_what_one_before_it_makes() {
    let owner = address(1);
    let start = regular_outpoint(1, 0);
    let started = value_output(&start, owner, 100);
    let mut state = seeded(&[(start, started.clone())]);
    let middle = regular_outpoint(40, 0);
    let between = value_output(&middle, owner, 90);
    let end = regular_outpoint(41, 0);
    let none = || Proof { targets: vec![], hashes: vec![] };
    let body = Body {
        coinbase: vec![],
        transactions: vec![
            regular(40, vec![(start, started.leaf)], none(), vec![between.clone()]),
            regular(
                41,
                vec![(middle, between.leaf)],
                none(),
                vec![value_output(&end, owner, 80)],
            ),
        ],
        authorizations: vec![],
    };
    let header = Header {
        hash: block_hash(50),
        merkle_root: root(9),
        prev_side_hash: None,
        roots: vec![],
    };
    let (filled, diff) = move_block(&mut state, &header, &body).map_err(|_| ()).unwrap();
    assert_eq!(filled.len(), 2);
    assert!(same_output(&filled[0].spent_utxos[0], &started));
    assert!(same_output(&filled[1].spent_utxos[0], &between));
    assert_eq!(state.utxos.keys(), vec![end]);
    assert_eq!(state.tip, None);
    assert_eq!(
        move_tip(&mut state, &header, Ok(root(8))),
        Err(Fault::Error(Error::InvalidBody { expected: root(9), computed: root(8) }))
    );
    assert_eq!(
        move_tip(&mut state, &header, Err(Rejection(5))),
        Err(Fault::Error(Error::MerkleRoot(Rejection(5))))
    );
    assert_eq!(state.height, None);
    assert_eq!(move_tip(&mut state, &header, Ok(root(9))), Ok(()));
    assert_eq!(state.tip, Some(block_hash(50)));
    assert_eq!(state.height, Some(0));
    // What comes and goes inside the block never reaches the accumulator.
    let after = state.accumulator.with_diff(&diff).map_err(|_| ()).unwrap();
    let f = forest(&after);
    assert!(f.prove(&[node(&between.leaf)]).is_err());
    assert!(f.prove(&[node(&body.transactions[1].outputs[0].leaf)]).is_ok());
}

#[test]
fn checking_and_connecting_find_the_same_outputs_spent() {
    let (mut state, header, body, facts) = two_transactions();
    let pre = prevalidate(&state, &header, &body, &facts).map_err(|_| ()).unwrap();
    let (filled, _) = move_block(&mut state, &header, &body).map_err(|_| ()).unwrap();
    assert_eq!(filled.len(), pre.filled_transactions.len());
    for (a, b) in filled.iter().zip(&pre.filled_transactions) {
        assert_eq!(a.transaction.txid, b.transaction.txid);
        assert_eq!(a.spent_utxos.len(), b.spent_utxos.len());
        assert!(a.spent_utxos.iter().zip(&b.spent_utxos).all(|(x, y)| same_output(x, y)));
    }
}

#[test]
fn a_connected_block_moves_its_coins() {
    let (mut checked, header, body, facts) = two_transactions();
    apply_block(&mut checked, &header, &body, &facts);
    let (mut unchecked, _, _, _) = two_transactions();
    connect(&mut unchecked, &header, &body, Ok(root(30))).unwrap();
    let (before, _, _, _) = two_transactions();
    let coinbase = OutPoint::Coinbase { merkle_root: root(30), vout: 0 };
    for state in [&checked, &unchecked] {
        // The one that nobody spends is as it was.
        let kept = regular_outpoint(20, 1);
        assert!(same_output(
            state.utxos.try_get(&kept).unwrap(),
            before.utxos.try_get(&kept).unwrap()
        ));
        assert!(same_output(state.utxos.try_get(&coinbase).unwrap(), &body.coinbase[0]));
        assert_eq!(state.utxos.keys().len(), 6);
        assert_eq!(state.stxos.keys().len(), 2);
        for tx in &body.transactions {
            for (vout, made) in tx.outputs.iter().enumerate() {
                let point = OutPoint::Regular { txid: tx.txid, vout: vout as u32 };
                assert!(same_output(state.utxos.try_get(&point).unwrap(), made));
            }
            for (vin, (point, _)) in tx.inputs.iter().enumerate() {
                assert!(state.utxos.try_get(point).is_none());
                let spent = state.stxos.try_get(point).unwrap();
                assert!(same_output(&spent.output, before.utxos.try_get(point).unwrap()));
                assert_eq!(spent.inpoint, InPoint::Regular { txid: tx.txid, vin: vin as u32 });
            }
        }
    }
}

#[test]
fn the_merkle_root_is_found_once_the_coins_are_moved() {
    let (mut state, header, body, _) = two_transactions();
    let found = |coinbase: &Vec<Output>, filled: &Vec<FilledTransaction>| {
        assert_eq!(coinbase.len(), 1);
        let spent: Vec<u64> =
            filled.iter().map(|f| f.spent_utxos[0].content.get_value()).collect();
        assert_eq!(spent, vec![10_000, 10_000]);
        Ok(root(30))
    };
    assert_eq!(try_connect_with(&mut state, &header, &body, &found), Ok(root(30)));
    assert_eq!(state.tip, Some(block_hash(100)));
    assert_eq!(state.height, Some(7));
    assert_eq!(state.accumulator.get_roots(), header.roots);

    let (mut state, header, body, _) = two_transactions();
    let other = |_: &Vec<Output>, _: &Vec<FilledTransaction>| Ok(root(31));
    assert_eq!(
        try_connect_with(&mut state, &header, &body, &other),
        Err(Fault::Error(Error::InvalidBody { expected: root(30), computed: root(31) }))
    );
    let (mut state, header, body, _) = two_transactions();
    let none = |_: &Vec<Output>, _: &Vec<FilledTransaction>| Err(Rejection(4));
    assert_eq!(
        try_connect_with(&mut state, &header, &body, &none),
        Err(Fault::Error(Error::MerkleRoot(Rejection(4))))
    );
    assert_eq!(state.tip, Some(block_hash(1)));
    assert_eq!(state.stxos.keys().len(), 2);

    // Nobody asks for it where an input names nothing, or the tip is another.
    let never = |_: &Vec<Output>, _: &Vec<FilledTransaction>| -> Result<MerkleRoot, Rejection> {
        panic!("no root is needed")
    };
    let (mut state, header, body, _) = two_transactions();
    let gone = body.transactions[1].inputs[0].0;
    state.utxos.delete(&gone);
    assert_eq!(
        try_connect_with(&mut state, &header, &body, &never),
        Err(Fault::Error(Error::NoUtxo { outpoint: gone }))
    );
    let (mut state, mut header, body, _) = two_transactions();
    header.prev_side_hash = None;
    assert_eq!(
        try_connect_with(&mut state, &header, &body, &never),
        Err(Fault::Error(Error::InvalidHeader(InvalidHeader::PrevSideHash {
            expected: Some(block_hash(1)),
            received: None,
        })))
    );
    assert_eq!(state.stxos.keys().len(), 0);
}
