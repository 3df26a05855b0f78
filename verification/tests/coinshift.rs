//! Following the payments of swaps.
use coinshift_state::coinshift::{
    l1_queries, process_coinshift_transactions, query_and_update_swap, L1Match,
};
use coinshift_state::error::Error;
use coinshift_state::ids::{Address, BlockHash, Hash256, SwapId, Txid};
use coinshift_state::state::State;
use coinshift_state::swap::{ParentChainType, Swap, SwapDirection, SwapState, SwapTxId};
use coinshift_state::table::Table;
use coinshift_state::types::OutPoint;

const SIGNET: ParentChainType = ParentChainType {
    chain: 2,
    default_swap_expiration_blocks: 50,
    max_l1_tx_age_blocks: 10,
};

fn id(n: u128) -> SwapId {
    SwapId(Hash256 { hi: 0, lo: n })
}

fn point(n: u128) -> OutPoint {
    OutPoint::Regular { txid: Txid(Hash256 { hi: 0, lo: n }), vout: 0 }
}

fn tip() -> BlockHash {
    BlockHash(Hash256 { hi: 1, lo: 1 })
}

fn swap(n: u128, required: u32, expires: Option<u32>) -> Swap {
    Swap::new(
        id(n),
        SwapDirection::L2ToL1,
        SIGNET,
        SwapTxId::from_bytes(&vec![0u8; 32]),
        required,
        Some(Address { hi: 1, lo: 2 }),
        10_000,
        "tb1qrecipient".to_owned(),
        5_000,
        1,
        expires,
        None,
    )
}

fn seen(byte: u8, confirmations: u32) -> L1Match {
    L1Match {
        txid: Some(SwapTxId::from_bytes(&vec![byte; 32])),
        confirmations,
        in_block: true,
    }
}

fn answers(list: Vec<(u128, Vec<L1Match>)>) -> Table<SwapId, Vec<L1Match>> {
    let mut table = Table::new();
    for (n, matches) in list {
        table.put(id(n), matches);
    }
    table
}

fn state_of(state: &State, n: u128) -> SwapState {
    state.get_swap(&id(n)).unwrap().state
}

#[test]
fn a_payment_moves_a_swap_on() {
    let mut state = State::new(5);
    state.save_swap(swap(1, 3, Some(50)));
    process_coinshift_transactions(&mut state, 9, tip(), &answers(vec![(1, vec![seen(7, 2)])]));
    let found = state.get_swap(&id(1)).unwrap();
    assert_eq!(found.state, SwapState::WaitingConfirmations(2, 3));
    assert_eq!(found.l1_txid.bytes, vec![7u8; 32]);
    assert_eq!(found.l1_txid_validated_at, Some((tip(), 9)));
    // The same count changes nothing; a higher one does.
    process_coinshift_transactions(&mut state, 10, tip(), &answers(vec![(1, vec![seen(7, 2)])]));
    assert_eq!(state_of(&state, 1), SwapState::WaitingConfirmations(2, 3));
    process_coinshift_transactions(&mut state, 11, tip(), &answers(vec![(1, vec![seen(7, 3)])]));
    let found = state.get_swap(&id(1)).unwrap();
    assert_eq!(found.state, SwapState::ReadyToClaim);
    assert_eq!(found.l1_txid_validated_at, Some((tip(), 9)));
}

#[test]
fn payments_that_do_not_count_are_passed_over() {
    let mut unconfirmed = seen(1, 0);
    unconfirmed.in_block = true;
    let mut in_mempool = seen(2, 4);
    in_mempool.in_block = false;
    let too_old = seen(3, 11);
    let good = seen(4, 10);
    let mut s = swap(1, 3, None);
    let state = State::new(5);
    assert_eq!(
        query_and_update_swap(
            &state,
            &mut s,
            &vec![seen(1, 0), seen(3, 11)],
            tip(),
            9
        ),
        Ok(false)
    );
    assert_eq!(s.state, SwapState::Pending);
    assert_eq!(query_and_update_swap(&state, &mut s, &vec![], tip(), 9), Ok(false));
    assert_eq!(
        query_and_update_swap(
            &state,
            &mut s,
            &vec![unconfirmed, in_mempool, too_old, good, seen(5, 1)],
            tip(),
            9
        ),
        Ok(true)
    );
    assert_eq!(s.l1_txid.bytes, vec![4u8; 32]);
    assert_eq!(s.state, SwapState::ReadyToClaim);
}

#[test]
fn an_answer_that_names_no_payment_is_an_error_and_ignored() {
    let nameless = || L1Match { txid: None, confirmations: 1, in_block: true };
    let mut s = swap(1, 3, None);
    let mut state = State::new(5);
    assert_eq!(
        query_and_update_swap(&state, &mut s, &vec![nameless()], tip(), 9),
        Err(Error::InvalidResponse)
    );
    state.save_swap(s);
    process_coinshift_transactions(&mut state, 9, tip(), &answers(vec![(1, vec![nameless()])]));
    assert_eq!(state_of(&state, 1), SwapState::Pending);
}

#[test]
fn a_payment_is_taken_for_one_swap_only() {
    let mut state = State::new(5);
    state.save_swap(swap(1, 1, None));
    state.save_swap(swap(2, 1, None));
    let lookups = answers(vec![(1, vec![seen(7, 2)]), (2, vec![seen(7, 2)])]);
    process_coinshift_transactions(&mut state, 9, tip(), &lookups);
    assert_eq!(state_of(&state, 1), SwapState::ReadyToClaim);
    assert_eq!(state_of(&state, 2), SwapState::Pending);
    let found = state
        .get_swap_by_l1_txid(&SIGNET, &SwapTxId::from_bytes(&vec![7u8; 32]))
        .unwrap();
    assert_eq!(found.id, id(1));
    let other = ParentChainType { chain: 9, ..SIGNET };
    assert!(state
        .get_swap_by_l1_txid(&other, &SwapTxId::from_bytes(&vec![7u8; 32]))
        .is_none());
}

#[test]
fn a_swap_that_ran_out_is_cancelled_and_its_outputs_released() {
    let mut state = State::new(5);
    state.save_swap(swap(1, 1, Some(20)));
    state.save_swap(swap(2, 1, Some(21)));
    state.lock_output_to_swap(&point(1), &id(1));
    state.lock_output_to_swap(&point(2), &id(2));
    state.lock_output_to_swap(&point(3), &id(1));
    // A payment that is seen too late does not help.
    let lookups = answers(vec![(1, vec![seen(7, 2)])]);
    process_coinshift_transactions(&mut state, 20, tip(), &lookups);
    assert_eq!(state_of(&state, 1), SwapState::Cancelled);
    assert_eq!(state_of(&state, 2), SwapState::Pending);
    assert_eq!(state.is_output_locked_to_swap(&point(1)), None);
    assert_eq!(state.is_output_locked_to_swap(&point(3)), None);
    assert_eq!(state.is_output_locked_to_swap(&point(2)), Some(id(2)));
}

#[test]
fn settled_swaps_are_left_alone() {
    for settled in [SwapState::ReadyToClaim, SwapState::Completed, SwapState::Cancelled] {
        let mut state = State::new(5);
        let mut s = swap(1, 1, Some(20));
        s.state = settled;
        state.save_swap(s);
        state.lock_output_to_swap(&point(1), &id(1));
        process_coinshift_transactions(&mut state, 30, tip(), &answers(vec![(1, vec![seen(7, 2)])]));
        assert_eq!(state_of(&state, 1), settled);
        assert_eq!(state.is_output_locked_to_swap(&point(1)), Some(id(1)));
    }
}

#[test]
fn a_swap_that_no_chain_was_asked_for_waits_on() {
    let mut state = State::new(5);
    state.save_swap(swap(1, 1, None));
    process_coinshift_transactions(&mut state, 30, tip(), &answers(vec![]));
    assert_eq!(state_of(&state, 1), SwapState::Pending);
    let mut s = swap(2, 1, None);
    s.l1_amount = None;
    state.save_swap(s);
    process_coinshift_transactions(&mut state, 30, tip(), &answers(vec![(2, vec![seen(7, 2)])]));
    assert_eq!(state_of(&state, 2), SwapState::Pending);
}

#[test]
fn chains_are_asked_for_the_swaps_that_wait() {
    let mut state = State::new(5);
    state.save_swap(swap(3, 1, Some(31)));
    state.save_swap(swap(1, 1, None));
    state.save_swap(swap(2, 1, Some(30)));
    let mut done = swap(4, 1, None);
    done.state = SwapState::Completed;
    state.save_swap(done);
    let mut open = swap(5, 1, None);
    open.l1_recipient_address = None;
    state.save_swap(open);
    let queries = l1_queries(&state, 30);
    let asked: Vec<SwapId> = queries.iter().map(|q| q.swap_id).collect();
    assert_eq!(asked, vec![id(1), id(3)]);
    assert_eq!(queries[0].parent_chain, SIGNET);
    assert_eq!(queries[0].l1_recipient_address, "tb1qrecipient");
    assert_eq!(queries[0].l1_amount, 5_000);
}
