//! Tables, values that can be rolled back, the accumulator and addresses.
use rustreexo::accumulator::mem_forest::MemForest;
use rustreexo::accumulator::node_hash::BitcoinNodeHash;

use coinshift_state::accumulator::{
    Accumulator, AccumulatorDiff, LEAVES_LIMIT, Proof, UtreexoError,
};
use coinshift_state::error::{Error, Fault, Halt};
use coinshift_state::ids::{Hash256, MainBlockHash, NodeHash};
use coinshift_state::mainchain::{same_bytes, MainAddress};
use coinshift_state::rollback::RollBack;
use coinshift_state::state::State;
use coinshift_state::swap::SwapTxId;
use coinshift_state::table::Table;
use coinshift_state::types::{Origin, OutPoint};
use coinshift_state::withdrawal::WithdrawalBundleStatus;

const REFUSED: Fault = Fault::Error(Error::Utreexo(UtreexoError));

fn block(n: u128) -> MainBlockHash {
    MainBlockHash(Hash256 { hi: n, lo: 0 })
}

fn leaf(n: u8) -> Hash256 {
    Hash256 { hi: u128::from_be_bytes([n; 16]), lo: u128::from_be_bytes([n; 16]) }
}

fn node(n: u8) -> BitcoinNodeHash {
    BitcoinNodeHash::from([n; 32])
}

#[test]
fn a_new_state_has_no_tip() {
    let mut state = State::new(5);
    assert!(state.tip.is_none());
    assert_eq!(state.next_height(), 0);
    state.height = Some(4);
    assert_eq!(state.next_height(), 5);
}

#[test]
fn a_table_gives_back_what_was_put() {
    let mut table: Table<u32, (MainBlockHash, u32)> = Table::new();
    assert!(table.last().is_none());
    for n in [5u32, 1, 9, 3, 7] {
        table.put(n, (block(n as u128), n * 10));
    }
    table.put(3, (block(33), 31));
    assert_eq!(table.keys(), vec![1, 3, 5, 7, 9]);
    assert_eq!(*table.try_get(&3).unwrap(), (block(33), 31));
    assert!(table.try_get(&4).is_none());
    let (number, entry) = table.last().unwrap();
    assert_eq!((number, entry.1), (9, 90));
    assert!(table.delete(&5));
    assert!(!table.delete(&5));
    assert_eq!(table.take(&1).unwrap().1, 10);
    assert!(table.take(&1).is_none());
    assert_eq!(table.keys(), vec![3, 7, 9]);
    table.clear();
    assert_eq!(table.keys(), Vec::<u32>::new());
}

#[test]
fn a_value_remembers_what_it_was() {
    let mut value = RollBack::new(WithdrawalBundleStatus::Submitted, 4);
    assert_eq!(value.push(WithdrawalBundleStatus::Failed, 3), Err(WithdrawalBundleStatus::Failed));
    assert_eq!(value.push(WithdrawalBundleStatus::Failed, 4), Ok(()));
    assert_eq!(value.latest().value, WithdrawalBundleStatus::Failed);
    assert_eq!(value.earliest().value, WithdrawalBundleStatus::Submitted);
    let copy = value.copy();
    let (earlier, top) = value.pop();
    assert_eq!((top.value, top.height), (WithdrawalBundleStatus::Failed, 4));
    let earlier = earlier.unwrap();
    assert_eq!(earlier.latest().value, WithdrawalBundleStatus::Submitted);
    assert!(earlier.pop().0.is_none());
    assert_eq!(copy.latest().height, 4);
}

fn of(leaves: &[u8]) -> Accumulator {
    let mut accumulator = Accumulator::new();
    let mut diff = AccumulatorDiff::new();
    for n in leaves {
        diff.insert(leaf(*n));
    }
    accumulator.apply_diff(&diff).unwrap();
    accumulator
}

#[test]
fn the_accumulator_is_the_forest_of_its_leaves() {
    assert_eq!(*Accumulator::new().bytes(), vec![0u8; 16]);
    assert!(Accumulator::new().get_roots().is_empty());
    let mut forest = MemForest::new();
    forest.modify(&[node(1), node(2), node(3)], &[]).unwrap();
    let mut bytes = Vec::new();
    forest.serialize(&mut bytes).unwrap();
    let accumulator = of(&[1, 2, 3]);
    assert_eq!(*accumulator.bytes(), bytes);
    let roots: Vec<NodeHash> = forest
        .get_roots()
        .iter()
        .map(|root| match root.get_data() {
            BitcoinNodeHash::Empty => NodeHash::Empty,
            BitcoinNodeHash::Placeholder => NodeHash::Placeholder,
            BitcoinNodeHash::Some(b) => {
                let mut hi = [0u8; 16];
                let mut lo = [0u8; 16];
                hi.copy_from_slice(&b[..16]);
                lo.copy_from_slice(&b[16..]);
                NodeHash::Hash(Hash256 {
                    hi: u128::from_be_bytes(hi),
                    lo: u128::from_be_bytes(lo),
                })
            }
        })
        .collect();
    assert_eq!(roots.len(), 2);
    assert_eq!(roots[1], NodeHash::Hash(leaf(3)));
    assert_eq!(accumulator.get_roots(), roots);
}

#[test]
fn an_accumulator_is_read_back() {
    let accumulator = of(&[1, 2, 3]);
    let bytes = accumulator.bytes().clone();
    assert_eq!(*Accumulator::from_bytes(bytes.clone()).unwrap().bytes(), bytes);
    assert!(Accumulator::from_bytes(bytes[..bytes.len() - 1].to_vec()).is_none());
    let mut longer = bytes.clone();
    longer.push(0);
    assert!(Accumulator::from_bytes(longer).is_none());
    let mut miscounted = bytes.clone();
    miscounted[0] = 4;
    assert!(Accumulator::from_bytes(miscounted).is_none());
    assert!(Accumulator::from_bytes(vec![]).is_none());
    // Every hash but that of the last leaf has a part in the hash of a branch.
    for at in [25usize, 66, 107] {
        let mut changed = bytes.clone();
        changed[at] ^= 1;
        assert!(Accumulator::from_bytes(changed).is_none());
    }
    let mut renamed = bytes.clone();
    renamed[bytes.len() - 1] ^= 1;
    assert!(Accumulator::from_bytes(renamed).is_some());
    let mut without_hash = bytes[..bytes.len() - 41].to_vec();
    without_hash.extend_from_slice(&[1, 0, 0, 0, 0, 0, 0, 0, 0]);
    assert!(Accumulator::from_bytes(without_hash).is_none());
}

#[test]
fn a_tree_has_no_more_rows_than_its_place() {
    // The tree of two leaves, in the place of a tree of one.
    let mut bytes = of(&[1, 2]).bytes().clone();
    bytes[0] = 1;
    assert!(Accumulator::from_bytes(bytes).is_none());
    // One leaf may be all that is left of a tree of two.
    let mut bytes = of(&[1]).bytes().clone();
    bytes[0] = 2;
    assert!(Accumulator::from_bytes(bytes).is_some());
}

#[test]
fn leaves_must_be_countable() {
    let emptied = |leaves: u64| {
        let mut bytes = leaves.to_le_bytes().to_vec();
        bytes.extend_from_slice(&(leaves.count_ones() as u64).to_le_bytes());
        bytes.extend(vec![0u8; 9 * leaves.count_ones() as usize]);
        Accumulator::from_bytes(bytes)
    };
    assert!(emptied(LEAVES_LIMIT).is_none());
    let mut diff = AccumulatorDiff::new();
    diff.insert(leaf(1));
    assert!(emptied(LEAVES_LIMIT - 2).unwrap().with_diff(&diff).is_ok());
    let mut full = emptied(LEAVES_LIMIT - 1).unwrap();
    assert_eq!(full.apply_diff(&diff), Err(Fault::Halt(Halt::OutOfRange)));
}

#[test]
fn emptied_trees_are_read_back() {
    let mut accumulator = of(&[1, 2, 3, 4, 5]);
    let mut diff = AccumulatorDiff::new();
    for n in [1u8, 2, 3, 4, 5] {
        diff.remove(leaf(n));
    }
    accumulator.apply_diff(&diff).unwrap();
    assert_eq!(accumulator.get_roots(), vec![NodeHash::Empty, NodeHash::Empty]);
    let bytes = accumulator.bytes().clone();
    let mut again = Accumulator::from_bytes(bytes).unwrap();
    let mut diff = AccumulatorDiff::new();
    diff.insert(leaf(6));
    assert!(again.apply_diff(&diff).is_ok());
}

#[test]
fn a_proof_holds_for_its_leaves_only() {
    let accumulator = of(&[1, 2, 3]);
    let forest = MemForest::<BitcoinNodeHash>::deserialize(accumulator.bytes().as_slice()).unwrap();
    let proof = forest.prove(&[node(1)]).unwrap();
    let hashes = vec![NodeHash::Hash(leaf(2))];
    assert_eq!(proof.hashes, vec![node(2)]);
    let proof = Proof { targets: proof.targets, hashes };
    assert_eq!(accumulator.verify(&proof, &vec![leaf(1)]), Ok(true));
    assert_eq!(accumulator.verify(&proof, &vec![leaf(3)]), Ok(false));
    let cut = Proof { targets: proof.targets.clone(), hashes: vec![] };
    assert_eq!(accumulator.verify(&cut, &vec![leaf(1)]), Err(UtreexoError));
}

#[test]
fn a_leaf_that_comes_and_goes_changes_nothing() {
    let accumulator = of(&[1, 2, 3]);
    let mut diff = AccumulatorDiff::new();
    diff.insert(leaf(9));
    diff.remove(leaf(9));
    diff.remove(leaf(2));
    diff.insert(leaf(2));
    assert_eq!(accumulator.with_diff(&diff).map_err(|_| ()).unwrap().bytes(), accumulator.bytes());
    // Repeated, a change counts once.
    diff.insert(leaf(9));
    diff.insert(leaf(9));
    let mut once = AccumulatorDiff::new();
    once.insert(leaf(9));
    assert_eq!(
        accumulator.with_diff(&diff).map_err(|_| ()).unwrap().bytes(),
        accumulator.with_diff(&once).map_err(|_| ()).unwrap().bytes()
    );
}

#[test]
fn a_leaf_that_is_not_there_cannot_go() {
    let mut accumulator = of(&[1, 2, 3]);
    let before = accumulator.bytes().clone();
    let mut diff = AccumulatorDiff::new();
    diff.remove(leaf(9));
    assert_eq!(accumulator.apply_diff(&diff), Err(REFUSED));
    assert_eq!(*accumulator.bytes(), before);
}

fn without(accumulator: &Accumulator, leaves: &[Hash256]) -> Result<Accumulator, Fault> {
    let mut diff = AccumulatorDiff::new();
    for leaf in leaves {
        diff.remove(*leaf);
    }
    accumulator.with_diff(&diff)
}

fn fault_of(r: Result<Accumulator, Fault>) -> Fault {
    match r {
        Ok(_) => panic!("the change was made"),
        Err(fault) => fault,
    }
}

/// What `rustreexo` makes of a forest when leaves are taken out all at once.
fn modified(accumulator: &Accumulator, leaves: &[BitcoinNodeHash]) -> Vec<u8> {
    let mut forest =
        MemForest::<BitcoinNodeHash>::deserialize(accumulator.bytes().as_slice()).unwrap();
    forest.modify(&[], leaves).unwrap();
    let mut bytes = Vec::new();
    forest.serialize(&mut bytes).unwrap();
    bytes
}

/// An accumulator to which these leaves were added one by one, some of them more
/// than once.
fn of_each(leaves: &[Hash256]) -> Accumulator {
    let mut accumulator = Accumulator::new();
    for leaf in leaves {
        let mut diff = AccumulatorDiff::new();
        diff.insert(*leaf);
        accumulator.apply_diff(&diff).unwrap();
    }
    accumulator
}

#[test]
fn a_leaf_is_not_taken_out_from_beside_its_equal() {
    let mut accumulator = of_each(&[leaf(1), leaf(1)]);
    let before = accumulator.bytes().clone();
    let alike = Fault::Halt(Halt::EqualSiblings);
    assert_eq!(fault_of(without(&accumulator, &[leaf(1)])), alike);
    let mut diff = AccumulatorDiff::new();
    diff.remove(leaf(1));
    assert_eq!(accumulator.apply_diff(&diff), Err(alike));
    assert_eq!(*accumulator.bytes(), before);
    // What is not there is looked for first.
    assert_eq!(fault_of(without(&accumulator, &[leaf(1), leaf(2)])), REFUSED);
    // The same when it is read back.
    let again = Accumulator::from_bytes(before).unwrap();
    assert_eq!(fault_of(without(&again, &[leaf(1)])), alike);
    // Leaves can still be added, and others taken out.
    let mut diff = AccumulatorDiff::new();
    diff.insert(leaf(2));
    accumulator.apply_diff(&diff).unwrap();
    let after = without(&accumulator, &[leaf(2)]).map_err(|_| ()).unwrap();
    assert_eq!(*after.bytes(), modified(&accumulator, &[node(2)]));
}

#[test]
fn equal_leaves_that_stand_apart_are_taken_out() {
    // The last of them goes.
    for leaves in [vec![1u8, 2, 1], vec![1, 2, 3, 1], vec![1, 2, 1, 3]] {
        let leaves: Vec<Hash256> = leaves.into_iter().map(leaf).collect();
        let accumulator = of_each(&leaves);
        let after = without(&accumulator, &[leaf(1)]).map_err(|_| ()).unwrap();
        assert_eq!(*after.bytes(), modified(&accumulator, &[node(1)]));
        let again = without(&after, &[leaf(1)]).map_err(|_| ()).unwrap();
        assert_eq!(*again.bytes(), modified(&after, &[node(1)]));
        assert_eq!(fault_of(without(&again, &[leaf(1)])), REFUSED);
    }
}

#[test]
fn leaves_are_taken_out_row_by_row_and_from_left_to_right() {
    // Were the last leaf taken out first, the two that are equal would be side by
    // side.
    let four = of_each(&[leaf(1), leaf(9), leaf(1), leaf(5)]);
    let three = without(&four, &[leaf(9)]).map_err(|_| ()).unwrap();
    let after = without(&three, &[leaf(5), leaf(1)]).map_err(|_| ()).unwrap();
    assert_eq!(*after.bytes(), modified(&three, &[node(5), node(1)]));
    assert_eq!(after.get_roots(), vec![NodeHash::Hash(leaf(1))]);
    let one = without(&three, &[leaf(5)]).map_err(|_| ()).unwrap();
    assert_eq!(fault_of(without(&one, &[leaf(1)])), Fault::Halt(Halt::EqualSiblings));
    // Here the lower row makes them stand side by side.
    let four = of_each(&[leaf(1), leaf(5), leaf(1), leaf(9)]);
    let three = without(&four, &[leaf(9)]).map_err(|_| ()).unwrap();
    assert_eq!(
        fault_of(without(&three, &[leaf(1), leaf(5)])),
        Fault::Halt(Halt::EqualSiblings)
    );
}

#[test]
fn a_leaf_may_be_like_a_branch() {
    let branch = match of(&[1, 2]).get_roots()[0] {
        NodeHash::Hash(h) => h,
        _ => panic!("a tree has a hash"),
    };
    let mut bytes = [0u8; 32];
    bytes[..16].copy_from_slice(&branch.hi.to_be_bytes());
    bytes[16..].copy_from_slice(&branch.lo.to_be_bytes());
    let alike = BitcoinNodeHash::from(bytes);
    // No leaf has the hash of the branch.
    assert_eq!(fault_of(without(&of(&[1, 2]), &[branch])), REFUSED);
    for (leaves, gone, nodes) in [
        (vec![leaf(1), leaf(2), branch], leaf(1), node(1)),
        (vec![leaf(1), leaf(2), branch], branch, alike),
        (vec![branch, leaf(3), leaf(1), leaf(2)], leaf(2), node(2)),
    ] {
        let accumulator = of_each(&leaves);
        let after = without(&accumulator, &[gone]).map_err(|_| ()).unwrap();
        assert_eq!(*after.bytes(), modified(&accumulator, &[nodes]));
    }
    // The leaf stands right of the branch that it is like.
    let accumulator = of_each(&[leaf(1), leaf(2), branch, leaf(3)]);
    let shrunk = without(&accumulator, &[leaf(3)]).map_err(|_| ()).unwrap();
    assert_eq!(fault_of(without(&shrunk, &[branch])), Fault::Halt(Halt::EqualSiblings));
}

#[test]
fn leaves_go_and_come_as_they_do_all_at_once() {
    let accumulator = of(&[1, 2, 3, 4, 5, 6, 7]);
    let mut diff = AccumulatorDiff::new();
    for n in [6u8, 2, 7, 3] {
        diff.remove(leaf(n));
    }
    for n in [8u8, 9] {
        diff.insert(leaf(n));
    }
    let after = accumulator.with_diff(&diff).map_err(|_| ()).unwrap();
    let mut forest =
        MemForest::<BitcoinNodeHash>::deserialize(accumulator.bytes().as_slice()).unwrap();
    forest.modify(&[node(8), node(9)], &[node(6), node(2), node(7), node(3)]).unwrap();
    let mut bytes = Vec::new();
    forest.serialize(&mut bytes).unwrap();
    assert_eq!(*after.bytes(), bytes);
    for n in [1u8, 4, 5, 8, 9] {
        assert!(forest.prove(&[node(n)]).is_ok());
    }
    assert!(forest.prove(&[node(2)]).is_err());
}

#[test]
fn addresses_are_held_as_they_are_printed() {
    let text = "bc1qw508d6qejxtdg4y5r3zarvary0c5xw7kv8f3t4";
    let loud = text.to_uppercase().into_bytes();
    let address = MainAddress::new(&loud).unwrap();
    assert_eq!(*address.text(), text.as_bytes().to_vec());
    assert!(address.same(&MainAddress::new(&text.as_bytes().to_vec()).unwrap()));
    // Version 0, then the twenty bytes of the key's hash.
    let script = address.script_pubkey().clone();
    assert_eq!(script.len(), 22);
    assert_eq!(script[..4], [0x00, 0x14, 0x75, 0x1e]);
    assert!(MainAddress::new(&b"bc1qw508d6".to_vec()).is_none());
    assert!(MainAddress::new(&vec![0xff, 0xfe]).is_none());
}

#[test]
fn addresses_are_in_the_order_of_their_text() {
    let a = MainAddress::new(&b"bc1qw508d6qejxtdg4y5r3zarvary0c5xw7kv8f3t4".to_vec()).unwrap();
    let b = MainAddress::new(&b"1A1zP1eP5QGefi2DMPTfTL5SLmv7DivfNa".to_vec()).unwrap();
    assert!(b.precedes(&a));
    assert!(!a.precedes(&b));
    assert!(!a.precedes(&a.clone()));
    assert!(!a.same(&b));
    assert!(same_bytes(&vec![1, 2], &vec![1, 2]));
    assert!(!same_bytes(&vec![1, 2], &vec![1]));
}

#[test]
fn a_payment_is_unset_while_it_is_all_zeros() {
    assert!(SwapTxId::from_bytes(&vec![]).is_unset());
    assert!(SwapTxId::from_bytes(&vec![0u8; 32]).is_unset());
    assert!(!SwapTxId::from_bytes(&vec![0, 0, 1]).is_unset());
    assert!(SwapTxId::from_bytes(&vec![1]).same(&SwapTxId::from_bytes(&vec![1])));
}

#[test]
fn outputs_are_numbered_by_their_origin() {
    let txid = coinshift_state::ids::Txid(leaf(1));
    let merkle_root = coinshift_state::ids::MerkleRoot(leaf(2));
    assert_eq!(Origin::Transaction(txid).outpoint_at(3), OutPoint::Regular { txid, vout: 3 });
    assert_eq!(
        Origin::Coinbase(merkle_root).outpoint_at(0),
        OutPoint::Coinbase { merkle_root, vout: 0 }
    );
}
